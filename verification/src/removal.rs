//! What taking nodes out of the arena does to the links.
use vstd::prelude::*;
use crate::edit::{detached, lemma_detached};
use crate::forest::{
    Forest, Links, Spans, ancestors, by_first_child, by_parent, descendants, forest_wf,
    last_child, lemma_ancestors_step, lemma_ancestors_up, lemma_children,
    lemma_first_child_exists, lemma_first_children, lemma_last_child_is, lemma_leaf,
    lemma_orbit_same, lemma_parents, linked, nested, orbit,
};
use crate::order::{first_leaf, lemma_first_leaf};
use crate::token::Token;

verus! {

/// The forest after the leaf `t` has been taken out of its place and out
/// of the forest.
pub open spec fn removed_leaf(f: Forest, t: Token) -> Forest {
    detached(f, t).remove(t)
}

/// Taking a leaf out leaves the forest well formed. The nodes that stay
/// keep their ancestors, and every node has the descendants it had, but for
/// the leaf.
pub proof fn lemma_removed_leaf(f: Forest, sp: Spans, t: Token)
    requires
        forest_wf(f, sp),
        f.contains_key(t),
        f[t].first_child is None,
    ensures
        forest_wf(removed_leaf(f, t), sp),
        removed_leaf(f, t).dom() == f.dom().remove(t),
        forall|x: Token|
            f.contains_key(x) && x != t ==> #[trigger] ancestors(removed_leaf(f, t), x)
                == ancestors(f, x),
        forall|r: Token| #[trigger] descendants(removed_leaf(f, t), r) == descendants(f, r).remove(t),
{
    let d = detached(f, t);
    let g = removed_leaf(f, t);
    lemma_detached(f, sp, t);
    assert(linked(f, t));
    assert(g.dom() =~= f.dom().remove(t));
    assert forall|u: Token|
        #![trigger linked(g, u)]
        #![trigger nested(g, sp, u)]
        g.contains_key(u) implies linked(g, u) && nested(g, sp, u) by {
        assert(linked(d, u));
        assert(nested(d, sp, u));
        assert(linked(d, t));
        if d[u].parent == Some(t) {
            lemma_first_child_exists(d, sp, u);
        }
    }
    lemma_leaf(f, sp, t);
    assert forall|x: Token| f.contains_key(x) && x != t implies #[trigger] ancestors(g, x)
        == ancestors(f, x) by {
        assert(linked(f, x));
        lemma_parents(f, sp, f[x].parent);
        let s = ancestors(f, x);
        assert(!s.contains(t));
        assert forall|i: int| 0 <= i < s.len() implies by_parent(f)(#[trigger] s[i]) == by_parent(g)(
            s[i],
        ) by {
            assert(s.contains(s[i]));
        }
        lemma_orbit_same(by_parent(f), by_parent(g), f[x].parent, s);
    }
    assert forall|r: Token| #[trigger] descendants(g, r) == descendants(f, r).remove(t) by {
        assert forall|x: Token| descendants(g, r).contains(x) == descendants(f, r).remove(
            t,
        ).contains(x) by {
            if f.contains_key(x) && x != t {
                assert(ancestors(g, x) == ancestors(f, x));
            }
        }
        assert(descendants(g, r) =~= descendants(f, r).remove(t));
    }
}

/// The first leaf below a node that is not a leaf is one of its
/// descendants.
pub proof fn lemma_first_leaf_below(f: Forest, sp: Spans, x: Token)
    requires
        forest_wf(f, sp),
        f.contains_key(x),
        f[x].first_child is Some,
    ensures
        ancestors(f, first_leaf(f, x)).contains(x),
        first_leaf(f, x) != x,
    decreases sp[x].hi,
{
    let c = f[x].first_child.unwrap();
    assert(linked(f, x));
    assert(linked(f, c));
    assert(nested(f, sp, c));
    lemma_first_leaf(f, sp, x);
    lemma_first_leaf(f, sp, c);
    lemma_ancestors_step(f, sp, c);
    assert(ancestors(f, c)[0] == x);
    if f[c].first_child is Some {
        lemma_first_leaf_below(f, sp, c);
        lemma_ancestors_up(f, sp, first_leaf(f, c), c, x);
    }
}

/// After the first leaf below a node has been taken out, the first leaf
/// below the node is the first leaf below the sibling that followed the
/// leaf, or where there was none, the parent of the leaf.
pub proof fn lemma_first_leaf_removed(f: Forest, sp: Spans, x: Token)
    requires
        forest_wf(f, sp),
        f.contains_key(x),
        f[x].first_child is Some,
    ensures
        first_leaf(removed_leaf(f, first_leaf(f, x)), x) == (match f[first_leaf(
            f,
            x,
        )].next_sibling {
            Some(s) => first_leaf(f, s),
            None => f[first_leaf(f, x)].parent.unwrap(),
        }),
    decreases sp[x].hi,
{
    let t = first_leaf(f, x);
    let g = removed_leaf(f, t);
    let c = f[x].first_child.unwrap();
    assert(linked(f, x));
    lemma_first_leaf(f, sp, x);
    lemma_first_leaf(f, sp, c);
    lemma_first_leaf_below(f, sp, x);
    lemma_removed_leaf(f, sp, t);
    assert(linked(f, c));
    assert(linked(f, t));
    assert(nested(f, sp, x));
    assert(nested(f, sp, c));
    assert(nested(f, sp, t));
    lemma_first_leaf(g, sp, x);
    if c == t {
        match f[t].next_sibling {
            Some(s) => {
                assert(linked(f, s));
                assert(nested(f, sp, s));
                lemma_first_leaf_same(f, sp, t, s);
            },
            None => {},
        }
    } else {
        lemma_first_leaf_below(f, sp, c);
        lemma_first_leaf_removed(f, sp, c);
        let p = f[t].parent.unwrap();
        assert(linked(f, p));
        match f[t].next_sibling {
            Some(s) => {
                assert(linked(f, s));
                assert(nested(f, sp, s));
            },
            None => {},
        }
    }
}

/// Taking out a leaf does not change what the first leaf below its next
/// sibling is.
pub proof fn lemma_first_leaf_same(f: Forest, sp: Spans, t: Token, s: Token)
    requires
        forest_wf(f, sp),
        f.contains_key(t),
        f[t].first_child is None,
        f[t].next_sibling == Some(s),
    ensures
        first_leaf(removed_leaf(f, t), s) == first_leaf(f, s),
{
    let g = removed_leaf(f, t);
    assert(linked(f, t));
    assert(nested(f, sp, t));
    assert(linked(f, s));
    assert(nested(f, sp, s));
    lemma_first_children(f, sp, Some(s));
    let path = orbit(by_first_child(f), Some(s));
    assert forall|i: int| 0 <= i < path.len() implies by_first_child(f)(#[trigger] path[i])
        == by_first_child(g)(path[i]) by {
        let u = path[i];
        assert(f.contains_key(u));
        assert(sp[u].hi <= sp[s].hi);
        assert(nested(f, sp, u));
        match f[t].parent {
            Some(p) => {
                assert(linked(f, p));
                assert(nested(f, sp, p));
            },
            None => {},
        }
        match f[t].previous_sibling {
            Some(q) => {
                assert(linked(f, q));
                assert(nested(f, sp, q));
            },
            None => {},
        }
    }
    lemma_orbit_same(by_first_child(f), by_first_child(g), Some(s), path);
}

/// The descendants of `t` in the order in which they are taken out when
/// `t` is pruned: always the first leaf below `t`, so that every node goes
/// after all the nodes below it. `sp` is a witness that the forest is well
/// formed.
pub open spec fn pruning(f: Forest, sp: Spans, t: Token) -> Seq<Token>
    decreases descendants(f, t).len(),
    when forest_wf(f, sp) && f.contains_key(t) && descendants(f, t).finite()
    via pruning_ends
{
    if f[t].first_child is None {
        Seq::empty()
    } else {
        seq![first_leaf(f, t)] + pruning(removed_leaf(f, first_leaf(f, t)), sp, t)
    }
}

/// After the first leaf has been taken out fewer descendants are left, so
/// pruning comes to an end.
#[via_fn]
proof fn pruning_ends(f: Forest, sp: Spans, t: Token) {
    if f[t].first_child is Some {
        let x = first_leaf(f, t);
        assert(linked(f, t));
        lemma_first_leaf(f, sp, t);
        lemma_first_leaf_below(f, sp, t);
        lemma_removed_leaf(f, sp, x);
        assert(descendants(f, t).contains(x));
    }
}

/// Pruning goes on from the first leaf below the node, which is one of
/// its descendants, with the forest that is left without the leaf.
pub proof fn lemma_pruning(f: Forest, sp: Spans, t: Token)
    requires
        forest_wf(f, sp),
        f.contains_key(t),
        descendants(f, t).finite(),
    ensures
        pruning(f, sp, t) == (if f[t].first_child is None {
            Seq::empty()
        } else {
            seq![first_leaf(f, t)] + pruning(removed_leaf(f, first_leaf(f, t)), sp, t)
        }),
{
    if f[t].first_child is Some {
        let x = first_leaf(f, t);
        assert(linked(f, t));
        lemma_first_leaf(f, sp, t);
        lemma_first_leaf_below(f, sp, t);
        lemma_removed_leaf(f, sp, x);
        assert(descendants(f, t).contains(x));
    }
}

/// The forest after all descendants of `t` have been taken out.
pub open spec fn pruned(f: Forest, t: Token) -> Forest {
    f.remove_keys(descendants(f, t)).insert(t, f[t].with_first_child(None))
}

/// The links of a child of `t` after `t` has been taken out and its
/// children have taken its place: the child has the parent of `t`; the
/// first child has the sibling before `t` before it, and the last child
/// has the next sibling of `t` after it. Where `t` has no parent the child
/// is left without a parent and without siblings.
pub open spec fn adopted(f: Forest, t: Token, u: Token) -> Links {
    let l = f[t];
    let k = f[u];
    if l.parent is Some {
        Links {
            parent: l.parent,
            previous_sibling: if k.previous_sibling is None {
                l.previous_sibling
            } else {
                k.previous_sibling
            },
            next_sibling: if k.next_sibling is None {
                l.next_sibling
            } else {
                k.next_sibling
            },
            ..k
        }
    } else {
        k.freed()
    }
}

/// The forest after `t` alone has been taken out of it and its children
/// have taken its place among its siblings, in their order. The former
/// neighbours of `t` are linked to the first and to the last child, or to
/// each other where `t` has no children.
pub open spec fn spliced(f: Forest, t: Token) -> Forest {
    let l = f[t];
    let first = if l.first_child is Some {
        l.first_child
    } else {
        l.next_sibling
    };
    let last = if l.first_child is Some {
        last_child(f, t)
    } else {
        l.previous_sibling
    };
    Map::new(
        |u: Token| f.contains_key(u) && u != t,
        |u: Token|
            if f[u].parent == Some(t) {
                adopted(f, t, u)
            } else if l.previous_sibling == Some(u) {
                f[u].with_next(first)
            } else if l.next_sibling == Some(u) {
                f[u].with_previous(last)
            } else if l.parent == Some(u) && l.previous_sibling is None {
                f[u].with_first_child(first)
            } else {
                f[u]
            },
    )
}

/// Taking a node out and putting its children into its place leaves the
/// forest well formed, with the same intervals.
pub proof fn lemma_spliced(f: Forest, sp: Spans, t: Token)
    requires
        forest_wf(f, sp),
        f.contains_key(t),
    ensures
        forest_wf(spliced(f, t), sp),
        spliced(f, t).dom() == f.dom().remove(t),
{
    let g = spliced(f, t);
    let l = f[t];
    assert(linked(f, t));
    assert(nested(f, sp, t));
    lemma_children(f, sp, t);
    assert(g.dom() =~= f.dom().remove(t));
    match l.parent {
        Some(p) => {
            assert(linked(f, p));
            assert(nested(f, sp, p));
        },
        None => {},
    }
    match l.previous_sibling {
        Some(q) => {
            assert(linked(f, q));
            assert(nested(f, sp, q));
        },
        None => {},
    }
    match l.next_sibling {
        Some(n) => {
            assert(linked(f, n));
            assert(nested(f, sp, n));
        },
        None => {},
    }
    match l.first_child {
        Some(c) => {
            assert(linked(f, c));
            assert(nested(f, sp, c));
        },
        None => {},
    }
    match last_child(f, t) {
        Some(c) => {
            assert(linked(f, c));
            assert(nested(f, sp, c));
        },
        None => {},
    }
    assert forall|u: Token|
        #![trigger linked(g, u)]
        #![trigger nested(g, sp, u)]
        g.contains_key(u) implies linked(g, u) && nested(g, sp, u) by {
        assert(linked(f, u));
        assert(nested(f, sp, u));
        match f[u].parent {
            Some(x) => {
                assert(linked(f, x));
                assert(nested(f, sp, x));
            },
            None => {},
        }
        match f[u].previous_sibling {
            Some(x) => {
                assert(linked(f, x));
                assert(nested(f, sp, x));
            },
            None => {},
        }
        match f[u].next_sibling {
            Some(x) => {
                assert(linked(f, x));
                assert(nested(f, sp, x));
            },
            None => {},
        }
        match f[u].first_child {
            Some(x) => {
                assert(linked(f, x));
                assert(nested(f, sp, x));
            },
            None => {},
        }
        if f[u].parent == Some(t) {
            if f[u].next_sibling is None {
                lemma_last_child_is(f, sp, u);
            }
        }
    }
}

} // verus!
