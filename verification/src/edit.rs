//! What the operations on the arena do to the links, and why the links
//! still form trees afterwards.
use vstd::prelude::*;
use crate::forest::{
    Forest, Links, Span, Spans, ancestors, by_next, by_parent, children, forest_wf, in_subtree,
    inserted_after, inserted_before, last_child, lemma_ancestor_spans, lemma_ancestors_step,
    lemma_child_listed, lemma_children, lemma_leaf, lemma_nexts, lemma_nexts_distinct,
    lemma_orbit_is, lemma_orbit_same, lemma_parents, lemma_subtree_step, linked, nested,
    stepped, without,
};
use crate::token::Token;

verus! {

impl Links {
    /// These links with another parent.
    pub open spec fn with_parent(self, parent: Option<Token>) -> Links {
        Links { parent, ..self }
    }

    /// These links with another sibling before.
    pub open spec fn with_previous(self, previous_sibling: Option<Token>) -> Links {
        Links { previous_sibling, ..self }
    }

    /// These links with another next sibling.
    pub open spec fn with_next(self, next_sibling: Option<Token>) -> Links {
        Links { next_sibling, ..self }
    }

    /// These links with another first child.
    pub open spec fn with_first_child(self, first_child: Option<Token>) -> Links {
        Links { first_child, ..self }
    }

    /// These links with the place in the tree taken from `place`: its
    /// parent and its siblings.
    pub open spec fn placed_as(self, place: Links) -> Links {
        Links {
            parent: place.parent,
            previous_sibling: place.previous_sibling,
            next_sibling: place.next_sibling,
            ..self
        }
    }

    /// These links without a parent and without siblings.
    pub open spec fn freed(self) -> Links {
        Links { parent: None, previous_sibling: None, next_sibling: None, ..self }
    }
}

/// The forest with one more node, `n`, that stands alone.
pub open spec fn added(f: Forest, n: Token) -> Forest {
    f.insert(n, Links::alone(n))
}

/// A number above `gap` moved up by `width`.
pub open spec fn bumped(x: nat, gap: nat, width: nat) -> nat {
    if x > gap {
        x + width
    } else {
        x
    }
}

/// Intervals that make room, just above `gap`, for the tree of the root
/// `o`, and move that tree there.
pub open spec fn grafted_spans(f: Forest, sp: Spans, o: Token, gap: nat) -> Spans {
    let width = sp[o].hi + 1;
    Map::new(
        |t: Token| true,
        |t: Token|
            if in_subtree(f, o, t) {
                Span { lo: gap + 1 + sp[t].lo, hi: gap + 1 + sp[t].hi }
            } else {
                Span { lo: bumped(sp[t].lo, gap, width), hi: bumped(sp[t].hi, gap, width) }
            },
    )
}

/// Where the intervals of `grafted_spans` lie.
pub open spec fn graft_placed(f: Forest, sp: Spans, o: Token, gap: nat, t: Token) -> bool {
    let to = grafted_spans(f, sp, o, gap);
    let width = sp[o].hi + 1;
    if in_subtree(f, o, t) {
        gap < to[t].lo && to[t].hi <= gap + width
    } else {
        &&& to[t].lo == bumped(sp[t].lo, gap, width)
        &&& to[t].hi == bumped(sp[t].hi, gap, width)
    }
}

/// Making room for the tree of a root and moving it there leaves the
/// intervals nested as the nodes are.
pub proof fn lemma_grafted_spans(f: Forest, sp: Spans, o: Token, gap: nat)
    requires
        forest_wf(f, sp),
        f.contains_key(o),
        f[o].parent is None,
    ensures
        forest_wf(f, grafted_spans(f, sp, o, gap)),
        forall|t: Token| f.contains_key(t) ==> #[trigger] graft_placed(f, sp, o, gap, t),
{
    let to = grafted_spans(f, sp, o, gap);
    assert(linked(f, o));
    assert forall|t: Token|
        #![trigger nested(f, to, t)]
        #![trigger graft_placed(f, sp, o, gap, t)]
        f.contains_key(t) implies nested(f, to, t) && graft_placed(f, sp, o, gap, t) by {
        assert(linked(f, t));
        assert(nested(f, sp, t));
        if in_subtree(f, o, t) && t != o {
            lemma_ancestor_spans(f, sp, t, o);
        }
        if t != o {
            lemma_subtree_step(f, sp, o, t);
        }
        match f[t].next_sibling {
            Some(n) => {
                assert(linked(f, n));
                lemma_subtree_step(f, sp, o, n);
            },
            None => {},
        }
    }
}

/// A new node that stands alone leaves the forest well formed. It is the
/// root of a tree that holds no other node.
pub proof fn lemma_added(f: Forest, sp: Spans, n: Token)
    requires
        forest_wf(f, sp),
        !f.contains_key(n),
    ensures
        forest_wf(added(f, n), sp.insert(n, Span { lo: 0, hi: 1 })),
        forall|t: Token| f.contains_key(t) ==> !in_subtree(added(f, n), n, t),
        forall|t: Token| f.contains_key(t) ==> #[trigger] children(added(f, n), t) == children(f, t),
        forall|t: Token|
            f.contains_key(t) ==> #[trigger] ancestors(added(f, n), t) == ancestors(f, t),
        children(added(f, n), n) == Seq::<Token>::empty(),
        ancestors(added(f, n), n) == Seq::<Token>::empty(),
{
    let g = added(f, n);
    let to = sp.insert(n, Span { lo: 0, hi: 1 });
    assert forall|t: Token|
        #![trigger linked(g, t)]
        #![trigger nested(g, to, t)]
        g.contains_key(t) implies linked(g, t) && nested(g, to, t) by {
        if t != n {
            assert(linked(f, t));
            assert(nested(f, sp, t));
        }
    }
    assert forall|t: Token| f.contains_key(t) implies !in_subtree(g, n, t) by {
        if ancestors(g, t).contains(n) {
            assert(linked(f, t));
            lemma_parents(f, sp, f[t].parent);
            let s = ancestors(f, t);
            assert forall|i: int| 0 <= i < s.len() implies by_parent(f)(#[trigger] s[i]) == by_parent(
                g,
            )(s[i]) by {}
            lemma_orbit_same(by_parent(f), by_parent(g), f[t].parent, s);
            let i = choose|i: int| 0 <= i < s.len() && s[i] == n;
            assert(f.contains_key(s[i]));
        }
    }
    assert forall|t: Token| f.contains_key(t) implies #[trigger] children(g, t) == children(f, t) by {
        assert(linked(f, t));
        lemma_nexts(f, sp, f[t].first_child);
        let s = children(f, t);
        assert forall|i: int| 0 <= i < s.len() implies by_next(f)(#[trigger] s[i]) == by_next(g)(
            s[i],
        ) by {}
        lemma_orbit_same(by_next(f), by_next(g), f[t].first_child, s);
    }
    assert forall|t: Token| f.contains_key(t) implies #[trigger] ancestors(g, t) == ancestors(
        f,
        t,
    ) by {
        assert(linked(f, t));
        lemma_parents(f, sp, f[t].parent);
        let s = ancestors(f, t);
        assert forall|i: int| 0 <= i < s.len() implies by_parent(f)(#[trigger] s[i]) == by_parent(
            g,
        )(s[i]) by {}
        lemma_orbit_same(by_parent(f), by_parent(g), f[t].parent, s);
    }
    lemma_leaf(g, to, n);
    lemma_ancestors_step(g, to, n);
}

/// The forest after the free root `o` has been made the last child of `p`.
pub open spec fn attached_last(f: Forest, p: Token, o: Token) -> Forest {
    let last = last_child(f, p);
    let f1 = match last {
        Some(l) => f.insert(l, f[l].with_next(Some(o))),
        None => f.insert(p, f[p].with_first_child(Some(o))),
    };
    f1.insert(o, f1[o].with_parent(Some(p)).with_previous(last))
}

/// The intervals after the free root `o` has been made the last child of
/// `p`.
pub open spec fn attached_last_spans(f: Forest, sp: Spans, p: Token, o: Token) -> Spans {
    grafted_spans(f, sp, o, sp[p].lo)
}

/// Making a free root the last child of a node that is not in its tree
/// leaves the forest well formed.
pub proof fn lemma_attached_last(f: Forest, sp: Spans, p: Token, o: Token)
    requires
        forest_wf(f, sp),
        f.contains_key(p),
        f.contains_key(o),
        f[o].is_free_root(),
        !in_subtree(f, o, p),
    ensures
        forest_wf(attached_last(f, p, o), attached_last_spans(f, sp, p, o)),
        attached_last(f, p, o).dom() == f.dom(),
{
    let g = attached_last(f, p, o);
    let to = attached_last_spans(f, sp, p, o);
    let last = last_child(f, p);
    lemma_children(f, sp, p);
    lemma_grafted_spans(f, sp, o, sp[p].lo);
    assert(graft_placed(f, sp, o, sp[p].lo, p));
    assert(graft_placed(f, sp, o, sp[p].lo, o));
    assert(linked(f, p));
    assert(linked(f, o));
    assert(nested(f, sp, p));
    assert(nested(f, sp, o));
    if last is Some {
        let l = last.unwrap();
        assert(linked(f, l));
        assert(nested(f, sp, l));
        lemma_subtree_step(f, sp, o, l);
        assert(graft_placed(f, sp, o, sp[p].lo, l));
    }
    assert(g.dom() =~= f.dom());
    assert forall|t: Token|
        #![trigger linked(g, t)]
        #![trigger nested(g, to, t)]
        g.contains_key(t) implies linked(g, t) && nested(g, to, t) by {
        assert(linked(f, t));
        assert(nested(f, to, t));
        match f[t].parent {
            Some(x) => {
                assert(linked(f, x));
            },
            None => {},
        }
        match f[t].previous_sibling {
            Some(x) => {
                assert(linked(f, x));
            },
            None => {},
        }
        match f[t].next_sibling {
            Some(x) => {
                assert(linked(f, x));
            },
            None => {},
        }
        match f[t].first_child {
            Some(x) => {
                assert(linked(f, x));
            },
            None => {},
        }
    }
}

/// After a free root has been made the last child of a node, the node has
/// the children it had and the root after them.
pub proof fn lemma_attached_last_children(f: Forest, sp: Spans, p: Token, o: Token)
    requires
        forest_wf(f, sp),
        f.contains_key(p),
        f.contains_key(o),
        f[o].is_free_root(),
        !in_subtree(f, o, p),
    ensures
        children(attached_last(f, p, o), p) == children(f, p).push(o),
{
    let g = attached_last(f, p, o);
    let cs = children(f, p);
    let s = cs.push(o);
    lemma_children(f, sp, p);
    assert(linked(f, p));
    assert(linked(f, o));
    assert forall|i: int| 0 <= i < s.len() implies #[trigger] stepped(by_next(g), s, i) by {
        if i < cs.len() {
            assert(stepped(by_next(f), cs, i));
            assert(f.contains_key(cs[i]));
            assert(linked(f, cs[i]));
            if i < cs.len() - 1 {
                lemma_nexts_distinct(f, sp, f[p].first_child, i, cs.len() - 1);
            }
        }
    }
    lemma_orbit_is(by_next(g), g[p].first_child, s);
}

/// After a new node has been appended to a node, that node has the
/// children it had and the new node after them; the new node has no
/// children, and its ancestors are that node and the ancestors of that
/// node. Every other node has the children and the ancestors it had.
pub proof fn lemma_appended(f: Forest, sp: Spans, p: Token, n: Token)
    requires
        forest_wf(f, sp),
        f.contains_key(p),
        !f.contains_key(n),
    ensures
        ({
            let g = attached_last(added(f, n), p, n);
            &&& children(g, p) == children(f, p).push(n)
            &&& children(g, n) == Seq::<Token>::empty()
            &&& ancestors(g, n) == seq![p] + ancestors(f, p)
            &&& forall|x: Token|
                f.contains_key(x) && x != p ==> #[trigger] children(g, x) == children(f, x)
            &&& forall|x: Token| f.contains_key(x) ==> #[trigger] ancestors(g, x) == ancestors(f, x)
        }),
{
    let f1 = added(f, n);
    let sp1 = sp.insert(n, Span { lo: 0, hi: 1 });
    let g = attached_last(f1, p, n);
    let to = attached_last_spans(f1, sp1, p, n);
    lemma_added(f, sp, n);
    lemma_attached_last(f1, sp1, p, n);
    lemma_attached_last_children(f1, sp1, p, n);
    lemma_children(f1, sp1, p);
    assert(linked(g, n));
    lemma_leaf(g, to, n);
    assert forall|x: Token| f.contains_key(x) implies #[trigger] ancestors(g, x) == ancestors(
        f,
        x,
    ) by {
        assert(linked(f, x));
        lemma_parents(f, sp, f[x].parent);
        let s = ancestors(f, x);
        assert forall|i: int| 0 <= i < s.len() implies by_parent(f)(#[trigger] s[i]) == by_parent(
            g,
        )(s[i]) by {}
        lemma_orbit_same(by_parent(f), by_parent(g), f[x].parent, s);
    }
    lemma_ancestors_step(g, to, n);
    assert forall|x: Token| f.contains_key(x) && x != p implies #[trigger] children(g, x)
        == children(f, x) by {
        lemma_children(f, sp, x);
        let s = children(f, x);
        assert forall|i: int| 0 <= i < s.len() implies by_next(f)(#[trigger] s[i]) == by_next(g)(
            s[i],
        ) by {}
        lemma_orbit_same(by_next(f), by_next(g), f[x].first_child, s);
    }
}

/// The forest after `t` has been taken out of its place: it has no parent
/// and no siblings any more, and its former neighbours are linked to each
/// other.
pub open spec fn detached(f: Forest, t: Token) -> Forest {
    let l = f[t];
    let f1 = f.insert(t, l.freed());
    let f2 = match l.previous_sibling {
        Some(q) => f1.insert(q, f1[q].with_next(l.next_sibling)),
        None => match l.parent {
            Some(p) => f1.insert(p, f1[p].with_first_child(l.next_sibling)),
            None => f1,
        },
    };
    match l.next_sibling {
        Some(s) => f2.insert(s, f2[s].with_previous(l.previous_sibling)),
        None => f2,
    }
}

/// Taking a node out of its place leaves the forest well formed, with the
/// same intervals.
pub proof fn lemma_detached(f: Forest, sp: Spans, t: Token)
    requires
        forest_wf(f, sp),
        f.contains_key(t),
    ensures
        forest_wf(detached(f, t), sp),
        detached(f, t).dom() == f.dom(),
        detached(f, t)[t] == f[t].freed(),
{
    let g = detached(f, t);
    let to = sp;
    assert(linked(f, t));
    assert(nested(f, sp, t));
    match f[t].previous_sibling {
        Some(q) => {
            assert(linked(f, q));
            assert(nested(f, sp, q));
        },
        None => {},
    }
    match f[t].next_sibling {
        Some(n) => {
            assert(linked(f, n));
        },
        None => {},
    }
    assert(g.dom() =~= f.dom());
    assert forall|u: Token|
        #![trigger linked(g, u)]
        #![trigger nested(g, to, u)]
        g.contains_key(u) implies linked(g, u) && nested(g, to, u) by {
        assert(linked(f, u));
        assert(nested(f, to, u));
        match f[u].parent {
            Some(x) => {
                assert(linked(f, x));
            },
            None => {},
        }
        match f[u].previous_sibling {
            Some(x) => {
                assert(linked(f, x));
            },
            None => {},
        }
        match f[u].next_sibling {
            Some(x) => {
                assert(linked(f, x));
            },
            None => {},
        }
        match f[u].first_child {
            Some(x) => {
                assert(linked(f, x));
            },
            None => {},
        }
    }
}

/// Two places of the children of a node hold two nodes.
pub proof fn lemma_children_distinct(f: Forest, sp: Spans, p: Token, i: int, j: int)
    requires
        forest_wf(f, sp),
        f.contains_key(p),
        0 <= i < children(f, p).len(),
        0 <= j < children(f, p).len(),
        i != j,
    ensures
        children(f, p)[i] != children(f, p)[j],
{
    assert(linked(f, p));
    if i < j {
        lemma_nexts_distinct(f, sp, f[p].first_child, i, j);
    } else {
        lemma_nexts_distinct(f, sp, f[p].first_child, j, i);
    }
}

/// A node with a parent has a place among the children of its parent:
/// after the sibling before it and before its next sibling.
pub proof fn lemma_child_place(f: Forest, sp: Spans, t: Token) -> (k: int)
    requires
        forest_wf(f, sp),
        f.contains_key(t),
        f[t].parent is Some,
    ensures
        0 <= k < children(f, f[t].parent.unwrap()).len(),
        k == children(f, f[t].parent.unwrap()).index_of(t),
        children(f, f[t].parent.unwrap())[k] == t,
        f[t].previous_sibling == (if k > 0 {
            Some(children(f, f[t].parent.unwrap())[k - 1])
        } else {
            None
        }),
        f[t].next_sibling == (if k + 1 < children(f, f[t].parent.unwrap()).len() {
            Some(children(f, f[t].parent.unwrap())[k + 1])
        } else {
            None
        }),
{
    let p = f[t].parent.unwrap();
    let cs = children(f, p);
    assert(linked(f, t));
    lemma_children(f, sp, p);
    lemma_child_listed(f, sp, t);
    let k = cs.index_of(t);
    assert(stepped(by_next(f), cs, k));
    if k > 0 {
        assert(stepped(by_next(f), cs, k - 1));
        assert(linked(f, cs[k - 1]));
    } else {
        assert(linked(f, p));
        match f[t].previous_sibling {
            Some(q) => {
                assert(linked(f, q));
                lemma_child_listed(f, sp, q);
                let j = cs.index_of(q);
                assert(stepped(by_next(f), cs, j));
                lemma_children_distinct(f, sp, p, 0, j + 1);
            },
            None => {},
        }
    }
    k
}

/// After a node has been taken out of its place its former parent has
/// the children it had but for the node, in the same order. The node has
/// the children it had, and no ancestors.
pub proof fn lemma_detached_children(f: Forest, sp: Spans, t: Token)
    requires
        forest_wf(f, sp),
        f.contains_key(t),
    ensures
        children(detached(f, t), t) == children(f, t),
        ancestors(detached(f, t), t) == Seq::<Token>::empty(),
        f[t].parent matches Some(p) ==> children(detached(f, t), p) == without(
            children(f, p),
            t,
        ),
{
    let g = detached(f, t);
    lemma_detached(f, sp, t);
    assert(linked(f, t));
    assert(nested(f, sp, t));
    lemma_ancestors_step(g, sp, t);
    // the children of the node
    lemma_children(f, sp, t);
    let own = children(f, t);
    assert forall|i: int| 0 <= i < own.len() implies by_next(f)(#[trigger] own[i]) == by_next(g)(
        own[i],
    ) by {
        assert(f[own[i]].parent == Some(t));
        match f[t].previous_sibling {
            Some(q) => {
                assert(linked(f, q));
            },
            None => {},
        }
    }
    lemma_orbit_same(by_next(f), by_next(g), f[t].first_child, own);
    // the children of its former parent
    match f[t].parent {
        Some(p) => {
            let cs = children(f, p);
            let k = lemma_child_place(f, sp, t);
            let s = cs.remove(k);
            cs.remove_ensures(k);
            lemma_children(f, sp, p);
            assert(linked(f, p));
            assert(nested(f, sp, p));
            assert forall|i: int| 0 <= i < s.len() implies #[trigger] stepped(by_next(g), s, i) by {
                let j = if i < k {
                    i
                } else {
                    i + 1
                };
                assert(s[i] == cs[j]);
                assert(stepped(by_next(f), cs, j));
                assert(f.contains_key(cs[j]));
                assert(nested(f, sp, cs[j]));
                lemma_children_distinct(f, sp, p, j, k);
                if k > 0 && j != k - 1 {
                    lemma_children_distinct(f, sp, p, j, k - 1);
                }
                if k + 1 < cs.len() && j != k + 1 {
                    lemma_children_distinct(f, sp, p, j, k + 1);
                }
            }
            if s.len() > 0 {
                if k == 0 {
                    assert(s[0] == cs[1]);
                } else {
                    assert(s[0] == cs[0]);
                }
            }
            lemma_orbit_is(by_next(g), g[p].first_child, s);
        },
        None => {},
    }
}

/// The forest after the free root `o` has been put into the place of `t`,
/// and `t` has been left without a parent and without siblings.
pub open spec fn replaced(f: Forest, t: Token, o: Token) -> Forest {
    let l = f[t];
    let f1 = f.insert(o, f[o].placed_as(l));
    let f2 = f1.insert(t, f1[t].freed());
    let f3 = match l.previous_sibling {
        Some(q) => f2.insert(q, f2[q].with_next(Some(o))),
        None => match l.parent {
            Some(p) => f2.insert(p, f2[p].with_first_child(Some(o))),
            None => f2,
        },
    };
    match l.next_sibling {
        Some(s) => f3.insert(s, f3[s].with_previous(Some(o))),
        None => f3,
    }
}

/// The intervals after the free root `o` has been put into the place of
/// `t`.
pub open spec fn replaced_spans(f: Forest, sp: Spans, t: Token, o: Token) -> Spans {
    if f[t].parent is Some {
        grafted_spans(f, sp, o, sp[t].hi)
    } else {
        sp
    }
}

/// Putting a free root into the place of a node that is not in its tree
/// leaves the forest well formed. Where the node had no parent nothing
/// changes.
pub proof fn lemma_replaced(f: Forest, sp: Spans, t: Token, o: Token)
    requires
        forest_wf(f, sp),
        f.contains_key(t),
        f.contains_key(o),
        f[o].is_free_root(),
        f[t].parent is Some ==> !in_subtree(f, o, t),
    ensures
        forest_wf(replaced(f, t, o), replaced_spans(f, sp, t, o)),
        replaced(f, t, o).dom() == f.dom(),
        f[t].parent is None ==> replaced(f, t, o) == f,
{
    let g = replaced(f, t, o);
    let to = replaced_spans(f, sp, t, o);
    assert(linked(f, t));
    assert(linked(f, o));
    assert(g.dom() =~= f.dom());
    if f[t].parent is None {
        assert(g =~= f);
    } else {
        let gap = sp[t].hi;
        let p = f[t].parent.unwrap();
        lemma_grafted_spans(f, sp, o, gap);
        assert(nested(f, sp, t));
        assert(nested(f, sp, o));
        assert(nested(f, sp, p));
        assert(linked(f, p));
        assert(graft_placed(f, sp, o, gap, o));
        assert(graft_placed(f, sp, o, gap, t));
        lemma_subtree_step(f, sp, o, t);
        assert(graft_placed(f, sp, o, gap, p));
        match f[t].previous_sibling {
            Some(q) => {
                assert(linked(f, q));
                assert(nested(f, sp, q));
                lemma_subtree_step(f, sp, o, q);
                assert(graft_placed(f, sp, o, gap, q));
            },
            None => {},
        }
        match f[t].next_sibling {
            Some(n) => {
                assert(linked(f, n));
                assert(nested(f, sp, n));
                lemma_subtree_step(f, sp, o, n);
                assert(graft_placed(f, sp, o, gap, n));
            },
            None => {},
        }
        assert forall|u: Token|
            #![trigger linked(g, u)]
            #![trigger nested(g, to, u)]
            g.contains_key(u) implies linked(g, u) && nested(g, to, u) by {
            assert(linked(f, u));
            assert(nested(f, to, u));
            match f[u].parent {
                Some(x) => {
                    assert(linked(f, x));
                },
                None => {},
            }
            match f[u].previous_sibling {
                Some(x) => {
                    assert(linked(f, x));
                },
                None => {},
            }
            match f[u].next_sibling {
                Some(x) => {
                    assert(linked(f, x));
                },
                None => {},
            }
            match f[u].first_child {
                Some(x) => {
                    assert(linked(f, x));
                },
                None => {},
            }
        }
    }
}

/// The forest after the free root `o` has been made the sibling before
/// `t`.
pub open spec fn attached_before(f: Forest, t: Token, o: Token) -> Forest {
    let l = f[t];
    let f1 = f.insert(t, l.with_previous(Some(o)));
    let f2 = match l.previous_sibling {
        Some(q) => f1.insert(q, f1[q].with_next(Some(o))),
        None => match l.parent {
            Some(p) => f1.insert(p, f1[p].with_first_child(Some(o))),
            None => f1,
        },
    };
    f2.insert(
        o,
        f2[o].with_parent(l.parent).with_previous(l.previous_sibling).with_next(Some(t)),
    )
}

/// The intervals after the free root `o` has been made the sibling before
/// `t`.
pub open spec fn attached_before_spans(f: Forest, sp: Spans, t: Token, o: Token) -> Spans {
    grafted_spans(f, sp, o, sp[t].hi)
}

/// Making a free root the sibling before a node that has a parent and is
/// not in the root's tree leaves the forest well formed.
pub proof fn lemma_attached_before(f: Forest, sp: Spans, t: Token, o: Token)
    requires
        forest_wf(f, sp),
        f.contains_key(t),
        f.contains_key(o),
        f[o].is_free_root(),
        f[t].parent is Some,
        !in_subtree(f, o, t),
    ensures
        forest_wf(attached_before(f, t, o), attached_before_spans(f, sp, t, o)),
        attached_before(f, t, o).dom() == f.dom(),
{
    let g = attached_before(f, t, o);
    let to = attached_before_spans(f, sp, t, o);
    let gap = sp[t].hi;
    let p = f[t].parent.unwrap();
    assert(linked(f, t));
    assert(linked(f, o));
    assert(linked(f, p));
    assert(g.dom() =~= f.dom());
    lemma_grafted_spans(f, sp, o, gap);
    assert(nested(f, sp, t));
    assert(nested(f, sp, o));
    assert(nested(f, sp, p));
    assert(graft_placed(f, sp, o, gap, o));
    assert(graft_placed(f, sp, o, gap, t));
    lemma_subtree_step(f, sp, o, t);
    assert(graft_placed(f, sp, o, gap, p));
    match f[t].previous_sibling {
        Some(q) => {
            assert(linked(f, q));
            assert(nested(f, sp, q));
            lemma_subtree_step(f, sp, o, q);
            assert(graft_placed(f, sp, o, gap, q));
        },
        None => {},
    }
    assert forall|u: Token|
        #![trigger linked(g, u)]
        #![trigger nested(g, to, u)]
        g.contains_key(u) implies linked(g, u) && nested(g, to, u) by {
        assert(linked(f, u));
        assert(nested(f, to, u));
        match f[u].parent {
            Some(x) => {
                assert(linked(f, x));
            },
            None => {},
        }
        match f[u].previous_sibling {
            Some(x) => {
                assert(linked(f, x));
            },
            None => {},
        }
        match f[u].next_sibling {
            Some(x) => {
                assert(linked(f, x));
            },
            None => {},
        }
        match f[u].first_child {
            Some(x) => {
                assert(linked(f, x));
            },
            None => {},
        }
    }
}

/// The forest after the free root `o` has been made the sibling after `t`.
pub open spec fn attached_after(f: Forest, t: Token, o: Token) -> Forest {
    let l = f[t];
    let f1 = f.insert(t, l.with_next(Some(o)));
    let f2 = match l.next_sibling {
        Some(s) => f1.insert(s, f1[s].with_previous(Some(o))),
        None => f1,
    };
    f2.insert(o, f2[o].with_parent(l.parent).with_previous(Some(t)).with_next(l.next_sibling))
}

/// The intervals after the free root `o` has been made the sibling after
/// `t`.
pub open spec fn attached_after_spans(f: Forest, sp: Spans, t: Token, o: Token) -> Spans {
    grafted_spans(f, sp, o, (sp[t].lo - 1) as nat)
}

/// Making a free root the sibling after a node that has a parent and is
/// not in the root's tree leaves the forest well formed.
pub proof fn lemma_attached_after(f: Forest, sp: Spans, t: Token, o: Token)
    requires
        forest_wf(f, sp),
        f.contains_key(t),
        f.contains_key(o),
        f[o].is_free_root(),
        f[t].parent is Some,
        !in_subtree(f, o, t),
    ensures
        forest_wf(attached_after(f, t, o), attached_after_spans(f, sp, t, o)),
        attached_after(f, t, o).dom() == f.dom(),
{
    let g = attached_after(f, t, o);
    let to = attached_after_spans(f, sp, t, o);
    let gap = (sp[t].lo - 1) as nat;
    let p = f[t].parent.unwrap();
    assert(linked(f, t));
    assert(linked(f, o));
    assert(linked(f, p));
    assert(g.dom() =~= f.dom());
    lemma_grafted_spans(f, sp, o, gap);
    assert(nested(f, sp, t));
    assert(nested(f, sp, o));
    assert(nested(f, sp, p));
    assert(graft_placed(f, sp, o, gap, o));
    assert(graft_placed(f, sp, o, gap, t));
    lemma_subtree_step(f, sp, o, t);
    assert(graft_placed(f, sp, o, gap, p));
    match f[t].next_sibling {
        Some(n) => {
            assert(linked(f, n));
            assert(nested(f, sp, n));
            lemma_subtree_step(f, sp, o, n);
            assert(graft_placed(f, sp, o, gap, n));
        },
        None => {},
    }
    assert forall|u: Token|
        #![trigger linked(g, u)]
        #![trigger nested(g, to, u)]
        g.contains_key(u) implies linked(g, u) && nested(g, to, u) by {
        assert(linked(f, u));
        assert(nested(f, to, u));
        match f[u].parent {
            Some(x) => {
                assert(linked(f, x));
            },
            None => {},
        }
        match f[u].previous_sibling {
            Some(x) => {
                assert(linked(f, x));
            },
            None => {},
        }
        match f[u].next_sibling {
            Some(x) => {
                assert(linked(f, x));
            },
            None => {},
        }
        match f[u].first_child {
            Some(x) => {
                assert(linked(f, x));
            },
            None => {},
        }
    }
}

/// After a free root has been made the sibling before a node, the parent
/// of the node has the children it had and the root among them, before the
/// node.
pub proof fn lemma_attached_before_children(f: Forest, sp: Spans, t: Token, o: Token)
    requires
        forest_wf(f, sp),
        f.contains_key(t),
        f.contains_key(o),
        f[o].is_free_root(),
        f[t].parent is Some,
        !in_subtree(f, o, t),
    ensures
        children(attached_before(f, t, o), f[t].parent.unwrap()) == inserted_before(
            children(f, f[t].parent.unwrap()),
            t,
            o,
        ),
{
    let g = attached_before(f, t, o);
    let p = f[t].parent.unwrap();
    let cs = children(f, p);
    let k = lemma_child_place(f, sp, t);
    let s = cs.insert(k, o);
    cs.insert_ensures(k, o);
    assert(linked(f, t));
    lemma_children(f, sp, p);
    lemma_subtree_step(f, sp, o, t);
    assert(linked(f, p));
    assert(linked(f, o));
    assert(nested(f, sp, p));
    assert forall|i: int| 0 <= i < s.len() implies #[trigger] stepped(by_next(g), s, i) by {
        if i != k {
            let j = if i < k {
                i
            } else {
                i - 1
            };
            assert(s[i] == cs[j]);
            assert(stepped(by_next(f), cs, j));
            assert(f.contains_key(cs[j]));
            assert(linked(f, cs[j]));
            assert(nested(f, sp, cs[j]));
            if j != k {
                lemma_children_distinct(f, sp, p, j, k);
            }
            if k > 0 && j != k - 1 {
                lemma_children_distinct(f, sp, p, j, k - 1);
            }
            if j + 1 < cs.len() {
                assert(s[i + 1] == (if i + 1 == k {
                    o
                } else {
                    cs[j + 1]
                }));
            }
        } else {
            assert(s[k + 1] == cs[k]);
        }
    }
    if k > 0 {
        assert(s[0] == cs[0]);
    }
    lemma_orbit_is(by_next(g), g[p].first_child, s);
}

/// After a free root has been made the sibling after a node, the parent of
/// the node has the children it had and the root among them, after the
/// node.
pub proof fn lemma_attached_after_children(f: Forest, sp: Spans, t: Token, o: Token)
    requires
        forest_wf(f, sp),
        f.contains_key(t),
        f.contains_key(o),
        f[o].is_free_root(),
        f[t].parent is Some,
        !in_subtree(f, o, t),
    ensures
        children(attached_after(f, t, o), f[t].parent.unwrap()) == inserted_after(
            children(f, f[t].parent.unwrap()),
            t,
            o,
        ),
{
    let g = attached_after(f, t, o);
    let p = f[t].parent.unwrap();
    let cs = children(f, p);
    let k = lemma_child_place(f, sp, t);
    let s = cs.insert(k + 1, o);
    cs.insert_ensures(k + 1, o);
    assert(linked(f, t));
    lemma_children(f, sp, p);
    lemma_subtree_step(f, sp, o, t);
    assert(linked(f, p));
    assert(linked(f, o));
    assert(nested(f, sp, p));
    assert forall|i: int| 0 <= i < s.len() implies #[trigger] stepped(by_next(g), s, i) by {
        if i != k + 1 {
            let j = if i <= k {
                i
            } else {
                i - 1
            };
            assert(s[i] == cs[j]);
            assert(stepped(by_next(f), cs, j));
            assert(f.contains_key(cs[j]));
            assert(linked(f, cs[j]));
            assert(nested(f, sp, cs[j]));
            if j != k {
                lemma_children_distinct(f, sp, p, j, k);
            }
            if k + 1 < cs.len() && j != k + 1 {
                lemma_children_distinct(f, sp, p, j, k + 1);
            }
            if j + 1 < cs.len() {
                assert(s[i + 1] == (if i == k {
                    o
                } else {
                    cs[j + 1]
                }));
            }
        } else {
            if k + 1 < cs.len() {
                assert(s[k + 2] == cs[k + 1]);
            }
        }
    }
    assert(s[0] == cs[0]);
    lemma_orbit_is(by_next(g), g[p].first_child, s);
}

/// The forest after the new node `n` has been made a sibling of `t`,
/// after it or before it.
pub open spec fn inserted(f: Forest, t: Token, n: Token, after: bool) -> Forest {
    if after {
        attached_after(added(f, n), t, n)
    } else {
        attached_before(added(f, n), t, n)
    }
}

/// After a new node has been made a sibling of a node, before or after
/// it, the new node has no children and the ancestors of the node. Every
/// other node has the ancestors it had, and every node but their parent has
/// the children it had.
pub proof fn lemma_inserted(f: Forest, sp: Spans, t: Token, n: Token, after: bool)
    requires
        forest_wf(f, sp),
        f.contains_key(t),
        f[t].parent is Some,
        !f.contains_key(n),
    ensures
        children(inserted(f, t, n, after), n) == Seq::<Token>::empty(),
        ancestors(inserted(f, t, n, after), n) == ancestors(f, t),
        forall|x: Token|
            f.contains_key(x) ==> #[trigger] ancestors(inserted(f, t, n, after), x) == ancestors(
                f,
                x,
            ),
        forall|x: Token|
            f.contains_key(x) && f[t].parent != Some(x) ==> #[trigger] children(
                inserted(f, t, n, after),
                x,
            ) == children(f, x),
{
    let f1 = added(f, n);
    let sp1 = sp.insert(n, Span { lo: 0, hi: 1 });
    let g = inserted(f, t, n, after);
    let to = if after {
        attached_after_spans(f1, sp1, t, n)
    } else {
        attached_before_spans(f1, sp1, t, n)
    };
    lemma_added(f, sp, n);
    if after {
        lemma_attached_after(f1, sp1, t, n);
    } else {
        lemma_attached_before(f1, sp1, t, n);
    }
    assert(linked(f, t));
    assert(linked(g, n));
    lemma_leaf(g, to, n);
    lemma_parents(f, sp, f[t].parent);
    assert forall|x: Token| f.contains_key(x) implies #[trigger] ancestors(g, x) == ancestors(
        f,
        x,
    ) by {
        assert(linked(f, x));
        lemma_parents(f, sp, f[x].parent);
        let s = ancestors(f, x);
        assert forall|i: int| 0 <= i < s.len() implies by_parent(f)(#[trigger] s[i]) == by_parent(
            g,
        )(s[i]) by {}
        lemma_orbit_same(by_parent(f), by_parent(g), f[x].parent, s);
    }
    assert(ancestors(g, t) == ancestors(f, t));
    assert(g[n].parent == g[t].parent);
    assert forall|x: Token| f.contains_key(x) && f[t].parent != Some(x) implies #[trigger] children(
        g,
        x,
    ) == children(f, x) by {
        lemma_children(f, sp, x);
        let s = children(f, x);
        assert forall|i: int| 0 <= i < s.len() implies by_next(f)(#[trigger] s[i]) == by_next(g)(
            s[i],
        ) by {
            match f[t].previous_sibling {
                Some(q) => {
                    assert(linked(f, q));
                },
                None => {},
            }
        }
        lemma_orbit_same(by_next(f), by_next(g), f[x].first_child, s);
    }
}

} // verus!
