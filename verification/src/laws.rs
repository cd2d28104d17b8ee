//! What holds of the operations on the arena, taken together.
use vstd::prelude::*;
use crate::allocator::{Slots, fresh_tokens, lemma_unused_above};
use crate::copy::{Copying, in_preorder};
use crate::edit::{
    attached_last, attached_last_spans, detached, lemma_attached_last, lemma_detached,
};
use crate::forest::{
    Forest, Spans, ancestors, by_first_child, by_next, by_parent, children, descendants,
    forest_wf, in_subtree, last_child, lemma_ancestor_spans, lemma_ancestor_spans_self,
    lemma_ancestors_step, lemma_ancestors_up, lemma_children, lemma_first_children, lemma_leaf,
    lemma_nexts, lemma_not_both, lemma_orbit_is, lemma_orbit_rest, lemma_orbit_same,
    lemma_parents, lemma_sibling_descends, lemma_subtree_step, linked, nested, orbit, stepped,
};
use crate::order::{
    after_subtree, by_postorder, by_preorder, first_leaf, lemma_after_subtree, lemma_first_leaf,
    lemma_first_leaf_within, lemma_post_after, lemma_postorder_from, lemma_preorder_from,
    postorder, preorder,
};
use crate::removal::{
    lemma_first_leaf_below, lemma_first_leaf_removed, lemma_pruning, lemma_removed_leaf,
    pruning, removed_leaf,
};
use crate::token::Token;

verus! {

/// Where a sequence holds no node twice, the place of a node in it is the
/// place where the node is.
pub broadcast proof fn lemma_index_of(cs: Seq<Token>, k: int)
    requires
        0 <= k < cs.len(),
        forall|i: int| 0 <= i < cs.len() && i != k ==> cs[i] != cs[k],
    ensures
        #[trigger] cs.index_of(cs[k]) == k,
{
}

/// The ancestors of a node that is not in the subtree of `t` are the same
/// after `t` has been taken out of its place.
pub proof fn lemma_detached_ancestors(f: Forest, sp: Spans, t: Token, x: Token)
    requires
        forest_wf(f, sp),
        f.contains_key(t),
        f.contains_key(x),
        !in_subtree(f, t, x),
    ensures
        ancestors(detached(f, t), x) == ancestors(f, x),
{
    let d = detached(f, t);
    assert(linked(f, x));
    assert(linked(f, t));
    lemma_parents(f, sp, f[x].parent);
    let s = ancestors(f, x);
    assert forall|i: int| 0 <= i < s.len() implies by_parent(f)(#[trigger] s[i]) == by_parent(d)(
        s[i],
    ) by {
        assert(s.contains(s[i]));
    }
    lemma_orbit_same(by_parent(f), by_parent(d), f[x].parent, s);
}

/// Detach and reattach: a subtree that is taken out of its place and then
/// made the last child of a node outside it is inside as it was. Every
/// descendant of its root has the links it had, the root has the first
/// child it had, and every node of the subtree has the children it had,
/// in the same order.
pub proof fn lemma_detach_reattach(f: Forest, sp: Spans, t: Token, p: Token)
    requires
        forest_wf(f, sp),
        f.contains_key(t),
        f.contains_key(p),
        !in_subtree(f, t, p),
    ensures
        ({
            let g = attached_last(detached(f, t), p, t);
            &&& forest_wf(g, attached_last_spans(detached(f, t), sp, p, t))
            &&& g[t].parent == Some(p)
            &&& g[t].first_child == f[t].first_child
            &&& forall|x: Token| descendants(f, t).contains(x) ==> #[trigger] g[x] == f[x]
            &&& forall|x: Token|
                f.contains_key(x) && in_subtree(f, t, x) ==> #[trigger] children(g, x) == children(
                    f,
                    x,
                )
        }),
{
    let d = detached(f, t);
    let g = attached_last(d, p, t);
    lemma_detached(f, sp, t);
    lemma_detached_ancestors(f, sp, t, p);
    lemma_attached_last(d, sp, p, t);
    lemma_children(d, sp, p);
    assert(linked(f, t));
    assert(nested(f, sp, t));
    assert(linked(d, p));
    if ancestors(f, t).contains(t) {
        lemma_ancestor_spans(f, sp, t, t);
    }
    // the nodes whose links change are not below the root of the subtree
    assert forall|x: Token| descendants(f, t).contains(x) implies #[trigger] g[x] == f[x] by {
        lemma_ancestor_spans(f, sp, x, t);
        lemma_ancestors_step(f, sp, x);
        assert(linked(f, x));
        match f[t].parent {
            Some(q) => {
                assert(nested(f, sp, q));
            },
            None => {},
        }
        match f[t].previous_sibling {
            Some(q) => {
                assert(linked(f, q));
                assert(nested(f, sp, q));
            },
            None => {},
        }
        match f[t].next_sibling {
            Some(q) => {
                assert(linked(f, q));
                assert(nested(f, sp, q));
            },
            None => {},
        }
        match last_child(d, p) {
            Some(l) => {
                if x == l {
                    assert(f[x].parent == Some(p));
                    if p != t {
                        lemma_sibling_descends(f, sp, t, x, p);
                    }
                }
            },
            None => {},
        }
    }
    assert forall|x: Token| f.contains_key(x) && in_subtree(f, t, x) implies #[trigger] children(
        g,
        x,
    ) == children(f, x) by {
        assert(linked(f, x));
        lemma_children(f, sp, x);
        lemma_nexts(f, sp, f[x].first_child);
        let s = children(f, x);
        assert forall|i: int| 0 <= i < s.len() implies by_next(f)(#[trigger] s[i]) == by_next(g)(
            s[i],
        ) by {
            let c = s[i];
            assert(f[c].parent == Some(x));
            lemma_ancestors_step(f, sp, c);
            assert(ancestors(f, c)[0] == x);
            if x != t {
                let k = choose|k: int| 0 <= k < ancestors(f, x).len() && ancestors(f, x)[k] == t;
                assert(ancestors(f, c)[k + 1] == t);
            }
            assert(descendants(f, t).contains(c));
        }
        lemma_orbit_same(by_next(f), by_next(g), f[x].first_child, s);
        assert(g[x].first_child == f[x].first_child);
    }
}

/// In a complete copy, what comes after the subtree of the copy of a node
/// is the copy of what comes after the subtree of the node.
pub proof fn lemma_copy_after(c: Copying, dsp: Spans, ssp: Spans, t: Token)
    requires
        c.inv(),
        c.complete(),
        forest_wf(c.src, ssp),
        forest_wf(c.dst, dsp),
        c.to.contains_key(t),
        t != c.top,
    ensures
        after_subtree(c.dst, c.to[c.top], c.to[t]) == c.image(after_subtree(c.src, c.top, t)),
        after_subtree(c.src, c.top, t) matches Some(s) ==> c.to.contains_key(s),
    decreases ssp[t].lo,
{
    assert(c.copied(t));
    assert(c.done(t));
    assert(c.copied(c.top));
    assert(linked(c.src, t));
    assert(nested(c.src, ssp, t));
    lemma_after_subtree(c.src, ssp, c.top, t);
    lemma_after_subtree(c.dst, dsp, c.to[c.top], c.to[t]);
    if c.src[t].next_sibling is None {
        let p = c.src[t].parent.unwrap();
        assert(c.copied(p));
        assert(c.traced(c.to[p]));
        assert(c.traced(c.to[c.top]));
        if p != c.top {
            lemma_copy_after(c, dsp, ssp, p);
        }
    }
}

/// In a complete copy, the pre-order goes on from the copy of a node to the
/// copy of the node that the pre-order goes on to from the node.
pub proof fn lemma_copy_pre_step(c: Copying, dsp: Spans, ssp: Spans, t: Token)
    requires
        c.inv(),
        c.complete(),
        forest_wf(c.src, ssp),
        forest_wf(c.dst, dsp),
        c.to.contains_key(t),
    ensures
        by_preorder(c.dst, c.to[c.top])(c.to[t]) == c.image(by_preorder(c.src, c.top)(t)),
        by_preorder(c.src, c.top)(t) matches Some(s) ==> c.to.contains_key(s),
{
    assert(c.copied(t));
    assert(c.done(t));
    assert(c.copied(c.top));
    assert(c.traced(c.to[t]));
    assert(c.traced(c.to[c.top]));
    if c.src[t].first_child is None && t != c.top {
        lemma_copy_after(c, dsp, ssp, t);
    }
}

/// The node at place `i` of the pre-order of the subtree has been copied.
proof fn lemma_copy_preorder_at(c: Copying, dsp: Spans, ssp: Spans, i: int)
    requires
        c.inv(),
        c.complete(),
        forest_wf(c.src, ssp),
        forest_wf(c.dst, dsp),
        0 <= i < preorder(c.src, c.top).len(),
    ensures
        c.to.contains_key(preorder(c.src, c.top)[i]),
    decreases i,
{
    assert(c.copied(c.top));
    lemma_preorder_from(c.src, ssp, c.top, Some(c.top));
    let s = preorder(c.src, c.top);
    if i > 0 {
        lemma_copy_preorder_at(c, dsp, ssp, i - 1);
        assert(stepped(by_preorder(c.src, c.top), s, i - 1));
        lemma_copy_pre_step(c, dsp, ssp, s[i - 1]);
    }
}

/// Copies keep the order: the pre-order of a complete copy of a subtree
/// visits the copies of the nodes that the pre-order of the subtree
/// visits, in the same order.
pub proof fn lemma_copy_preorder(c: Copying, dsp: Spans, ssp: Spans)
    requires
        c.inv(),
        c.complete(),
        forest_wf(c.src, ssp),
        forest_wf(c.dst, dsp),
    ensures
        forall|i: int|
            0 <= i < preorder(c.src, c.top).len() ==> c.to.contains_key(
                #[trigger] preorder(c.src, c.top)[i],
            ),
        preorder(c.dst, c.to[c.top]) == preorder(c.src, c.top).map(|i: int, t: Token| c.to[t]),
{
    assert(c.copied(c.top));
    lemma_preorder_from(c.src, ssp, c.top, Some(c.top));
    let s = preorder(c.src, c.top);
    let r = s.map(|i: int, t: Token| c.to[t]);
    let succ = by_preorder(c.dst, c.to[c.top]);
    assert forall|i: int| 0 <= i < s.len() implies c.to.contains_key(#[trigger] s[i]) by {
        lemma_copy_preorder_at(c, dsp, ssp, i);
    }
    assert forall|i: int| 0 <= i < r.len() implies #[trigger] stepped(succ, r, i) by {
        assert(stepped(by_preorder(c.src, c.top), s, i));
        lemma_copy_pre_step(c, dsp, ssp, s[i]);
        if i + 1 < s.len() {
            assert(c.to.contains_key(s[i + 1]));
        }
    }
    lemma_orbit_is(succ, Some(c.to[c.top]), r);
}

/// What comes in pre-order after the subtree of a node `e` below `x`,
/// where `x` has a next sibling, is that sibling or a node below `x`.
pub proof fn lemma_after_within(f: Forest, sp: Spans, root: Token, x: Token, e: Token)
    requires
        forest_wf(f, sp),
        f.contains_key(x),
        f.contains_key(e),
        x != root,
        in_subtree(f, root, x),
        in_subtree(f, x, e),
        f[x].next_sibling is Some,
    ensures
        after_subtree(f, root, e) matches Some(r) && (r == f[x].next_sibling.unwrap() || (
        in_subtree(f, x, r) && r != x)),
    decreases sp[e].lo,
{
    lemma_after_subtree(f, sp, root, e);
    assert(linked(f, e));
    assert(nested(f, sp, e));
    match f[e].next_sibling {
        Some(r) => {
            if e != x {
                assert(linked(f, r));
                lemma_subtree_step(f, sp, x, e);
                if r != x {
                    lemma_subtree_step(f, sp, x, r);
                } else {
                    // the node below `x` would be a sibling of `x`
                    let p = f[e].parent.unwrap();
                    assert(nested(f, sp, x));
                    if p != x {
                        lemma_ancestor_spans(f, sp, p, x);
                    }
                }
            }
        },
        None => {
            lemma_subtree_step(f, sp, x, e);
            let p = f[e].parent.unwrap();
            assert(linked(f, p));
            if p == root {
                lemma_not_both(f, sp, root, x);
            }
            lemma_after_within(f, sp, root, x, p);
        },
    }
}

/// The pre-order that has come to a node of the subtree of `x`, where `x`
/// has a next sibling, comes to that sibling later.
pub proof fn lemma_preorder_reaches(f: Forest, sp: Spans, root: Token, x: Token, i: int) -> (j:
    int)
    requires
        forest_wf(f, sp),
        f.contains_key(root),
        f.contains_key(x),
        x != root,
        in_subtree(f, root, x),
        f[x].next_sibling is Some,
        0 <= i < preorder(f, root).len(),
        in_subtree(f, x, preorder(f, root)[i]),
    ensures
        i < j < preorder(f, root).len(),
        preorder(f, root)[j] == f[x].next_sibling.unwrap(),
    decreases preorder(f, root).len() - i,
{
    lemma_preorder_from(f, sp, root, Some(root));
    let s = preorder(f, root);
    let e = s[i];
    assert(stepped(by_preorder(f, root), s, i));
    assert(linked(f, e));
    if e == root {
        lemma_not_both(f, sp, root, x);
    }
    match f[e].first_child {
        Some(c) => {
            assert(linked(f, c));
            lemma_ancestors_step(f, sp, c);
            assert(ancestors(f, c)[0] == e);
            if e != x {
                lemma_ancestors_up(f, sp, c, e, x);
            }
            lemma_preorder_reaches(f, sp, root, x, i + 1)
        },
        None => {
            lemma_after_within(f, sp, root, x, e);
            if s[i + 1] == f[x].next_sibling.unwrap() {
                i + 1
            } else {
                lemma_preorder_reaches(f, sp, root, x, i + 1)
            }
        },
    }
}

/// Every node of a subtree comes in the pre-order of the subtree.
pub proof fn lemma_preorder_has(f: Forest, sp: Spans, root: Token, t: Token) -> (j: int)
    requires
        forest_wf(f, sp),
        f.contains_key(root),
        f.contains_key(t),
        in_subtree(f, root, t),
    ensures
        0 <= j < preorder(f, root).len(),
        preorder(f, root)[j] == t,
    decreases
            (match f[t].parent {
                Some(p) => sp[p].lo + 1,
                None => 0,
            }),
            (match f[t].parent {
                Some(p) => sp[p].hi - sp[t].lo,
                None => 0,
            }),
{
    lemma_preorder_from(f, sp, root, Some(root));
    let s = preorder(f, root);
    if t == root {
        0
    } else {
        assert(linked(f, t));
        assert(nested(f, sp, t));
        lemma_subtree_step(f, sp, root, t);
        let p = f[t].parent.unwrap();
        assert(linked(f, p));
        assert(nested(f, sp, p));
        match f[t].previous_sibling {
            Some(q) => {
                assert(linked(f, q));
                assert(nested(f, sp, q));
                if q == root {
                    lemma_ancestors_step(f, sp, root);
                    assert(ancestors(f, root)[0] == p);
                    lemma_not_both(f, sp, root, p);
                    assert(nested(f, sp, root));
                }
                lemma_subtree_step(f, sp, root, q);
                let i = lemma_preorder_has(f, sp, root, q);
                lemma_preorder_reaches(f, sp, root, q, i)
            },
            None => {
                let i = lemma_preorder_has(f, sp, root, p);
                assert(stepped(by_preorder(f, root), s, i));
                i + 1
            },
        }
    }
}

/// Every node that comes in the pre-order of a subtree is a node of the
/// subtree.
pub proof fn lemma_preorder_in(f: Forest, sp: Spans, root: Token, i: int)
    requires
        forest_wf(f, sp),
        f.contains_key(root),
        0 <= i < preorder(f, root).len(),
    ensures
        f.contains_key(preorder(f, root)[i]),
        in_subtree(f, root, preorder(f, root)[i]),
    decreases i,
{
    lemma_preorder_from(f, sp, root, Some(root));
    let s = preorder(f, root);
    if i > 0 {
        lemma_preorder_in(f, sp, root, i - 1);
        let e = s[i - 1];
        assert(stepped(by_preorder(f, root), s, i - 1));
        assert(linked(f, e));
        match f[e].first_child {
            Some(c) => {
                assert(linked(f, c));
                lemma_ancestors_step(f, sp, c);
                assert(ancestors(f, c)[0] == e);
                if e != root {
                    lemma_ancestors_up(f, sp, c, e, root);
                }
            },
            None => {
                lemma_after_stays(f, sp, root, e);
            },
        }
    }
}

/// What comes in pre-order after the subtree of a node of the subtree of
/// `root` is a node of that subtree.
pub proof fn lemma_after_stays(f: Forest, sp: Spans, root: Token, e: Token)
    requires
        forest_wf(f, sp),
        f.contains_key(e),
        e != root,
        in_subtree(f, root, e),
    ensures
        after_subtree(f, root, e) matches Some(r) ==> in_subtree(f, root, r),
    decreases sp[e].lo,
{
    lemma_after_subtree(f, sp, root, e);
    assert(linked(f, e));
    assert(nested(f, sp, e));
    lemma_subtree_step(f, sp, root, e);
    let p = f[e].parent.unwrap();
    assert(linked(f, p));
    match f[e].next_sibling {
        Some(r) => {
            assert(linked(f, r));
            assert(nested(f, sp, r));
            if r == root {
                lemma_ancestors_step(f, sp, root);
                assert(ancestors(f, root)[0] == p);
                lemma_not_both(f, sp, root, p);
                assert(nested(f, sp, root));
            } else {
                lemma_subtree_step(f, sp, root, r);
            }
        },
        None => {
            if p != root {
                lemma_after_stays(f, sp, root, p);
            }
        },
    }
}

/// Traversal completeness: the pre-order of a subtree visits the nodes of
/// the subtree, the root and its descendants, all of them and each once.
pub proof fn lemma_preorder_complete(f: Forest, sp: Spans, root: Token)
    requires
        forest_wf(f, sp),
        f.contains_key(root),
    ensures
        preorder(f, root).to_set() == descendants(f, root).insert(root),
        preorder(f, root).no_duplicates(),
{
    lemma_preorder_from(f, sp, root, Some(root));
    let s = preorder(f, root);
    assert forall|t: Token| s.to_set().contains(t) == descendants(f, root).insert(root).contains(
        t,
    ) by {
        if s.contains(t) {
            let i = choose|i: int| 0 <= i < s.len() && s[i] == t;
            lemma_preorder_in(f, sp, root, i);
        }
        if f.contains_key(t) && in_subtree(f, root, t) {
            let j = lemma_preorder_has(f, sp, root, t);
        }
    }
    assert(s.to_set() =~= descendants(f, root).insert(root));
    assert forall|i: int, j: int| 0 <= i < j < s.len() implies s[i] != s[j] by {
        lemma_preorder_falls(f, sp, root, i, j);
    }
}

/// Along the pre-order the intervals end lower and lower.
pub proof fn lemma_preorder_falls(f: Forest, sp: Spans, root: Token, i: int, j: int)
    requires
        forest_wf(f, sp),
        f.contains_key(root),
        0 <= i < j < preorder(f, root).len(),
    ensures
        sp[preorder(f, root)[i]].hi > sp[preorder(f, root)[j]].hi,
    decreases j - i,
{
    lemma_preorder_from(f, sp, root, Some(root));
    let s = preorder(f, root);
    let e = s[j - 1];
    assert(stepped(by_preorder(f, root), s, j - 1));
    assert(linked(f, e));
    assert(nested(f, sp, e));
    lemma_after_subtree(f, sp, root, e);
    match f[e].first_child {
        Some(c) => {
            assert(nested(f, sp, c));
        },
        None => {},
    }
    if i < j - 1 {
        lemma_preorder_falls(f, sp, root, i, j - 1);
    }
}

/// The descendants of a node of a finite forest are finitely many.
pub proof fn lemma_descendants_finite(f: Forest, t: Token)
    requires
        f.dom().finite(),
    ensures
        descendants(f, t).finite(),
{
    assert(descendants(f, t).subset_of(f.dom()));
    vstd::set_lib::lemma_set_subset_finite(f.dom(), descendants(f, t));
}

/// Pruning takes out the descendants of the node, all of them and each
/// once.
pub proof fn lemma_pruning_complete(f: Forest, sp: Spans, t: Token)
    requires
        forest_wf(f, sp),
        f.contains_key(t),
        f.dom().finite(),
    ensures
        pruning(f, sp, t).to_set() == descendants(f, t),
        pruning(f, sp, t).no_duplicates(),
    decreases descendants(f, t).len(),
{
    lemma_descendants_finite(f, t);
    lemma_pruning(f, sp, t);
    if f[t].first_child is None {
        lemma_leaf(f, sp, t);
        assert(pruning(f, sp, t).to_set() =~= Set::<Token>::empty());
    } else {
        let x = first_leaf(f, t);
        let g = removed_leaf(f, x);
        assert(linked(f, t));
        lemma_first_leaf(f, sp, t);
        lemma_first_leaf_below(f, sp, t);
        lemma_removed_leaf(f, sp, x);
        assert(descendants(f, t).contains(x));
        lemma_pruning_complete(g, sp, t);
        let rest = pruning(g, sp, t);
        let all = pruning(f, sp, t);
        assert(all == seq![x] + rest);
        assert forall|u: Token| all.to_set().contains(u) == descendants(f, t).contains(u) by {
            if all.contains(u) {
                let i = choose|i: int| 0 <= i < all.len() && all[i] == u;
                if i > 0 {
                    assert(rest[i - 1] == u);
                    assert(rest.to_set().contains(u));
                }
            }
            if descendants(f, t).contains(u) && u != x {
                assert(rest.to_set().contains(u));
                let i = choose|i: int| 0 <= i < rest.len() && rest[i] == u;
                assert(all[i + 1] == u);
            }
            assert(all[0] == x);
        }
        assert(all.to_set() =~= descendants(f, t));
        assert forall|i: int, j: int| 0 <= i < j < all.len() implies all[i] != all[j] by {
            if i == 0 {
                assert(rest[j - 1] == all[j]);
                assert(rest.to_set().contains(all[j]));
            } else {
                assert(rest[i - 1] == all[i]);
                assert(rest[j - 1] == all[j]);
            }
        }
    }
}

/// Along the post-order the intervals begin lower and lower.
pub proof fn lemma_postorder_falls(f: Forest, sp: Spans, root: Token, i: int, j: int)
    requires
        forest_wf(f, sp),
        f.contains_key(root),
        0 <= i < j < postorder(f, root).len(),
    ensures
        sp[postorder(f, root)[i]].lo > sp[postorder(f, root)[j]].lo,
    decreases j - i,
{
    lemma_first_leaf(f, sp, root);
    lemma_first_leaf_within(f, sp, root);
    lemma_postorder_from(f, sp, root, Some(first_leaf(f, root)));
    let s = postorder(f, root);
    let e = s[j - 1];
    assert(stepped(by_postorder(f, root), s, j - 1));
    lemma_post_after(f, sp, root, e);
    if i < j - 1 {
        lemma_postorder_falls(f, sp, root, i, j - 1);
    }
}

/// The first leaf below a node that has children is a first child.
pub proof fn lemma_first_leaf_first(f: Forest, sp: Spans, t: Token)
    requires
        forest_wf(f, sp),
        f.contains_key(t),
        f[t].first_child is Some,
    ensures
        f[first_leaf(f, t)].previous_sibling is None,
        f[first_leaf(f, t)].parent is Some,
    decreases sp[t].hi,
{
    let c = f[t].first_child.unwrap();
    assert(linked(f, t));
    assert(linked(f, c));
    assert(nested(f, sp, c));
    lemma_first_leaf(f, sp, t);
    lemma_first_leaf(f, sp, c);
    if f[c].first_child is Some {
        lemma_first_leaf_first(f, sp, c);
    }
}

/// Taking out a leaf that is a first child does not change what the first
/// leaf below a node is, unless that is the leaf.
pub proof fn lemma_first_leaf_kept(f: Forest, sp: Spans, x: Token, s: Token)
    requires
        forest_wf(f, sp),
        f.contains_key(x),
        f.contains_key(s),
        f[x].first_child is None,
        f[x].previous_sibling is None,
        first_leaf(f, s) != x,
    ensures
        first_leaf(removed_leaf(f, x), s) == first_leaf(f, s),
{
    let g = removed_leaf(f, x);
    assert(linked(f, x));
    lemma_first_children(f, sp, Some(s));
    let path = orbit(by_first_child(f), Some(s));
    assert forall|i: int| 0 <= i < path.len() implies by_first_child(f)(#[trigger] path[i])
        == by_first_child(g)(path[i]) by {
        let u = path[i];
        assert(stepped(by_first_child(f), path, i));
        if f[x].parent == Some(u) {
            assert(linked(f, u));
            assert(path[i + 1] == x);
            assert(stepped(by_first_child(f), path, i + 1));
        }
        match f[x].next_sibling {
            Some(n) => {
                assert(linked(f, n));
            },
            None => {},
        }
    }
    lemma_orbit_same(by_first_child(f), by_first_child(g), Some(s), path);
}

/// Post-order and pruning: the post-order of a subtree visits the
/// descendants of the root in the order in which pruning takes them out,
/// and the root after them.
pub proof fn lemma_postorder_pruning(f: Forest, sp: Spans, t: Token)
    requires
        forest_wf(f, sp),
        f.contains_key(t),
        f.dom().finite(),
    ensures
        postorder(f, t) == pruning(f, sp, t).push(t),
    decreases descendants(f, t).len(),
{
    lemma_descendants_finite(f, t);
    lemma_pruning(f, sp, t);
    lemma_first_leaf(f, sp, t);
    lemma_first_leaf_within(f, sp, t);
    lemma_postorder_from(f, sp, t, Some(first_leaf(f, t)));
    let succ = by_postorder(f, t);
    let s = postorder(f, t);
    assert(linked(f, t));
    if f[t].first_child is None {
        assert(stepped(succ, s, 0));
        assert(s =~= seq![t]);
        assert(pruning(f, sp, t).push(t) =~= seq![t]);
    } else {
        let x = first_leaf(f, t);
        let g = removed_leaf(f, x);
        lemma_first_leaf_below(f, sp, t);
        lemma_first_leaf_first(f, sp, t);
        lemma_first_leaf_removed(f, sp, t);
        lemma_removed_leaf(f, sp, x);
        assert(descendants(f, t).contains(x));
        lemma_post_after(f, sp, t, x);
        lemma_orbit_rest(succ, Some(x), s);
        let rest = s.drop_first();
        assert(linked(f, x));
        assert forall|i: int| 0 <= i < rest.len() implies succ(#[trigger] rest[i]) == by_postorder(
            g,
            t,
        )(rest[i]) by {
            let y = rest[i];
            assert(y == s[i + 1]);
            lemma_postorder_falls(f, sp, t, 0, i + 1);
            assert(stepped(succ, s, i + 1));
            assert(f.contains_key(y));
            assert(linked(f, y));
            if y != t {
                lemma_post_after(f, sp, t, y);
                match f[y].next_sibling {
                    Some(n) => {
                        assert(linked(f, n));
                        if first_leaf(f, n) == x {
                            lemma_postorder_falls(f, sp, t, 0, i + 2);
                        }
                        lemma_first_leaf_kept(f, sp, x, n);
                    },
                    None => {},
                }
                match f[x].next_sibling {
                    Some(n) => {
                        assert(linked(f, n));
                    },
                    None => {},
                }
            }
        }
        lemma_orbit_same(succ, by_postorder(g, t), succ(x), rest);
        lemma_postorder_pruning(g, sp, t);
        assert(s =~= seq![x] + rest);
        assert(s =~= pruning(f, sp, t).push(t));
    }
}

/// Traversal completeness: the post-order of a subtree visits the nodes of
/// the subtree, the root and its descendants, all of them and each once,
/// and the root last.
pub proof fn lemma_postorder_complete(f: Forest, sp: Spans, root: Token)
    requires
        forest_wf(f, sp),
        f.contains_key(root),
        f.dom().finite(),
    ensures
        postorder(f, root).to_set() == descendants(f, root).insert(root),
        postorder(f, root).no_duplicates(),
        postorder(f, root).last() == root,
{
    lemma_postorder_pruning(f, sp, root);
    lemma_pruning_complete(f, sp, root);
    lemma_ancestor_spans_self(f, sp, root);
    let p = pruning(f, sp, root);
    let s = postorder(f, root);
    assert forall|u: Token| s.to_set().contains(u) == descendants(f, root).insert(root).contains(
        u,
    ) by {
        if s.contains(u) {
            let i = choose|i: int| 0 <= i < s.len() && s[i] == u;
            if i < p.len() {
                assert(p[i] == u);
                assert(p.to_set().contains(u));
            }
        }
        if descendants(f, root).contains(u) {
            assert(p.to_set().contains(u));
            let i = choose|i: int| 0 <= i < p.len() && p[i] == u;
            assert(s[i] == u);
        }
        assert(s[p.len() as int] == root);
    }
    assert(s.to_set() =~= descendants(f, root).insert(root));
    assert forall|i: int, j: int| 0 <= i < j < s.len() implies s[i] != s[j] by {
        assert(p[i] == s[i]);
        assert(p.to_set().contains(s[i]));
        if j < p.len() {
            assert(p[j] == s[j]);
        }
    }
}

/// A copy into a new arena has the tokens in the pre-order of the
/// subtree: the copy of the root has the first token, the copy of the node
/// that comes next in pre-order the second, and so on.
pub proof fn lemma_copy_tokens(c: Copying, i: int)
    requires
        in_preorder(c, Token::at(1), Slots { free: Seq::empty(), capacity: 1 }),
        0 <= i < preorder(c.src, c.top).len(),
        i < usize::MAX,
    ensures
        c.to[preorder(c.src, c.top)[i]] == Token::at((i + 1) as nat),
{
    let pool = Slots { free: Seq::empty(), capacity: 1 };
    if i > 0 {
        assert(pool.free =~= fresh_tokens(1, 0));
        lemma_unused_above(pool, 1, (i - 1) as nat);
    }
}

} // verus!
