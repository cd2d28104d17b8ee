//! What it means to copy a subtree from one forest into another.
use vstd::prelude::*;
use crate::allocator::Slots;
use crate::edit::{added, attached_last, lemma_added};
use crate::forest::{
    Forest, Spans, descendants, forest_wf, in_subtree, last_child, lemma_ancestor_spans,
    lemma_ancestor_spans_self, lemma_children, lemma_last_child_is, lemma_subtree_step, linked,
    nested,
};
use crate::order::{Branch, after_subtree, preorder};
use crate::token::Token;

verus! {

/// A copy in progress: the nodes of a subtree of one forest are copied,
/// one by one, into another forest, below one of its nodes.
pub struct Copying {
    /// The forest that is copied from.
    pub src: Forest,
    /// The root of the subtree that is copied.
    pub top: Token,
    /// The forest that is copied into, as it was when only the root of the
    /// subtree had been copied.
    pub start: Forest,
    /// The forest that is copied into, as it is.
    pub dst: Forest,
    /// For each node that has been copied, its copy.
    pub to: Map<Token, Token>,
    /// For each copy, the node that it is the copy of.
    pub back: Map<Token, Token>,
}

impl Copying {
    /// The copy of the node that a link names, if that node has been
    /// copied.
    pub open spec fn image(self, t: Option<Token>) -> Option<Token> {
        match t {
            Some(x) => if self.to.contains_key(x) {
                Some(self.to[x])
            } else {
                None
            },
            None => None,
        }
    }

    /// The copy of `x` is a node of the forest copied into, and a new one
    /// unless `x` is the root of the subtree. It is linked to the copies of
    /// the nodes that `x` is linked to, as far as they have been copied;
    /// the copy of the root of the subtree has the parent and the siblings
    /// that it had at the start instead. The parent of `x` and the sibling
    /// before it were copied before `x`.
    pub open spec fn copied(self, x: Token) -> bool {
        let l = self.src[x];
        let n = self.to[x];
        let k = self.dst[n];
        &&& self.src.contains_key(x)
        &&& in_subtree(self.src, self.top, x)
        &&& self.dst.contains_key(n)
        &&& self.back.contains_key(n)
        &&& self.back[n] == x
        &&& k.token == n
        &&& k.first_child == self.image(l.first_child)
        &&& if x == self.top {
            &&& self.start.contains_key(n)
            &&& k.parent == self.start[n].parent
            &&& k.previous_sibling == self.start[n].previous_sibling
            &&& k.next_sibling == self.start[n].next_sibling
        } else {
            &&& !self.start.contains_key(n)
            &&& l.parent is Some
            &&& self.to.contains_key(l.parent.unwrap())
            &&& k.parent == Some(self.to[l.parent.unwrap()])
            &&& (l.previous_sibling matches Some(q) ==> self.to.contains_key(q))
            &&& k.previous_sibling == self.image(l.previous_sibling)
            &&& k.next_sibling == self.image(l.next_sibling)
        }
    }

    /// The node `u` that was there at the start is as it was then.
    pub open spec fn kept(self, u: Token) -> bool {
        self.dst.contains_key(u) && self.dst[u] == self.start[u]
    }

    /// `n` is the copy of the node that `back` gives for it.
    pub open spec fn traced(self, n: Token) -> bool {
        self.to.contains_key(self.back[n]) && self.to[self.back[n]] == n
    }

    /// The root of the subtree has been copied; every copy is linked as the
    /// node it is a copy of; the other nodes that were there at the start
    /// are as they were; and the forest copied into holds these and the
    /// copies.
    pub open spec fn inv(self) -> bool {
        &&& self.to.contains_key(self.top)
        &&& forall|x: Token| self.to.contains_key(x) ==> #[trigger] self.copied(x)
        &&& forall|u: Token|
            self.start.contains_key(u) && u != self.to[self.top] ==> #[trigger] self.kept(u)
        &&& forall|n: Token| self.back.contains_key(n) ==> #[trigger] self.traced(n)
        &&& self.dst.dom() == self.start.dom().union(self.back.dom())
    }

    /// The copy after `x`, whose parent has been copied, has been copied to
    /// the new node `n`, the last child of the copy of its parent.
    pub open spec fn grown(self, x: Token, n: Token) -> Copying {
        Copying {
            dst: attached_last(added(self.dst, n), self.to[self.src[x].parent.unwrap()], n),
            to: self.to.insert(x, n),
            back: self.back.insert(n, x),
            ..self
        }
    }

    /// The copy when only the root of the subtree has been copied, to the
    /// node `n` of the forest `start`.
    pub open spec fn begun(src: Forest, top: Token, start: Forest, n: Token) -> Copying {
        Copying {
            src,
            top,
            start,
            dst: start,
            to: Map::<Token, Token>::empty().insert(top, n),
            back: Map::<Token, Token>::empty().insert(n, top),
        }
    }

    /// Every node that has been copied has its first child copied, and its
    /// next sibling too unless it is the root of the subtree.
    pub open spec fn complete(self) -> bool {
        forall|x: Token| self.to.contains_key(x) ==> #[trigger] self.done(x)
    }

    /// The first child of `x` has been copied, and its next sibling too
    /// unless `x` is the root of the subtree.
    pub open spec fn done(self, x: Token) -> bool {
        &&& self.src[x].first_child matches Some(c) ==> self.to.contains_key(c)
        &&& x != self.top ==> (self.src[x].next_sibling matches Some(s) ==> self.to.contains_key(s))
    }
}

/// The copy of the root alone, to a leaf, is a copy in progress.
pub proof fn lemma_copy_begun(src: Forest, ssp: Spans, top: Token, start: Forest, n: Token)
    requires
        forest_wf(src, ssp),
        src.contains_key(top),
        start.contains_key(n),
        start[n].token == n,
        start[n].first_child is None,
    ensures
        Copying::begun(src, top, start, n).inv(),
{
    let c = Copying::begun(src, top, start, n);
    assert(linked(src, top));
    assert(nested(src, ssp, top));
    match src[top].first_child {
        Some(ch) => {
            assert(linked(src, ch));
            assert(nested(src, ssp, ch));
        },
        None => {},
    }
    assert(c.copied(top));
    assert forall|u: Token| start.contains_key(u) && u != c.to[c.top] implies #[trigger] c.kept(
        u,
    ) by {}
    assert forall|m: Token| c.back.contains_key(m) implies #[trigger] c.traced(m) by {}
    assert(c.dst.dom() =~= c.start.dom().union(c.back.dom()));
}

/// Copying one more node, whose parent and whose sibling before it have
/// been copied, as the last child of the copy of its parent, goes on with
/// the copy.
pub proof fn lemma_copy_grown(c: Copying, dsp: Spans, ssp: Spans, x: Token, n: Token)
    requires
        c.inv(),
        forest_wf(c.dst, dsp),
        forest_wf(c.src, ssp),
        c.src.contains_key(x),
        !c.to.contains_key(x),
        c.src[x].parent is Some,
        c.to.contains_key(c.src[x].parent.unwrap()),
        c.src[x].previous_sibling matches Some(q) ==> c.to.contains_key(q),
        !c.dst.contains_key(n),
    ensures
        c.grown(x, n).inv(),
        c.dst.contains_key(c.to[c.src[x].parent.unwrap()]),
        x != c.top,
        c.src[x].first_child matches Some(ch) ==> !c.grown(x, n).to.contains_key(ch),
        c.src[x].next_sibling matches Some(s) ==> !c.grown(x, n).to.contains_key(s),
{
    let src = c.src;
    let top = c.top;
    let p = src[x].parent.unwrap();
    let pp = c.to[p];
    let g = c.grown(x, n);
    assert(c.copied(p));
    assert(c.copied(top));
    assert(linked(src, x));
    assert(nested(src, ssp, x));
    assert(linked(src, p));
    assert(linked(src, top));
    assert(nested(src, ssp, top));
    lemma_subtree_step(src, ssp, top, x);
    // the root of the subtree is neither the parent of a copied node nor
    // its sibling
    if in_subtree(src, top, p) && p != top {
        lemma_ancestor_spans(src, ssp, p, top);
    }
    lemma_ancestor_spans_self(src, ssp, top);
    lemma_added(c.dst, dsp, n);
    lemma_children(c.dst, dsp, pp);
    let last = last_child(c.dst, pp);
    match src[x].previous_sibling {
        Some(q) => {
            assert(linked(src, q));
            assert(nested(src, ssp, q));
            assert(c.copied(q));
            assert(q != top);
            lemma_last_child_is(c.dst, dsp, c.to[q]);
            assert(last == Some(c.to[q]));
        },
        None => {
            assert(last is None);
        },
    }
    assert(last == c.image(src[x].previous_sibling));
    match src[x].first_child {
        Some(ch) => {
            assert(linked(src, ch));
            assert(nested(src, ssp, ch));
            if c.to.contains_key(ch) {
                assert(c.copied(ch));
            }
        },
        None => {},
    }
    match src[x].next_sibling {
        Some(s) => {
            assert(linked(src, s));
            assert(nested(src, ssp, s));
            if c.to.contains_key(s) {
                assert(c.copied(s));
            }
        },
        None => {},
    }
    assert(g.copied(x));
    assert forall|z: Token| g.to.contains_key(z) implies #[trigger] g.copied(z) by {
        if z != x {
            assert(c.copied(z));
            assert(linked(src, z));
            assert(c.traced(c.to[z]));
            match src[z].parent {
                Some(y) => {
                    if c.to.contains_key(y) {
                        assert(c.copied(y));
                    }
                },
                None => {},
            }
        }
    }
    assert forall|u: Token| g.start.contains_key(u) && u != g.to[g.top] implies #[trigger] g.kept(
        u,
    ) by {
        assert(c.kept(u));
        assert(c.traced(pp));
        if last is Some {
            assert(c.traced(last.unwrap()));
        }
    }
    assert forall|m: Token| g.back.contains_key(m) implies #[trigger] g.traced(m) by {
        if m != n {
            assert(c.traced(m));
        }
    }
    assert(g.dst.dom() =~= g.start.dom().union(g.back.dom()));
}

/// The copies of a copy were made in the pre-order of the subtree: the
/// first is at `first`, and each of the others at the token that `pool`
/// handed out next.
pub open spec fn in_preorder(c: Copying, first: Token, pool: Slots) -> bool {
    forall|i: int|
        0 <= i < preorder(c.src, c.top).len() ==> c.to[#[trigger] preorder(c.src, c.top)[i]] == (
        if i == 0 {
            first
        } else {
            pool.taken_n((i - 1) as nat).next()
        })
}

/// What comes in pre-order after the subtree of a node of the subtree of
/// `root`: nothing after the subtree of `root` itself.
pub open spec fn after_in(f: Forest, root: Token, t: Token) -> Option<Token> {
    if t == root {
        None
    } else {
        after_subtree(f, root, t)
    }
}

/// The place `i` of the stack of a copy in progress: the node there has
/// been copied, it is a child of the node below it on the stack, its next
/// sibling has not been copied, and, unless it is on top of the stack, its
/// first child has.
pub open spec fn stacked(c: Copying, stack: Seq<Token>, i: int) -> bool {
    let t = stack[i];
    &&& c.to.contains_key(t)
    &&& i > 0 ==> c.src[t].parent == Some(stack[i - 1]) && t != c.top
    &&& c.src[t].next_sibling matches Some(s) ==> !c.to.contains_key(s)
    &&& i < stack.len() - 1 ==> c.src[t].first_child is Some && c.to.contains_key(
        c.src[t].first_child.unwrap(),
    )
}

/// The node at place `i` of the stack has an interval that ends above the
/// one at place `j`.
pub open spec fn above(ssp: Spans, stack: Seq<Token>, i: int, j: int) -> bool {
    ssp[stack[i]].hi > ssp[stack[j]].hi
}

/// The copy has come to the node on top of the stack, on the given branch.
/// The stack holds the way from the root of the subtree down to that node.
/// On the child branch the children of the node are still to be copied; on
/// the sibling branch its subtree has been copied. Every node that has been
/// copied and is not on the stack is done with.
pub open spec fn walking(c: Copying, ssp: Spans, stack: Seq<Token>, branch: Branch) -> bool {
    &&& stack.len() >= 1
    &&& stack[0] == c.top
    &&& !(branch is End)
    &&& forall|i: int| 0 <= i < stack.len() ==> #[trigger] stacked(c, stack, i)
    &&& forall|i: int, j: int| 0 <= i < j < stack.len() ==> #[trigger] above(ssp, stack, i, j)
    &&& c.src[stack.last()].first_child matches Some(ch) ==> c.to.contains_key(ch) == (branch
        is Sibling)
    &&& forall|x: Token| c.to.contains_key(x) && !stack.contains(x) ==> #[trigger] c.done(x)
}

/// How far the walk of a copy is from its end.
pub open spec fn walk_left(ssp: Spans, stack: Seq<Token>, branch: Branch) -> nat {
    if branch is Child {
        2 * ssp[stack.last()].hi + 1
    } else {
        2 * ssp[stack.last()].lo
    }
}

/// The walk of a copy begins at the root of the subtree, on the child
/// branch.
pub proof fn lemma_walk_begun(c: Copying, ssp: Spans)
    requires
        c.inv(),
        forest_wf(c.src, ssp),
        c.to == Map::<Token, Token>::empty().insert(c.top, c.to[c.top]),
    ensures
        walking(c, ssp, seq![c.top], Branch::Child),
{
    let stack = seq![c.top];
    assert(c.copied(c.top));
    assert(linked(c.src, c.top));
    assert(nested(c.src, ssp, c.top));
    match c.src[c.top].first_child {
        Some(ch) => {
            assert(nested(c.src, ssp, ch));
        },
        None => {},
    }
    match c.src[c.top].next_sibling {
        Some(s) => {
            assert(nested(c.src, ssp, s));
        },
        None => {},
    }
    assert forall|i: int| 0 <= i < stack.len() implies #[trigger] stacked(c, stack, i) by {}
    assert forall|x: Token| c.to.contains_key(x) && !stack.contains(x) implies #[trigger] c.done(
        x,
    ) by {
        assert(stack[0] == x);
    }
}

/// A node without children is done with on the child branch at once.
pub proof fn lemma_walk_leaf(c: Copying, ssp: Spans, stack: Seq<Token>)
    requires
        c.inv(),
        forest_wf(c.src, ssp),
        walking(c, ssp, stack, Branch::Child),
        c.src[stack.last()].first_child is None,
    ensures
        walking(c, ssp, stack, Branch::Sibling),
        walk_left(ssp, stack, Branch::Sibling) < walk_left(ssp, stack, Branch::Child),
{
    assert(stacked(c, stack, stack.len() - 1));
    assert(c.copied(stack.last()));
    assert(nested(c.src, ssp, stack.last()));
}

/// The walk goes down to the first child of the node on top of the stack,
/// which is copied to the new node `n`.
pub proof fn lemma_walk_down(c: Copying, dsp: Spans, ssp: Spans, stack: Seq<Token>, n: Token)
    requires
        c.inv(),
        forest_wf(c.dst, dsp),
        forest_wf(c.src, ssp),
        walking(c, ssp, stack, Branch::Child),
        c.src[stack.last()].first_child is Some,
        !c.dst.contains_key(n),
    ensures
        c.grown(c.src[stack.last()].first_child.unwrap(), n).inv(),
        walking(
            c.grown(c.src[stack.last()].first_child.unwrap(), n),
            ssp,
            stack.push(c.src[stack.last()].first_child.unwrap()),
            Branch::Child,
        ),
        walk_left(ssp, stack.push(c.src[stack.last()].first_child.unwrap()), Branch::Child)
            < walk_left(ssp, stack, Branch::Child),
        c.src.contains_key(c.src[stack.last()].first_child.unwrap()),
        !c.to.contains_key(c.src[stack.last()].first_child.unwrap()),
        c.to.contains_key(stack.last()),
        c.dst.contains_key(c.to[stack.last()]),
{
    let t = stack.last();
    let x = c.src[t].first_child.unwrap();
    let g = c.grown(x, n);
    let grown = stack.push(x);
    let k = stack.len() - 1;
    assert(stacked(c, stack, k));
    assert(c.copied(t));
    assert(linked(c.src, t));
    assert(linked(c.src, x));
    assert(nested(c.src, ssp, x));
    lemma_copy_grown(c, dsp, ssp, x, n);
    assert forall|i: int| 0 <= i < grown.len() implies #[trigger] stacked(g, grown, i) by {
        if i < stack.len() {
            assert(stacked(c, stack, i));
            assert(grown[i] == stack[i]);
            match c.src[stack[i]].next_sibling {
                Some(s) => {
                    assert(c.copied(stack[i]));
                    assert(linked(c.src, stack[i]));
                },
                None => {},
            }
        }
    }
    assert forall|i: int, j: int| 0 <= i < j < grown.len() implies #[trigger] above(
        ssp,
        grown,
        i,
        j,
    ) by {
        if j < stack.len() {
            assert(above(ssp, stack, i, j));
        } else if i < k {
            assert(above(ssp, stack, i, k));
        }
    }
    assert forall|z: Token| g.to.contains_key(z) && !grown.contains(z) implies #[trigger] g.done(
        z,
    ) by {
        assert(grown[grown.len() - 1] == x);
        if stack.contains(z) {
            let i = choose|i: int| 0 <= i < stack.len() && stack[i] == z;
            assert(grown[i] == z);
        }
        assert(c.done(z));
    }
}

/// The walk leaves the node on top of the stack, which has no next
/// sibling, and comes back to its parent on the sibling branch.
pub proof fn lemma_walk_up(c: Copying, ssp: Spans, stack: Seq<Token>)
    requires
        c.inv(),
        forest_wf(c.src, ssp),
        walking(c, ssp, stack, Branch::Sibling),
        stack.last() != c.top,
        c.src[stack.last()].next_sibling is None,
    ensures
        walking(c, ssp, stack.drop_last(), Branch::Sibling),
        walk_left(ssp, stack.drop_last(), Branch::Sibling) < walk_left(ssp, stack, Branch::Sibling),
{
    let y = stack.last();
    let k = stack.len() - 1;
    let rest = stack.drop_last();
    assert(stacked(c, stack, k));
    assert(stacked(c, stack, k - 1));
    assert(c.copied(y));
    assert(nested(c.src, ssp, y));
    assert forall|i: int| 0 <= i < rest.len() implies #[trigger] stacked(c, rest, i) by {
        assert(stacked(c, stack, i));
    }
    assert forall|i: int, j: int| 0 <= i < j < rest.len() implies #[trigger] above(ssp, rest, i, j) by {
        assert(above(ssp, stack, i, j));
    }
    assert forall|z: Token| c.to.contains_key(z) && !rest.contains(z) implies #[trigger] c.done(
        z,
    ) by {
        if z != y {
            if stack.contains(z) {
                let i = choose|i: int| 0 <= i < stack.len() && stack[i] == z;
                assert(rest[i] == z);
            }
        }
    }
}

/// The walk leaves the node on top of the stack and goes over to its next
/// sibling, which is copied to the new node `n`.
pub proof fn lemma_walk_over(c: Copying, dsp: Spans, ssp: Spans, stack: Seq<Token>, n: Token)
    requires
        c.inv(),
        forest_wf(c.dst, dsp),
        forest_wf(c.src, ssp),
        walking(c, ssp, stack, Branch::Sibling),
        stack.last() != c.top,
        c.src[stack.last()].next_sibling is Some,
        !c.dst.contains_key(n),
    ensures
        c.grown(c.src[stack.last()].next_sibling.unwrap(), n).inv(),
        walking(
            c.grown(c.src[stack.last()].next_sibling.unwrap(), n),
            ssp,
            stack.drop_last().push(c.src[stack.last()].next_sibling.unwrap()),
            Branch::Child,
        ),
        walk_left(
            ssp,
            stack.drop_last().push(c.src[stack.last()].next_sibling.unwrap()),
            Branch::Child,
        ) < walk_left(ssp, stack, Branch::Sibling),
        c.src.contains_key(c.src[stack.last()].next_sibling.unwrap()),
        !c.to.contains_key(c.src[stack.last()].next_sibling.unwrap()),
        c.src[stack.last()].parent is Some,
        c.src[c.src[stack.last()].next_sibling.unwrap()].parent == c.src[stack.last()].parent,
        c.to.contains_key(c.src[stack.last()].parent.unwrap()),
        c.dst.contains_key(c.to[c.src[stack.last()].parent.unwrap()]),
{
    let y = stack.last();
    let x = c.src[y].next_sibling.unwrap();
    let g = c.grown(x, n);
    let k = stack.len() - 1;
    let rest = stack.drop_last();
    let grown = rest.push(x);
    assert(stacked(c, stack, k));
    assert(stacked(c, stack, k - 1));
    assert(c.copied(y));
    assert(linked(c.src, y));
    assert(nested(c.src, ssp, y));
    assert(linked(c.src, x));
    assert(nested(c.src, ssp, x));
    lemma_copy_grown(c, dsp, ssp, x, n);
    assert forall|i: int| 0 <= i < grown.len() implies #[trigger] stacked(g, grown, i) by {
        if i < k {
            assert(stacked(c, stack, i));
            assert(grown[i] == stack[i]);
            assert(above(ssp, stack, i, k));
            match c.src[stack[i]].next_sibling {
                Some(s) => {
                    assert(c.copied(stack[i]));
                    assert(linked(c.src, stack[i]));
                },
                None => {},
            }
        }
    }
    assert forall|i: int, j: int| 0 <= i < j < grown.len() implies #[trigger] above(
        ssp,
        grown,
        i,
        j,
    ) by {
        if j < k {
            assert(above(ssp, stack, i, j));
        } else {
            assert(above(ssp, stack, i, k));
        }
    }
    assert forall|z: Token| g.to.contains_key(z) && !grown.contains(z) implies #[trigger] g.done(
        z,
    ) by {
        assert(grown[grown.len() - 1] == x);
        if z != y {
            if stack.contains(z) {
                let i = choose|i: int| 0 <= i < stack.len() && stack[i] == z;
                assert(grown[i] == z);
            }
            assert(c.done(z));
        }
    }
}

/// When the walk leaves the root of the subtree the copy is complete, and
/// the stack held the root alone.
pub proof fn lemma_walk_done(c: Copying, ssp: Spans, stack: Seq<Token>)
    requires
        c.inv(),
        forest_wf(c.src, ssp),
        walking(c, ssp, stack, Branch::Sibling),
        stack.last() == c.top,
    ensures
        c.complete(),
        stack.len() == 1,
{
    let k = stack.len() - 1;
    assert(stacked(c, stack, k));
    assert forall|z: Token| c.to.contains_key(z) implies #[trigger] c.done(z) by {
        if z != c.top {
            if stack.contains(z) {
                let i = choose|i: int| 0 <= i < stack.len() && stack[i] == z;
                assert(stacked(c, stack, i));
                assert(stacked(c, stack, 0));
            }
        }
    }
}

/// When the copy is complete every node of the subtree has been copied.
pub proof fn lemma_copy_all(c: Copying, ssp: Spans, t: Token)
    requires
        c.inv(),
        c.complete(),
        forest_wf(c.src, ssp),
        c.src.contains_key(t),
        in_subtree(c.src, c.top, t),
    ensures
        c.to.contains_key(t),
    decreases
            (match c.src[t].parent {
                Some(p) => ssp[p].lo + 1,
                None => 0,
            }),
            (match c.src[t].parent {
                Some(p) => ssp[p].hi - ssp[t].lo,
                None => 0,
            }),
{
    let src = c.src;
    if t != c.top {
        assert(linked(src, t));
        assert(nested(src, ssp, t));
        assert(c.copied(c.top));
        assert(linked(src, c.top));
        assert(nested(src, ssp, c.top));
        lemma_subtree_step(src, ssp, c.top, t);
        let p = src[t].parent.unwrap();
        assert(linked(src, p));
        assert(nested(src, ssp, p));
        lemma_copy_all(c, ssp, p);
        assert(c.done(p));
        match src[t].previous_sibling {
            Some(q) => {
                assert(linked(src, q));
                assert(nested(src, ssp, q));
                if q == c.top {
                    if p != c.top {
                        lemma_ancestor_spans(src, ssp, p, c.top);
                    }
                } else {
                    lemma_subtree_step(src, ssp, c.top, q);
                    lemma_copy_all(c, ssp, q);
                    assert(c.done(q));
                }
            },
            None => {},
        }
    }
}

/// The nodes that have been copied when the copy is complete are the root
/// of the subtree and its descendants.
pub proof fn lemma_copy_complete(c: Copying, ssp: Spans)
    requires
        c.inv(),
        c.complete(),
        forest_wf(c.src, ssp),
    ensures
        c.to.dom() == descendants(c.src, c.top).insert(c.top),
{
    assert forall|t: Token| c.to.dom().contains(t) == descendants(c.src, c.top).insert(
        c.top,
    ).contains(t) by {
        if c.to.contains_key(t) {
            assert(c.copied(t));
        }
        if c.src.contains_key(t) && in_subtree(c.src, c.top, t) {
            lemma_copy_all(c, ssp, t);
        }
        assert(c.copied(c.top));
    }
    assert(c.to.dom() =~= descendants(c.src, c.top).insert(c.top));
}

} // verus!
