//! The arena: a pool of nodes whose links form trees.
use std::collections::HashMap;
use vstd::prelude::*;
use crate::allocator::{Allocator, Slots, lemma_taken_after};
use crate::copy::{
    Copying, after_in, in_preorder, lemma_copy_begun, lemma_copy_complete, lemma_walk_begun,
    lemma_walk_done, lemma_walk_down, lemma_walk_leaf, lemma_walk_over, lemma_walk_up, stacked,
    walk_left, walking,
};
use crate::edit::{added, attached_last, lemma_added};
use crate::forest::{
    Forest, Links, Span, Spans, ancestors, by_next, children, descendants, forest_wf, is_orbit,
    lemma_ancestor_spans_self, lemma_ancestors_step, lemma_children, lemma_children_are,
    lemma_leaf, lemma_nexts_distinct, lemma_orbit_is, linked, nested, stepped,
};
use crate::node::{Node, NodeView};
use crate::order::{Branch, by_preorder, lemma_after_subtree};
use crate::removal::{lemma_removed_leaf, lemma_spliced, pruned, pruning, removed_leaf, spliced};
use crate::token::Token;

verus! {

broadcast use {
    Node::lemma_repr,
    Allocator::lemma_changed,
    Token::lemma_repr,
    vstd::std_specs::hash::group_hash_axioms,
};

/// A struct that provides the arena allocator. It may hold several trees
/// at a time: every node without a parent is the root of one.
#[derive(Clone)]
pub struct Arena<T> {
    pub(crate) allocator: Allocator<Node<T>>,
    pub(crate) spans: Ghost<Spans>,
}

impl<T> View for Arena<T> {
    type V = Map<Token, T>;

    /// The payload of every node.
    closed spec fn view(&self) -> Map<Token, T> {
        Map::new(
            |t: Token| self.allocator@.contains_key(t),
            |t: Token| self.allocator@[t].data,
        )
    }
}

impl<T> Arena<T> {
    /// The links of every node.
    pub closed spec fn links(&self) -> Forest {
        Map::new(
            |t: Token| self.allocator@.contains_key(t),
            |t: Token| self.allocator@[t].links,
        )
    }

    /// The intervals that witness that the links have no cycle.
    pub closed spec fn spans(&self) -> Spans {
        self.spans@
    }

    /// The free slots and the capacity of the pool.
    pub closed spec fn pool(&self) -> Slots {
        self.allocator.slots()
    }

    /// The pool is well formed.
    pub closed spec fn pool_wf(&self) -> bool {
        self.allocator.wf()
    }

    /// The number of nodes.
    pub closed spec fn spec_node_count(&self) -> nat {
        self.allocator.spec_len()
    }

    /// `t` addresses a node of the arena.
    pub open spec fn contains(&self, t: Token) -> bool {
        self.links().contains_key(t)
    }

    /// What the node at `t` holds.
    pub open spec fn node(&self, t: Token) -> NodeView<T> {
        NodeView { data: self@[t], links: self.links()[t] }
    }

    /// The pool is well formed and the links of the nodes form trees.
    pub open spec fn wf(&self) -> bool {
        self.pool_wf() && forest_wf(self.links(), self.spans())
    }

    /// There is room for one more node.
    pub open spec fn has_room(&self) -> bool {
        self.spec_node_count() < usize::MAX
    }

    /// The payloads and the links belong to the same nodes; in a well-formed
    /// pool these are as many as the count says, they lie within the
    /// capacity, and none of them is free.
    pub proof fn lemma_pool(&self)
        ensures
            self@.dom() == self.links().dom(),
            self.pool_wf() ==> {
                &&& self@.dom().finite()
                &&& self@.dom().len() == self.spec_node_count()
                &&& 1 <= self.pool().capacity <= usize::MAX
                &&& self.spec_node_count() + self.pool().free.len() == self.pool().capacity
                &&& self.pool().free.no_duplicates()
                &&& forall|t: Token| #[trigger] self.contains(t) ==> 1 <= t@ <= self.pool().capacity
                &&& forall|i: int|
                    0 <= i < self.pool().free.len() ==> !self.contains(#[trigger] self.pool().free[i])
                        && 1 <= self.pool().free[i]@ <= self.pool().capacity
            },
    {
        assert(self@.dom() =~= self.links().dom());
        assert(self@.dom() =~= self.allocator@.dom());
        if self.pool_wf() {
            self.allocator.lemma_wf();
        }
    }

    /// Initializes an arena with one tree, whose root holds the given data.
    pub fn with_data(data: T) -> (r: (Self, Token))
        ensures
            r.0.wf(),
            r.1 == Token::at(1),
            r.0.links() == added(Map::empty(), r.1),
            children(r.0.links(), r.1) == Seq::<Token>::empty(),
            ancestors(r.0.links(), r.1) == Seq::<Token>::empty(),
            r.0@ == Map::<Token, T>::empty().insert(r.1, data),
            r.0.spec_node_count() == 1,
            r.0.pool() == (Slots { free: Seq::empty(), capacity: 1 }),
    {
        let root_node = Node { data, links: Links::new(Token::default()) };
        let mut allocator = Allocator::new();
        let root_token = allocator.insert(root_node);
        let spans: Ghost<Spans> = Ghost(Map::empty().insert(root_token, Span { lo: 0, hi: 1 }));
        let arena = Arena { allocator, spans };
        proof {
            assert(arena@ =~= Map::<Token, T>::empty().insert(root_token, data));
            assert(arena.links() =~= added(Map::empty(), root_token));
            assert(arena.pool().free =~= Seq::empty());
            lemma_added(Map::empty(), Map::empty(), root_token);
            lemma_leaf(arena.links(), arena.spans(), root_token);
            lemma_ancestors_step(arena.links(), arena.spans(), root_token);
        }
        (arena, root_token)
    }

    /// Creates a new node that stands alone: the root of a tree of its own.
    pub fn new_node(&mut self, data: T) -> (token: Token)
        requires
            old(self).wf(),
            old(self).has_room(),
        ensures
            final(self).wf(),
            token == old(self).pool().next(),
            !old(self).contains(token),
            final(self).links() == added(old(self).links(), token),
            children(final(self).links(), token) == Seq::<Token>::empty(),
            ancestors(final(self).links(), token) == Seq::<Token>::empty(),
            forall|x: Token|
                old(self).contains(x) ==> #[trigger] children(final(self).links(), x) == children(
                    old(self).links(),
                    x,
                ),
            forall|x: Token|
                old(self).contains(x) ==> #[trigger] ancestors(final(self).links(), x)
                    == ancestors(old(self).links(), x),
            final(self)@ == old(self)@.insert(token, data),
            final(self).pool() == old(self).pool().taken(),
            final(self).spec_node_count() == old(self).spec_node_count() + 1,
    {
        let token = self.next_token();
        self.set(token, Node { data, links: Links::new(token) });
        self.relabel(Ghost(old(self).spans().insert(token, Span { lo: 0, hi: 1 })));
        proof {
            lemma_added(old(self).links(), old(self).spans(), token);
        }
        token
    }

    /// Invariant preservation: in a well-formed arena, and so after every
    /// operation on it, the links of every node fit those of its
    /// neighbours. The node names itself; its first child names it as its
    /// parent and has no sibling before it; the siblings next to it name it
    /// in turn and have its parent; its parent has it among its children,
    /// and no other node has; a node without a parent has no siblings; and
    /// no node is its own ancestor.
    pub proof fn lemma_invariants(&self, t: Token)
        requires
            self.wf(),
            self.contains(t),
        ensures
            ({
                let f = self.links();
                let l = f[t];
                &&& l.token == t
                &&& (l.first_child matches Some(c) ==> self.contains(c) && f[c].parent == Some(t)
                    && f[c].previous_sibling is None)
                &&& (l.next_sibling matches Some(n) ==> self.contains(n) && f[n].previous_sibling
                    == Some(t) && f[n].parent == l.parent)
                &&& (l.previous_sibling matches Some(q) ==> self.contains(q) && f[q].next_sibling
                    == Some(t) && f[q].parent == l.parent)
                &&& (l.parent matches Some(p) ==> self.contains(p))
                &&& (forall|p: Token|
                    self.contains(p) ==> (#[trigger] children(f, p).contains(t) <==> l.parent
                        == Some(p)))
                &&& (l.parent is None ==> l.previous_sibling is None && l.next_sibling is None)
                &&& !ancestors(f, t).contains(t)
            }),
    {
        let f = self.links();
        let sp = self.spans();
        assert(linked(f, t));
        match f[t].previous_sibling {
            Some(q) => {
                assert(linked(f, q));
            },
            None => {},
        }
        assert forall|p: Token| self.contains(p) implies (#[trigger] children(f, p).contains(t)
            <==> f[t].parent == Some(p)) by {
            lemma_children_are(f, sp, p);
        }
        lemma_ancestor_spans_self(f, sp, t);
    }

    /// Returns true if the arena is empty.
    pub fn is_empty(&self) -> (b: bool)
        ensures
            b == (self.spec_node_count() == 0),
    {
        self.allocator.is_empty()
    }

    /// Counts the number of nodes currently in the arena.
    pub fn node_count(&self) -> (n: usize)
        ensures
            n == self.spec_node_count(),
    {
        self.allocator.len()
    }

    /// Returns the number of nodes the arena can hold without reallocating.
    pub fn capacity(&self) -> (n: usize)
        ensures
            n == self.pool().capacity,
    {
        self.allocator.capacity()
    }

    /// Gets a reference to a node in the arena.
    pub fn get(&self, indx: Token) -> (r: Option<&Node<T>>)
        ensures
            self.contains(indx) ==> r is Some && r.unwrap()@ == self.node(indx),
            !self.contains(indx) ==> r is None,
    {
        self.allocator.get(indx)
    }

    /// This arena is `before` with `node` at the token `t`, which addressed
    /// a node before, and nothing else is different.
    pub closed spec fn altered(&self, before: Self, t: Token, node: Node<T>) -> bool {
        self.allocator.changed(before.allocator, t, node) && self.spans == before.spans
    }

    /// An arena that is altered at one node has the payload and the links
    /// of the new node there and is otherwise as before. It is well formed
    /// if the links at the node are those the node had.
    pub broadcast proof fn lemma_altered(&self, before: Self, t: Token, node: Node<T>)
        requires
            before.pool_wf(),
            #[trigger] self.altered(before, t, node),
        ensures
            before.contains(t),
            self.pool_wf(),
            self.pool() == before.pool(),
            self.spans() == before.spans(),
            self.spec_node_count() == before.spec_node_count(),
            self@ == before@.insert(t, node@.data),
            self.links() == before.links().insert(t, node@.links),
            before.wf() && node@.links == before.links()[t] ==> self.wf(),
    {
        self.allocator.lemma_changed(before.allocator, t, node);
        assert(self@ =~= before@.insert(t, node@.data));
        assert(self.links() =~= before.links().insert(t, node@.links));
        if node@.links == before.links()[t] {
            assert(self.links() =~= before.links());
        }
    }

    /// Gets a mutable reference to a node in the arena.
    pub fn get_mut(&mut self, indx: Token) -> (r: Option<&mut Node<T>>)
        ensures
            old(self).contains(indx) ==> r is Some && r.unwrap()@ == old(self).node(indx)
                && final(self).altered(*old(self), indx, *final(r.unwrap())),
            !old(self).contains(indx) ==> r is None && *final(self) == *old(self),
    {
        self.allocator.get_mut(indx)
    }

    /// Overwrites node with given data and removes all its descendants.
    /// The node stays where it is in its tree.
    pub fn overwrite(&mut self, indx: Token, data: T)
        requires
            old(self).wf(),
            old(self).contains(indx),
        ensures
            final(self).wf(),
            final(self).links() == pruned(old(self).links(), indx),
            final(self)@ == old(self)@.remove_keys(descendants(old(self).links(), indx)).insert(
                indx,
                data,
            ),
            descendants(old(self).links(), indx).finite(),
            final(self).spec_node_count() == old(self).spec_node_count() - descendants(
                old(self).links(),
                indx,
            ).len(),
            children(final(self).links(), indx) == Seq::<Token>::empty(),
            final(self).pool() == old(self).pool().given_all(
                pruning(old(self).links(), old(self).spans(), indx),
            ),
    {
        indx.remove_descendants(self);
        let ghost before = *self;
        match self.get_mut(indx) {
            Some(node) => {
                node.data = data;
            },
            None => {},
        }
        proof {
            self.lemma_altered(before, indx, Node { data, links: before.links()[indx] });
            assert(self.links() =~= before.links());
        }
    }

    /// Removes the given node from the arena and returns the tokens of its
    /// children, which take the place of the node among its siblings, in
    /// their order. The children of a node without a parent become the
    /// roots of trees of their own. Use [`Arena::uproot`] to remove the
    /// descendants along with the node.
    pub fn remove(&mut self, token: Token) -> (removed: Vec<Token>)
        requires
            old(self).wf(),
            old(self).contains(token),
        ensures
            final(self).wf(),
            removed@ == children(old(self).links(), token),
            final(self).links() == spliced(old(self).links(), token),
            final(self)@ == old(self)@.remove(token),
            final(self).pool() == old(self).pool().given(token),
            final(self).spec_node_count() == old(self).spec_node_count() - 1,
    {
        let l = self.links_of(token);
        let ghost f0 = self.links();
        let ghost sp = self.spans();
        let ghost cs = children(f0, token);
        proof {
            lemma_children(f0, sp, token);
            lemma_children_are(f0, sp, token);
            lemma_spliced(f0, sp, token);
            assert(linked(f0, token));
            assert(nested(f0, sp, token));
            assert(cs.take(0) =~= Seq::<Token>::empty());
        }
        let mut removed: Vec<Token> = Vec::new();
        let mut cur = l.first_child;
        let mut last: Option<Token> = None;
        let ghost mut i: int = 0;
        while cur.is_some()
            invariant
                self.pool_wf(),
                self.pool() == old(self).pool(),
                self.spans() == sp,
                self.spec_node_count() == old(self).spec_node_count(),
                self@ == old(self)@,
                f0 == old(self).links(),
                forest_wf(f0, sp),
                f0.contains_key(token),
                l == f0[token],
                cs == children(f0, token),
                is_orbit(by_next(f0), f0[token].first_child, cs),
                forall|k: int|
                    0 <= k < cs.len() ==> f0.contains_key(#[trigger] cs[k]) && f0[cs[k]].parent
                        == Some(token),
                0 <= i <= cs.len(),
                cur == (if i < cs.len() {
                    Some(cs[i])
                } else {
                    None
                }),
                last == (if i > 0 {
                    Some(cs[i - 1])
                } else {
                    None
                }),
                removed@ == cs.take(i),
                self.links().dom() == f0.dom(),
                forall|u: Token|
                    f0.contains_key(u) ==> #[trigger] self.links()[u] == (if cs.take(i).contains(u) {
                        if l.parent is Some {
                            f0[u].with_parent(l.parent)
                        } else {
                            f0[u].freed()
                        }
                    } else {
                        f0[u]
                    }),
            decreases cs.len() - i,
        {
            let child = cur.unwrap();
            proof {
                assert(stepped(by_next(f0), cs, i));
                assert(cs.take(i).push(child) =~= cs.take(i + 1));
                assert(!cs.take(i).contains(child)) by {
                    let done = cs.take(i);
                    if done.contains(child) {
                        let j = choose|j: int| 0 <= j < done.len() && done[j] == child;
                        lemma_nexts_distinct(f0, sp, f0[token].first_child, j, i);
                    }
                }
            }
            let lc = self.links_of(child);
            removed.push(child);
            let ghost before = self.links();
            match l.parent {
                Some(_) => {
                    self.set_links(child, Links { parent: l.parent, ..lc });
                },
                None => {
                    self.set_links(
                        child,
                        Links { parent: None, previous_sibling: None, next_sibling: None, ..lc },
                    );
                },
            }
            last = cur;
            cur = lc.next_sibling;
            proof {
                assert forall|u: Token| f0.contains_key(u) implies #[trigger] self.links()[u] == (if cs.take(
                    i + 1,
                ).contains(u) {
                    if l.parent is Some {
                        f0[u].with_parent(l.parent)
                    } else {
                        f0[u].freed()
                    }
                } else {
                    f0[u]
                }) by {
                    assert(self.links()[u] == if u == child {
                        self.links()[child]
                    } else {
                        before[u]
                    });
                    let done = cs.take(i);
                    let more = cs.take(i + 1);
                    if more.contains(u) {
                        let j = choose|j: int| 0 <= j < more.len() && more[j] == u;
                        if j < i {
                            assert(done[j] == u);
                        }
                    }
                    if done.contains(u) {
                        let j = choose|j: int| 0 <= j < done.len() && done[j] == u;
                        assert(more[j] == u);
                    }
                    assert(more[i] == child);
                }
                i = i + 1;
            }
        }
        proof {
            assert(cs.take(i) =~= cs);
        }
        if l.parent.is_some() {
            match (l.first_child, last) {
                (Some(first), Some(last_child)) => {
                    let lf = self.links_of(first);
                    self.set_links(first, Links { previous_sibling: l.previous_sibling, ..lf });
                    let ll = self.links_of(last_child);
                    self.set_links(last_child, Links { next_sibling: l.next_sibling, ..ll });
                    match l.previous_sibling {
                        Some(sibling) => {
                            let lq = self.links_of(sibling);
                            self.set_links(sibling, Links { next_sibling: Some(first), ..lq });
                        },
                        None => match l.parent {
                            Some(p) => {
                                let lp = self.links_of(p);
                                self.set_links(p, Links { first_child: Some(first), ..lp });
                            },
                            None => {},
                        },
                    }
                    match l.next_sibling {
                        Some(sibling) => {
                            let ln = self.links_of(sibling);
                            self.set_links(
                                sibling,
                                Links { previous_sibling: Some(last_child), ..ln },
                            );
                        },
                        None => {},
                    }
                },
                _ => {
                    match l.previous_sibling {
                        Some(sibling) => {
                            let lq = self.links_of(sibling);
                            self.set_links(sibling, Links { next_sibling: l.next_sibling, ..lq });
                        },
                        None => match l.parent {
                            Some(p) => {
                                let lp = self.links_of(p);
                                self.set_links(p, Links { first_child: l.next_sibling, ..lp });
                            },
                            None => {},
                        },
                    }
                    match l.next_sibling {
                        Some(sibling) => {
                            let ln = self.links_of(sibling);
                            self.set_links(
                                sibling,
                                Links { previous_sibling: l.previous_sibling, ..ln },
                            );
                        },
                        None => {},
                    }
                },
            }
        }
        let _ = self.release(token);
        proof {
            let g = spliced(f0, token);
            match l.parent {
                Some(p) => {
                    assert(linked(f0, p));
                    assert(nested(f0, sp, p));
                },
                None => {},
            }
            match l.previous_sibling {
                Some(q) => {
                    assert(linked(f0, q));
                    assert(nested(f0, sp, q));
                },
                None => {},
            }
            match l.next_sibling {
                Some(n) => {
                    assert(linked(f0, n));
                    assert(nested(f0, sp, n));
                },
                None => {},
            }
            match l.first_child {
                Some(c) => {
                    assert(cs[0] == c);
                    assert(linked(f0, c));
                    assert(nested(f0, sp, c));
                },
                None => {},
            }
            if cs.len() > 0 {
                assert(stepped(by_next(f0), cs, cs.len() - 1));
                assert(linked(f0, cs.last()));
                assert(nested(f0, sp, cs.last()));
            }
            assert forall|u: Token| g.contains_key(u) implies self.links()[u] == g[u] by {
                assert(linked(f0, u));
                if f0[u].parent == Some(token) {
                    assert(cs.contains(u));
                    let j = choose|j: int| 0 <= j < cs.len() && cs[j] == u;
                    assert(stepped(by_next(f0), cs, j));
                    if j > 0 {
                        assert(stepped(by_next(f0), cs, j - 1));
                        assert(linked(f0, cs[j - 1]));
                    }
                } else {
                    assert(!cs.contains(u));
                }
            }
            assert(self.links() =~= g);
        }
        removed
    }

    /// Removes the given node along with all its descendants. The
    /// descendants are freed first, in post-order, and the node last; its
    /// former neighbours are linked to each other.
    pub fn uproot(&mut self, token: Token)
        requires
            old(self).wf(),
            old(self).contains(token),
        ensures
            final(self).wf(),
            final(self).links() == removed_leaf(pruned(old(self).links(), token), token),
            final(self)@ == old(self)@.remove_keys(
                descendants(old(self).links(), token).insert(token),
            ),
            descendants(old(self).links(), token).finite(),
            final(self).spec_node_count() == old(self).spec_node_count() - descendants(
                old(self).links(),
                token,
            ).len() - 1,
            final(self).pool().capacity == old(self).pool().capacity,
            final(self).pool() == old(self).pool().given_all(
                pruning(old(self).links(), old(self).spans(), token),
            ).given(token),
    {
        token.remove_descendants(self);
        proof {
            lemma_removed_leaf(self.links(), self.spans(), token);
        }
        token.detach(self);
        let _ = self.release(token);
        proof {
            assert(final(self)@ =~= old(self)@.remove_keys(
                descendants(old(self).links(), token).insert(token),
            ));
        }
    }

    /// The links of the node at `t`.
    pub(crate) fn links_of(&self, t: Token) -> (l: Links)
        requires
            self.contains(t),
        ensures
            l == self.links()[t],
    {
        match self.allocator.get(t) {
            Some(node) => node.links,
            None => vstd::pervasive::unreached(),
        }
    }

    /// Gives the node at `t` the links `l`.
    pub(crate) fn set_links(&mut self, t: Token, l: Links)
        requires
            old(self).pool_wf(),
            old(self).contains(t),
        ensures
            final(self).pool_wf(),
            final(self).pool() == old(self).pool(),
            final(self).spans() == old(self).spans(),
            final(self).spec_node_count() == old(self).spec_node_count(),
            final(self)@ == old(self)@,
            final(self).links() == old(self).links().insert(t, l),
    {
        match self.allocator.get_mut(t) {
            Some(node) => {
                node.links = l;
            },
            None => {},
        }
        proof {
            assert(final(self)@ =~= old(self)@);
            assert(final(self).links() =~= old(self).links().insert(t, l));
        }
    }

    /// The token that the next new node will have. The pool grows if it has
    /// no free slot.
    pub(crate) fn next_token(&mut self) -> (token: Token)
        requires
            old(self).pool_wf(),
            old(self).has_room(),
        ensures
            final(self).pool_wf(),
            final(self).pool() == old(self).pool().ready(),
            final(self).pool().free.len() > 0,
            final(self).pool().taken() == old(self).pool().taken(),
            token == old(self).pool().next(),
            !old(self).contains(token),
            final(self).spans() == old(self).spans(),
            final(self).spec_node_count() == old(self).spec_node_count(),
            final(self)@ == old(self)@,
            final(self).links() == old(self).links(),
    {
        proof {
            self.lemma_pool();
        }
        let token = self.allocator.head();
        proof {
            self.lemma_pool();
            assert(self.pool().free[0] == token);
            assert(final(self)@ =~= old(self)@);
            assert(final(self).links() =~= old(self).links());
        }
        token
    }

    /// Sets a node. Where `indx` addresses a node, the payload of `node`
    /// takes the place of the payload there and the descendants of the
    /// node are removed; the node keeps its place in its tree. Where `indx`
    /// addresses no node it is to be the token that `next_token` gave, and
    /// `node` is put there as it is.
    pub(crate) fn set(&mut self, indx: Token, node: Node<T>)
        requires
            old(self).pool_wf(),
            old(self).contains(indx) ==> old(self).wf(),
            !old(self).contains(indx) ==> old(self).has_room() && old(self).pool().free.len() > 0
                && indx == old(self).pool().free[0],
        ensures
            final(self).pool_wf(),
            old(self).contains(indx) ==> {
                &&& final(self).wf()
                &&& final(self).links() == pruned(old(self).links(), indx)
                &&& final(self)@ == old(self)@.remove_keys(
                    descendants(old(self).links(), indx),
                ).insert(indx, node@.data)
                &&& final(self).pool() == old(self).pool().given_all(
                    pruning(old(self).links(), old(self).spans(), indx),
                )
            },
            !old(self).contains(indx) ==> {
                &&& final(self).pool() == old(self).pool().taken()
                &&& final(self).spans() == old(self).spans()
                &&& final(self).spec_node_count() == old(self).spec_node_count() + 1
                &&& final(self)@ == old(self)@.insert(indx, node@.data)
                &&& final(self).links() == old(self).links().insert(indx, node@.links)
            },
    {
        proof {
            self.lemma_pool();
        }
        if self.allocator.is_valid_token(indx) {
            self.overwrite(indx, node.data);
        } else {
            self.allocator.set(indx, node);
            proof {
                assert(final(self)@ =~= old(self)@.insert(indx, node@.data));
                assert(final(self).links() =~= old(self).links().insert(indx, node@.links));
            }
        }
    }

    /// Takes the node at `token` out of the arena.
    pub(crate) fn release(&mut self, token: Token) -> (node: Node<T>)
        requires
            old(self).pool_wf(),
            old(self).contains(token),
        ensures
            node@ == old(self).node(token),
            final(self).pool_wf(),
            final(self).pool() == old(self).pool().given(token),
            final(self).spans() == old(self).spans(),
            final(self).spec_node_count() == old(self).spec_node_count() - 1,
            final(self)@ == old(self)@.remove(token),
            final(self).links() == old(self).links().remove(token),
    {
        let out = self.allocator.remove(token);
        proof {
            assert(final(self)@ =~= old(self)@.remove(token));
            assert(final(self).links() =~= old(self).links().remove(token));
        }
        match out {
            Some(node) => node,
            None => vstd::pervasive::unreached(),
        }
    }

    /// Replaces the intervals.
    pub(crate) fn relabel(&mut self, Ghost(sp): Ghost<Spans>)
        ensures
            final(self).pool_wf() == old(self).pool_wf(),
            final(self).pool() == old(self).pool(),
            final(self).spans() == sp,
            final(self).spec_node_count() == old(self).spec_node_count(),
            final(self)@ == old(self)@,
            final(self).links() == old(self).links(),
    {
        self.spans = Ghost(sp);
    }
}

impl<T: Clone> Arena<T> {
    /// This arena holds a copy of a subtree of `other`: `c` says how each
    /// node of the subtree has been copied, all of them have been, and
    /// every copy holds a clone of the payload of its node.
    pub open spec fn holds_copy(&self, c: Copying, other: Self) -> bool {
        &&& c.src == other.links()
        &&& c.dst == self.links()
        &&& c.inv()
        &&& c.complete()
        &&& c.to.dom() == descendants(c.src, c.top).insert(c.top)
        &&& forall|x: Token| #[trigger]
            c.to.contains_key(x) ==> self@.contains_key(c.to[x]) && cloned(other@[x], self@[c.to[x]])
    }

    /// This arena holds nothing but a copy of the subtree of `token` in
    /// `other`, and the copy of `token` is `root`. The copies were made in
    /// the pre-order of the subtree, each at the token that was handed out
    /// next.
    pub open spec fn is_copy_of(&self, root: Token, other: Self, token: Token) -> bool {
        exists|c: Copying|
            {
                &&& c.top == token
                &&& c.to[token] == root
                &&& c.start == added(Map::empty(), root)
                &&& in_preorder(c, root, Slots { free: Seq::empty(), capacity: 1 })
                &&& #[trigger] self.holds_copy(c, other)
            }
    }

    /// This arena is `before` with a copy of the subtree of `token` in
    /// `other` put below `host` as its last child. The copies were made in
    /// the pre-order of the subtree, each at the token that was handed out
    /// next.
    pub open spec fn has_copy_below(
        &self,
        before: Self,
        host: Token,
        other: Self,
        token: Token,
    ) -> bool {
        exists|c: Copying|
            {
                &&& c.top == token
                &&& c.to[token] == before.pool().next()
                &&& c.start == attached_last(
                    added(before.links(), c.to[token]),
                    host,
                    c.to[token],
                )
                &&& in_preorder(c, before.pool().next(), before.pool().taken())
                &&& #[trigger] self.holds_copy(c, other)
            }
    }

    /// Copies the payload of the node `token` of `other_tree` into a new
    /// node, the last child of `new_parent`.
    fn copy_node(&mut self, other_tree: &Arena<T>, token: Token, new_parent: Token) -> (new_token:
        Token)
        requires
            old(self).wf(),
            old(self).contains(new_parent),
            old(self).has_room(),
            other_tree.contains(token),
        ensures
            final(self).wf(),
            new_token == old(self).pool().next(),
            !old(self).contains(new_token),
            final(self).links() == attached_last(
                added(old(self).links(), new_token),
                new_parent,
                new_token,
            ),
            cloned(other_tree@[token], final(self)@[new_token]),
            final(self)@ == old(self)@.insert(new_token, final(self)@[new_token]),
            final(self).pool() == old(self).pool().taken(),
            final(self).spec_node_count() == old(self).spec_node_count() + 1,
    {
        let data = match other_tree.get(token) {
            Some(node) => node.data.clone(),
            None => vstd::pervasive::unreached(),
        };
        new_parent.append(self, data)
    }

    /// Copies the descendants of the node `other_token` of `other_tree`,
    /// whose own copy is the leaf `new_root` of this arena, below that
    /// leaf. It does so by walking the subtree in pre-order, with a stack
    /// of the nodes on the way down and a table from the nodes of the
    /// subtree to their copies, and copying node by node.
    fn copy_descendants(&mut self, other_tree: &Arena<T>, other_token: Token, new_root: Token) -> (c:
        Ghost<Copying>)
        requires
            old(self).wf(),
            old(self).contains(new_root),
            old(self).links()[new_root].first_child is None,
            cloned(other_tree@[other_token], old(self)@[new_root]),
            other_tree.wf(),
            other_tree.contains(other_token),
            old(self).spec_node_count() + other_tree.spec_node_count() - 1 <= usize::MAX,
        ensures
            final(self).wf(),
            c@.top == other_token,
            c@.start == old(self).links(),
            c@.to[other_token] == new_root,
            final(self).holds_copy(c@, *other_tree),
            in_preorder(c@, new_root, old(self).pool()),
            forall|u: Token| #[trigger]
                old(self)@.contains_key(u) ==> final(self)@.contains_key(u) && final(self)@[u]
                    == old(self)@[u],
            descendants(other_tree.links(), other_token).finite(),
            final(self).spec_node_count() == old(self).spec_node_count() + descendants(
                other_tree.links(),
                other_token,
            ).len(),
            final(self).pool() == old(self).pool().taken_n(
                descendants(other_tree.links(), other_token).len(),
            ),
    {
        let ghost a0 = *self;
        let ghost src = other_tree.links();
        let ghost ssp = other_tree.spans();
        let mut index_map: HashMap<usize, Token> = HashMap::new();
        index_map.insert(other_token.slot(), new_root);

        let mut stack: Vec<Token> = Vec::new();
        stack.push(other_token);
        let mut branch = Branch::Child;
        let ghost mut c = Copying::begun(src, other_token, a0.links(), new_root);
        let ghost mut done: Seq<Token> = seq![other_token];
        let ghost pre = by_preorder(src, other_token);
        proof {
            other_tree.lemma_pool();
            self.lemma_pool();
            assert(linked(a0.links(), new_root));
            lemma_copy_begun(src, ssp, other_token, a0.links(), new_root);
            lemma_walk_begun(c, ssp);
            assert(stack@ =~= seq![other_token]);
            assert(c.to.dom() =~= Set::<Token>::empty().insert(other_token));
        }
        loop
            invariant_except_break
                walking(c, ssp, stack@, branch),
                branch is Child ==> done.last() == stack@.last(),
                branch is Sibling ==> pre(done.last()) == after_in(src, other_token, stack@.last()),
            invariant
                pre == by_preorder(src, other_token),
                done.len() == c.to.dom().len(),
                done[0] == other_token,
                forall|i: int|
                    0 <= i < done.len() ==> c.to.contains_key(#[trigger] done[i]) && c.to[done[i]]
                        == (if i == 0 {
                        new_root
                    } else {
                        a0.pool().taken_n((i - 1) as nat).next()
                    }),
                forall|i: int| 0 <= i < done.len() - 1 ==> pre(#[trigger] done[i]) == Some(done[i + 1]),
                self.wf(),
                other_tree.wf(),
                src == other_tree.links(),
                ssp == other_tree.spans(),
                a0.spec_node_count() + other_tree.spec_node_count() - 1 <= usize::MAX,
                c.src == src,
                c.top == other_token,
                c.start == a0.links(),
                c.to[other_token] == new_root,
                c.dst == self.links(),
                c.inv(),
                forall|x: Token|
                    #![trigger c.to.contains_key(x)]
                    c.to.contains_key(x) == index_map@.contains_key(x.index) && (c.to.contains_key(
                        x,
                    ) ==> c.to[x] == index_map@[x.index]),
                c.to.dom().finite(),
                c.to.dom().len() >= 1,
                self.spec_node_count() == a0.spec_node_count() + c.to.dom().len() - 1,
                self.pool() == a0.pool().taken_n((c.to.dom().len() - 1) as nat),
                forall|x: Token| #[trigger]
                    c.to.contains_key(x) ==> self@.contains_key(c.to[x]) && cloned(
                        other_tree@[x],
                        self@[c.to[x]],
                    ),
                forall|u: Token| #[trigger]
                    a0@.contains_key(u) ==> self@.contains_key(u) && self@[u] == a0@[u],
            ensures
                c.complete(),
                pre(done.last()) is None,
            decreases walk_left(ssp, stack@, branch),
        {
            let token = stack[stack.len() - 1];
            let ghost before = *self;
            let ghost full = stack@;
            let ghost c0 = c;
            proof {
                assert(stacked(c, full, full.len() - 1));
                assert(c.copied(token));
                assert(linked(src, token));
                lemma_after_subtree(src, ssp, other_token, token);
                other_tree.lemma_pool();
                self.lemma_pool();
                assert forall|t: Token| c.to.contains_key(t) implies other_tree@.dom().contains(
                    t,
                ) by {
                    assert(c.copied(t));
                }
            }
            let node = other_tree.links_of(token);
            match branch {
                Branch::End => {
                    break ;
                },
                Branch::Child => match node.first_child {
                    None => {
                        proof {
                            lemma_walk_leaf(c, ssp, full);
                        }
                        branch = Branch::Sibling;
                    },
                    Some(child) => {
                        let new_parent = match index_map.get(&token.slot()) {
                            Some(t) => *t,
                            None => vstd::pervasive::unreached(),
                        };
                        proof {
                            vstd::set_lib::lemma_len_subset(
                                c.to.dom().insert(child),
                                other_tree@.dom(),
                            );
                        }
                        let new_child_token = self.copy_node(other_tree, child, new_parent);
                        index_map.insert(child.slot(), new_child_token);
                        stack.push(child);
                        proof {
                            lemma_walk_down(c0, before.spans(), ssp, full, new_child_token);
                            a0.pool().lemma_taken_n_more((c0.to.dom().len() - 1) as nat);
                            c = c0.grown(child, new_child_token);
                            done = done.push(child);
                            self.lemma_pool();
                            assert forall|x: Token| #[trigger]
                                c.to.contains_key(x) implies self@.contains_key(c.to[x]) && cloned(
                                other_tree@[x],
                                self@[c.to[x]],
                            ) by {
                                if x != child {
                                    assert(c0.copied(x));
                                }
                            }
                        }
                    },
                },
                Branch::Sibling => {
                    stack.pop();
                    proof {
                        assert(stack@ =~= full.drop_last());
                    }
                    if token == other_token {
                        proof {
                            lemma_walk_done(c, ssp, full);
                        }
                        break ;
                    }
                    match node.next_sibling {
                        None => {
                            proof {
                                lemma_walk_up(c, ssp, full);
                            }
                        },
                        Some(sibling) => {
                            proof {
                                assert(linked(src, sibling));
                                assert(stacked(c, full, full.len() - 2));
                                vstd::set_lib::lemma_len_subset(
                                    c.to.dom().insert(sibling),
                                    other_tree@.dom(),
                                );
                            }
                            let parent = match node.parent {
                                Some(parent) => parent,
                                None => vstd::pervasive::unreached(),
                            };
                            proof {
                                assert(c.copied(parent));
                            }
                            let new_parent = match index_map.get(&parent.slot()) {
                                Some(t) => *t,
                                None => vstd::pervasive::unreached(),
                            };
                            let new_sibling_token = self.copy_node(other_tree, sibling, new_parent);
                            index_map.insert(sibling.slot(), new_sibling_token);
                            stack.push(sibling);
                            branch = Branch::Child;
                            proof {
                                lemma_walk_over(c0, before.spans(), ssp, full, new_sibling_token);
                                a0.pool().lemma_taken_n_more((c0.to.dom().len() - 1) as nat);
                                c = c0.grown(sibling, new_sibling_token);
                                done = done.push(sibling);
                                self.lemma_pool();
                                assert forall|x: Token| #[trigger]
                                    c.to.contains_key(x) implies self@.contains_key(c.to[x])
                                    && cloned(other_tree@[x], self@[c.to[x]]) by {
                                    if x != sibling {
                                        assert(c0.copied(x));
                                    }
                                }
                            }
                        },
                    }
                },
            }
        }
        proof {
            lemma_copy_complete(c, ssp);
            lemma_ancestor_spans_self(src, ssp, other_token);
            assert(descendants(src, other_token) =~= c.to.dom().remove(other_token));
            assert(self.holds_copy(c, *other_tree));
            assert forall|i: int| 0 <= i < done.len() implies #[trigger] stepped(pre, done, i) by {}
            lemma_orbit_is(pre, Some(other_token), done);
        }
        Ghost(c)
    }

    /// Copies a subtree from one arena and appends it to the given node of
    /// another, as its last child. It does so by walking the subtree and
    /// copying node by node to the target arena.
    pub fn copy_and_append_subtree(
        &mut self,
        self_token: Token,
        other_tree: &Arena<T>,
        other_token: Token,
    )
        requires
            old(self).wf(),
            old(self).contains(self_token),
            other_tree.wf(),
            other_tree.contains(other_token),
            old(self).spec_node_count() + other_tree.spec_node_count() <= usize::MAX,
        ensures
            final(self).wf(),
            final(self).has_copy_below(*old(self), self_token, *other_tree, other_token),
            forall|u: Token| #[trigger]
                old(self)@.contains_key(u) ==> final(self)@.contains_key(u) && final(self)@[u]
                    == old(self)@[u],
            descendants(other_tree.links(), other_token).finite(),
            final(self).spec_node_count() == old(self).spec_node_count() + descendants(
                other_tree.links(),
                other_token,
            ).len() + 1,
            final(self).pool() == old(self).pool().taken_n(
                descendants(other_tree.links(), other_token).len() + 1,
            ),
    {
        proof {
            other_tree.lemma_pool();
            if other_tree@.dom().len() == 0 {
                assert(other_tree@.dom().contains(other_token));
                assert(other_tree@.dom() =~= Set::<Token>::empty());
            }
        }
        let new_subtree_root = self.copy_node(other_tree, other_token, self_token);
        let ghost mid = *self;
        let c = self.copy_descendants(other_tree, other_token, new_subtree_root);
        proof {
            assert(final(self).holds_copy(c@, *other_tree));
            let n = descendants(other_tree.links(), other_token).len();
            old(self).pool().taken().lemma_taken_n(0);
            lemma_taken_after(old(self).pool(), n);
            old(self).lemma_pool();
            mid.lemma_pool();
            let after = *final(self);
            assert forall|u: Token| #[trigger] old(self)@.contains_key(u) implies after@.contains_key(
                u,
            ) && after@[u] == old(self)@[u] by {
                assert(mid@.contains_key(u));
            }
            assert(in_preorder(c@, old(self).pool().next(), old(self).pool().taken()));
        }
    }

    /// Moves the subtree with the root at the given node into an arena of
    /// its own: the subtree is copied into a new arena, node by node in
    /// pre-order, and then removed from this one. Returns the new arena
    /// and the token that the root of the subtree has there.
    pub fn split_at(&mut self, token: Token) -> (r: (Self, Token))
        requires
            old(self).wf(),
            old(self).contains(token),
        ensures
            r.0.wf(),
            r.1 == Token::at(1),
            r.0.is_copy_of(r.1, *old(self), token),
            descendants(old(self).links(), token).finite(),
            r.0.spec_node_count() == descendants(old(self).links(), token).len() + 1,
            final(self).wf(),
            final(self).links() == removed_leaf(pruned(old(self).links(), token), token),
            final(self)@ == old(self)@.remove_keys(
                descendants(old(self).links(), token).insert(token),
            ),
            final(self).spec_node_count() == old(self).spec_node_count() - descendants(
                old(self).links(),
                token,
            ).len() - 1,
            final(self).pool() == old(self).pool().given_all(
                pruning(old(self).links(), old(self).spans(), token),
            ).given(token),
    {
        let root_data = match self.get(token) {
            Some(node) => node.data.clone(),
            None => vstd::pervasive::unreached(),
        };
        let (mut arena, root) = Arena::with_data(root_data);
        proof {
            self.lemma_pool();
            if self@.dom().len() == 0 {
                assert(self@.dom().contains(token));
                assert(self@.dom() =~= Set::<Token>::empty());
            }
        }
        let c = arena.copy_descendants(self, token, root);
        self.uproot(token);
        (arena, root)
    }
}

impl<T> core::ops::Index<Token> for Arena<T> {
    type Output = Node<T>;

    /// The node at `index`, which must address a node of the arena.
    fn index(&self, index: Token) -> (node: &Node<T>)
        ensures
            node@ == self.node(index),
    {
        match self.get(index) {
            Some(node) => node,
            None => vstd::pervasive::unreached(),
        }
    }
}

impl<T> vstd::std_specs::core::IndexSpecImpl<Token> for Arena<T> {
    /// The index must address a node of the arena.
    open spec fn index_req(&self, index: &Token) -> bool {
        self.contains(*index)
    }
}

impl<T> Default for Arena<T> {
    /// An arena without nodes.
    fn default() -> (arena: Self)
        ensures
            arena.wf(),
            arena.links() == Map::<Token, Links>::empty(),
            arena@ == Map::<Token, T>::empty(),
            arena.spec_node_count() == 0,
            arena.pool() == (Slots { free: seq![Token::at(1)], capacity: 1 }),
    {
        let spans: Ghost<Spans> = Ghost(Map::empty());
        let arena = Arena { allocator: Allocator::new(), spans };
        proof {
            assert(arena@ =~= Map::<Token, T>::empty());
            assert(arena.links() =~= Map::<Token, Links>::empty());
        }
        arena
    }
}

} // verus!
