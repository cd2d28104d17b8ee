//! Nodes: a payload together with its structural links.
use vstd::prelude::*;
use crate::arena::Arena;
use crate::forest::{Links, ancestors, children, following_siblings, preceding_siblings};
use crate::iter::{
    AncestorTokens, Ancestors, Children, ChildrenTokens, FollowingSiblingTokens,
    FollowingSiblings, PrecedingSiblingTokens, PrecedingSiblings, Subtree, SubtreeTokens,
};
use crate::order::{TraversalOrder, TraversalState};
use crate::token::Token;

verus! {

/// What a node holds: its payload and its links.
pub struct NodeView<T> {
    pub data: T,
    pub links: Links,
}

/// A node holds data in the arena. A `Node<T>` is reached through its
/// [`Token`], with the `get` and `get_mut` methods of the arena or through
/// the iterators.
#[derive(Clone, Debug)]
pub struct Node<T> {
    /// The payload.
    pub data: T,
    pub(crate) links: Links,
}

impl<T> View for Node<T> {
    type V = NodeView<T>;

    /// The payload and the links.
    closed spec fn view(&self) -> NodeView<T> {
        NodeView { data: self.data, links: self.links }
    }
}

impl<T> Node<T> {
    /// Within the crate a node's view is made of its two fields.
    pub(crate) broadcast proof fn lemma_repr(&self)
        ensures
            #[trigger] self@ == (NodeView { data: self.data, links: self.links }),
    {
    }

    /// Returns the token of the given node.
    pub fn token(&self) -> (token: Token)
        ensures
            token == self@.links.token,
    {
        self.links.token
    }

    /// Whether the node is a leaf.
    pub fn is_leaf(&self) -> (leaf: bool)
        ensures
            leaf == (self@.links.first_child is None),
    {
        self.links.first_child.is_none()
    }

    /// Returns an iterator of tokens of ancestor nodes, the parent first.
    pub fn ancestors_tokens<'a>(&self, arena: &'a Arena<T>) -> (it: AncestorTokens<'a, T>)
        requires
            arena.wf(),
            arena.contains(self@.links.token),
        ensures
            it.wf(),
            it.arena() == *arena,
            it.peek() == arena.links()[self@.links.token].parent,
            it.remaining() == ancestors(arena.links(), self@.links.token),
    {
        self.links.token.ancestors_tokens(arena)
    }

    /// Returns an iterator of tokens of siblings preceding the current
    /// node, the nearest first.
    pub fn preceding_siblings_tokens<'a>(&self, arena: &'a Arena<T>) -> (it: PrecedingSiblingTokens<
        'a,
        T,
    >)
        requires
            arena.wf(),
            arena.contains(self@.links.token),
        ensures
            it.wf(),
            it.arena() == *arena,
            it.peek() == arena.links()[self@.links.token].previous_sibling,
            it.remaining() == preceding_siblings(arena.links(), self@.links.token),
    {
        self.links.token.preceding_siblings_tokens(arena)
    }

    /// Returns an iterator of tokens of siblings following the current
    /// node, the nearest first.
    pub fn following_siblings_tokens<'a>(&self, arena: &'a Arena<T>) -> (it: FollowingSiblingTokens<
        'a,
        T,
    >)
        requires
            arena.wf(),
            arena.contains(self@.links.token),
        ensures
            it.wf(),
            it.arena() == *arena,
            it.peek() == arena.links()[self@.links.token].next_sibling,
            it.remaining() == following_siblings(arena.links(), self@.links.token),
    {
        self.links.token.following_siblings_tokens(arena)
    }

    /// Returns an iterator of tokens of child nodes in the order of insertion.
    pub fn children_tokens<'a>(&self, arena: &'a Arena<T>) -> (it: ChildrenTokens<'a, T>)
        requires
            arena.wf(),
            arena.contains(self@.links.token),
        ensures
            it.wf(),
            it.arena() == *arena,
            it.peek() == arena.links()[self@.links.token].first_child,
            it.remaining() == children(arena.links(), self@.links.token),
    {
        self.links.token.children_tokens(arena)
    }

    /// Returns an iterator of references of ancestor nodes, the parent first.
    pub fn ancestors<'a>(&self, arena: &'a Arena<T>) -> (it: Ancestors<'a, T>)
        requires
            arena.wf(),
            arena.contains(self@.links.token),
        ensures
            it.tokens().wf(),
            it.tokens().arena() == *arena,
            it.tokens().remaining() == ancestors(arena.links(), self@.links.token),
    {
        self.links.token.ancestors(arena)
    }

    /// Returns an iterator of references of sibling nodes following the
    /// current node, the nearest first.
    pub fn following_siblings<'a>(&self, arena: &'a Arena<T>) -> (it: FollowingSiblings<'a, T>)
        requires
            arena.wf(),
            arena.contains(self@.links.token),
        ensures
            it.tokens().wf(),
            it.tokens().arena() == *arena,
            it.tokens().remaining() == following_siblings(arena.links(), self@.links.token),
    {
        self.links.token.following_siblings(arena)
    }

    /// Returns an iterator of references of sibling nodes preceding the
    /// current node, the nearest first.
    pub fn preceding_siblings<'a>(&self, arena: &'a Arena<T>) -> (it: PrecedingSiblings<'a, T>)
        requires
            arena.wf(),
            arena.contains(self@.links.token),
        ensures
            it.tokens().wf(),
            it.tokens().arena() == *arena,
            it.tokens().remaining() == preceding_siblings(arena.links(), self@.links.token),
    {
        self.links.token.preceding_siblings(arena)
    }

    /// Returns an iterator of references of child nodes in the order of insertion.
    pub fn children<'a>(&self, arena: &'a Arena<T>) -> (it: Children<'a, T>)
        requires
            arena.wf(),
            arena.contains(self@.links.token),
        ensures
            it.tokens().wf(),
            it.tokens().arena() == *arena,
            it.tokens().remaining() == children(arena.links(), self@.links.token),
    {
        self.links.token.children(arena)
    }

    /// Returns an iterator of tokens of subtree nodes of the given node, in
    /// the given order.
    pub fn subtree_tokens<'a>(&self, arena: &'a Arena<T>, order: TraversalOrder) -> (it:
        SubtreeTokens<'a, T>)
        requires
            arena.wf(),
            arena.contains(self@.links.token),
        ensures
            it.wf(),
            it.arena() == *arena,
            it.state() == TraversalState::started(arena.links(), self@.links.token, order),
    {
        self.links.token.subtree_tokens(arena, order)
    }

    /// Returns an iterator of references of subtree nodes of the given
    /// node, in the given order.
    pub fn subtree<'a>(&self, arena: &'a Arena<T>, order: TraversalOrder) -> (it: Subtree<'a, T>)
        requires
            arena.wf(),
            arena.contains(self@.links.token),
        ensures
            it.wf(),
            it.tokens().arena() == *arena,
            it.tokens().state() == TraversalState::started(
                arena.links(),
                self@.links.token,
                order,
            ),
    {
        self.links.token.subtree(arena, order)
    }
}

} // verus!
