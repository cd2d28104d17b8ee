//! A tree that owns the arena it lives in.
use vstd::prelude::*;
use crate::allocator::Slots;
use crate::arena::Arena;
use crate::edit::added;
use crate::forest::{Links, ancestors, children, descendants};
use crate::node::Node;
use crate::removal::{pruned, pruning, removed_leaf};
use crate::token::Token;

verus! {

/// A struct that provides a tree together with the arena that holds its
/// nodes.
#[derive(Clone)]
pub struct Tree<T> {
    pub(crate) arena: Arena<T>,
}

impl<T> View for Tree<T> {
    type V = Arena<T>;

    /// The arena that holds the nodes.
    closed spec fn view(&self) -> Arena<T> {
        self.arena
    }
}

impl<T> Tree<T> {
    /// The arena that holds the nodes, for the operations on tokens.
    pub fn arena(&self) -> (arena: &Arena<T>)
        ensures
            *arena == self@,
    {
        &self.arena
    }

    /// The arena that holds the nodes, for the operations on tokens that
    /// change it.
    pub fn arena_mut(&mut self) -> (arena: &mut Arena<T>)
        ensures
            *arena == old(self)@,
            final(self)@ == *final(arena),
    {
        &mut self.arena
    }

    /// Returns true if the tree is empty.
    pub fn is_empty(&self) -> (b: bool)
        ensures
            b == (self@.spec_node_count() == 0),
    {
        self.arena.is_empty()
    }

    /// Counts the number of nodes currently in the tree.
    pub fn node_count(&self) -> (n: usize)
        ensures
            n == self@.spec_node_count(),
    {
        self.arena.node_count()
    }

    /// Returns the number of nodes the tree can hold without reallocating.
    pub fn capacity(&self) -> (n: usize)
        ensures
            n == self@.pool().capacity,
    {
        self.arena.capacity()
    }

    /// Initializes a tree whose root holds the given data.
    pub fn with_data(data: T) -> (r: (Self, Token))
        ensures
            r.0@.wf(),
            r.1 == Token::at(1),
            r.0@.links() == added(Map::empty(), r.1),
            r.0@@ == Map::<Token, T>::empty().insert(r.1, data),
            r.0@.spec_node_count() == 1,
            r.0@.pool() == (Slots { free: Seq::empty(), capacity: 1 }),
    {
        let (arena, root_token) = Arena::with_data(data);
        (Tree { arena }, root_token)
    }

    /// Creates a new node that stands alone: the root of a tree of its own
    /// in the same arena.
    pub fn new_node(&mut self, data: T) -> (token: Token)
        requires
            old(self)@.wf(),
            old(self)@.has_room(),
        ensures
            final(self)@.wf(),
            token == old(self)@.pool().next(),
            !old(self)@.contains(token),
            final(self)@.links() == added(old(self)@.links(), token),
            children(final(self)@.links(), token) == Seq::<Token>::empty(),
            ancestors(final(self)@.links(), token) == Seq::<Token>::empty(),
            final(self)@@ == old(self)@@.insert(token, data),
            final(self)@.pool() == old(self)@.pool().taken(),
            final(self)@.spec_node_count() == old(self)@.spec_node_count() + 1,
    {
        self.arena.new_node(data)
    }

    /// Gets a reference to a node on the tree.
    pub fn get(&self, indx: Token) -> (r: Option<&Node<T>>)
        ensures
            self@.contains(indx) ==> r is Some && r.unwrap()@ == self@.node(indx),
            !self@.contains(indx) ==> r is None,
    {
        self.arena.get(indx)
    }

    /// Gets a mutable reference to a node on the tree.
    pub fn get_mut(&mut self, indx: Token) -> (r: Option<&mut Node<T>>)
        ensures
            old(self)@.contains(indx) ==> r is Some && r.unwrap()@ == old(self)@.node(indx)
                && final(self)@.altered(old(self)@, indx, *final(r.unwrap())),
            !old(self)@.contains(indx) ==> r is None && final(self)@ == old(self)@,
    {
        self.arena.get_mut(indx)
    }

    /// Overwrites node with given data and removes all its descendants.
    pub fn overwrite(&mut self, indx: Token, data: T)
        requires
            old(self)@.wf(),
            old(self)@.contains(indx),
        ensures
            final(self)@.wf(),
            final(self)@.links() == pruned(old(self)@.links(), indx),
            final(self)@@ == old(self)@@.remove_keys(descendants(old(self)@.links(), indx)).insert(
                indx,
                data,
            ),
            descendants(old(self)@.links(), indx).finite(),
            final(self)@.spec_node_count() == old(self)@.spec_node_count() - descendants(
                old(self)@.links(),
                indx,
            ).len(),
            children(final(self)@.links(), indx) == Seq::<Token>::empty(),
            final(self)@.pool() == old(self)@.pool().given_all(
                pruning(old(self)@.links(), old(self)@.spans(), indx),
            ),
    {
        self.arena.overwrite(indx, data)
    }

    /// Removes the given node along with all its descendants.
    pub fn remove(&mut self, token: Token)
        requires
            old(self)@.wf(),
            old(self)@.contains(token),
        ensures
            final(self)@.wf(),
            final(self)@.links() == removed_leaf(pruned(old(self)@.links(), token), token),
            final(self)@@ == old(self)@@.remove_keys(
                descendants(old(self)@.links(), token).insert(token),
            ),
            descendants(old(self)@.links(), token).finite(),
            final(self)@.spec_node_count() == old(self)@.spec_node_count() - descendants(
                old(self)@.links(),
                token,
            ).len() - 1,
            final(self)@.pool() == old(self)@.pool().given_all(
                pruning(old(self)@.links(), old(self)@.spans(), token),
            ).given(token),
    {
        self.arena.uproot(token)
    }
}

impl<T: Clone> Tree<T> {
    /// Detaches the subtree starting from the given node into a tree of
    /// its own, with an arena of its own: the subtree is copied there and
    /// then removed from this tree. The root of the new tree has the first
    /// token.
    pub fn split_at(&mut self, token: Token) -> (tree: Tree<T>)
        requires
            old(self)@.wf(),
            old(self)@.contains(token),
        ensures
            tree@.wf(),
            tree@.is_copy_of(Token::at(1), old(self)@, token),
            descendants(old(self)@.links(), token).finite(),
            tree@.spec_node_count() == descendants(old(self)@.links(), token).len() + 1,
            final(self)@.wf(),
            final(self)@.links() == removed_leaf(pruned(old(self)@.links(), token), token),
            final(self)@@ == old(self)@@.remove_keys(
                descendants(old(self)@.links(), token).insert(token),
            ),
            final(self)@.spec_node_count() == old(self)@.spec_node_count() - descendants(
                old(self)@.links(),
                token,
            ).len() - 1,
            final(self)@.pool() == old(self)@.pool().given_all(
                pruning(old(self)@.links(), old(self)@.spans(), token),
            ).given(token),
    {
        let (arena, _) = self.arena.split_at(token);
        Tree { arena }
    }

    /// Appends a subtree of another tree to a given node of this one, as
    /// its last child. It does so by walking the subtree and copying node
    /// by node to this tree.
    pub fn append_subtree(&mut self, self_token: Token, other_tree: &Tree<T>, other_token: Token)
        requires
            old(self)@.wf(),
            old(self)@.contains(self_token),
            other_tree@.wf(),
            other_tree@.contains(other_token),
            old(self)@.spec_node_count() + other_tree@.spec_node_count() <= usize::MAX,
        ensures
            final(self)@.wf(),
            final(self)@.has_copy_below(old(self)@, self_token, other_tree@, other_token),
            forall|u: Token| #[trigger]
                old(self)@@.contains_key(u) ==> final(self)@@.contains_key(u) && final(self)@@[u]
                    == old(self)@@[u],
            descendants(other_tree@.links(), other_token).finite(),
            final(self)@.spec_node_count() == old(self)@.spec_node_count() + descendants(
                other_tree@.links(),
                other_token,
            ).len() + 1,
            final(self)@.pool() == old(self)@.pool().taken_n(
                descendants(other_tree@.links(), other_token).len() + 1,
            ),
    {
        self.arena.copy_and_append_subtree(self_token, &other_tree.arena, other_token)
    }
}

impl<T> core::ops::Index<Token> for Tree<T> {
    type Output = Node<T>;

    /// The node at `index`, which must address a node of the tree.
    fn index(&self, index: Token) -> (node: &Node<T>)
        ensures
            node@ == self@.node(index),
    {
        match self.arena.get(index) {
            Some(node) => node,
            None => vstd::pervasive::unreached(),
        }
    }
}

impl<T> vstd::std_specs::core::IndexSpecImpl<Token> for Tree<T> {
    /// The index must address a node of the tree.
    open spec fn index_req(&self, index: &Token) -> bool {
        self@.contains(*index)
    }
}

impl<T> Default for Tree<T> {
    /// A tree without nodes.
    fn default() -> (tree: Self)
        ensures
            tree@.wf(),
            tree@.links() == Map::<Token, Links>::empty(),
            tree@.spec_node_count() == 0,
    {
        Tree { arena: Arena::default() }
    }
}

} // verus!
