//! Tokens: the handles by which slots of the pool are addressed.
use vstd::prelude::*;
use crate::arena::Arena;
use crate::edit::{
    added, attached_after, attached_after_spans, attached_before, attached_before_spans,
    attached_last, attached_last_spans, detached, inserted, lemma_added, lemma_appended,
    lemma_attached_after, lemma_attached_after_children, lemma_attached_before,
    lemma_attached_before_children, lemma_attached_last, lemma_attached_last_children,
    lemma_detached, lemma_detached_children, lemma_inserted, lemma_replaced, replaced,
    replaced_spans,
};
use crate::error::Error;
use crate::forest::{
    Forest, Links, Span, ancestors, by_next, children, descendants, following_siblings,
    in_subtree, inserted_after, inserted_before, is_orbit, last_child, lemma_ancestor_spans,
    lemma_ancestors_step, lemma_children, lemma_leaf, lemma_sibling_descends,
    lemma_subtree_step, linked, nested, preceding_siblings, stepped, without,
};
use crate::iter::{
    AncestorTokens, Ancestors, AncestorsMut, Children, ChildrenMut, ChildrenTokens,
    FollowingSiblingTokens, FollowingSiblings, FollowingSiblingsMut, PrecedingSiblingTokens,
    PrecedingSiblings, PrecedingSiblingsMut, Subtree, SubtreeMut, SubtreeTokens, Traversal,
    postorder_next,
};
use crate::laws::lemma_postorder_pruning;
use crate::node::Node;
use crate::order::{
    Branch, TraversalOrder, TraversalState, first_leaf, lemma_first_leaf, lemma_started,
    levelorder, postorder, preorder,
};
use crate::removal::{
    lemma_first_leaf_below, lemma_first_leaf_removed, lemma_pruning, lemma_removed_leaf, pruned,
    pruning, removed_leaf,
};

verus! {

broadcast use Node::lemma_repr;

/// A `Token` is a handle to a slot of the pool: a positive slot number.
///
/// Tokens are cheap to copy and compare. A token stays valid for as long as
/// the element it addresses stays in the pool; it carries no generation tag,
/// so once its slot has been freed and reused it addresses the new occupant.
#[derive(Clone, Copy, Debug, PartialEq, Eq, Hash, Structural)]
pub struct Token {
    pub(crate) index: usize,
}

impl View for Token {
    type V = nat;

    /// The slot number, counted from one.
    closed spec fn view(&self) -> nat {
        self.index as nat
    }
}

/// Where a node is attached, seen from the node it is attached to.
pub(crate) enum Place {
    /// As the last child.
    LastChild,
    /// As the sibling before.
    Before,
    /// As the sibling after.
    After,
}

/// The forest after the free root `o` has been attached to `t` at `place`.
pub(crate) open spec fn attached(f: Forest, t: Token, o: Token, place: Place) -> Forest {
    match place {
        Place::LastChild => attached_last(f, t, o),
        Place::Before => attached_before(f, t, o),
        Place::After => attached_after(f, t, o),
    }
}

/// Attaches the tree of `other_token`, which must be the root of a tree of
/// its own, to the node `self_token` at `place`.
pub(crate) fn node_operation<T>(
    self_token: Token,
    arena: &mut Arena<T>,
    other_token: Token,
    place: Place,
) -> (r: Result<(), Error>)
    requires
        old(arena).wf(),
        old(arena).contains(self_token),
        old(arena).contains(other_token),
        !(place is LastChild) ==> old(arena).links()[self_token].parent is Some,
        old(arena).links()[other_token].is_free_root() ==> !in_subtree(
            old(arena).links(),
            other_token,
            self_token,
        ),
    ensures
        final(arena).wf(),
        r is Err <==> !old(arena).links()[other_token].is_free_root(),
        r is Err ==> *final(arena) == *old(arena),
        r is Ok ==> final(arena).links() == attached(
            old(arena).links(),
            self_token,
            other_token,
            place,
        ),
        final(arena)@ == old(arena)@,
        final(arena).pool() == old(arena).pool(),
        final(arena).spec_node_count() == old(arena).spec_node_count(),
{
    let lo = arena.links_of(other_token);
    if !(lo.previous_sibling.is_none() && lo.next_sibling.is_none() && lo.parent.is_none()) {
        return Err(Error::NotAFreeNode);
    }
    let l = arena.links_of(self_token);
    let ghost f0 = arena.links();
    let ghost sp0 = arena.spans();
    proof {
        assert(linked(f0, self_token));
        lemma_children(f0, sp0, self_token);
        lemma_subtree_step(f0, sp0, other_token, self_token);
    }
    match place {
        Place::LastChild => {
            let last = self_token.last_child_token(arena);
            match last {
                None => {
                    arena.set_links(self_token, Links { first_child: Some(other_token), ..l });
                },
                Some(last_child) => {
                    let lc = arena.links_of(last_child);
                    arena.set_links(last_child, Links { next_sibling: Some(other_token), ..lc });
                },
            }
            arena.set_links(
                other_token,
                Links { parent: Some(self_token), previous_sibling: last, ..lo },
            );
            arena.relabel(Ghost(attached_last_spans(f0, sp0, self_token, other_token)));
            proof {
                lemma_attached_last(f0, sp0, self_token, other_token);
                assert(arena.links() =~= attached_last(f0, self_token, other_token));
            }
        },
        Place::Before => {
            arena.set_links(self_token, Links { previous_sibling: Some(other_token), ..l });
            match l.previous_sibling {
                Some(sibling) => {
                    let ls = arena.links_of(sibling);
                    arena.set_links(sibling, Links { next_sibling: Some(other_token), ..ls });
                },
                None => match l.parent {
                    Some(p) => {
                        let lp = arena.links_of(p);
                        arena.set_links(p, Links { first_child: Some(other_token), ..lp });
                    },
                    None => {},
                },
            }
            arena.set_links(
                other_token,
                Links {
                    parent: l.parent,
                    previous_sibling: l.previous_sibling,
                    next_sibling: Some(self_token),
                    ..lo
                },
            );
            arena.relabel(Ghost(attached_before_spans(f0, sp0, self_token, other_token)));
            proof {
                lemma_attached_before(f0, sp0, self_token, other_token);
                assert(arena.links() =~= attached_before(f0, self_token, other_token));
            }
        },
        Place::After => {
            arena.set_links(self_token, Links { next_sibling: Some(other_token), ..l });
            match l.next_sibling {
                Some(sibling) => {
                    let ls = arena.links_of(sibling);
                    arena.set_links(sibling, Links { previous_sibling: Some(other_token), ..ls });
                },
                None => {},
            }
            arena.set_links(
                other_token,
                Links {
                    parent: l.parent,
                    previous_sibling: Some(self_token),
                    next_sibling: l.next_sibling,
                    ..lo
                },
            );
            arena.relabel(Ghost(attached_after_spans(f0, sp0, self_token, other_token)));
            proof {
                lemma_attached_after(f0, sp0, self_token, other_token);
                assert(arena.links() =~= attached_after(f0, self_token, other_token));
            }
        },
    }
    Ok(())
}

impl Token {
    /// The token of slot number `n`.
    pub closed spec fn at(n: nat) -> Token {
        Token { index: n as usize }
    }

    /// A token is determined by its slot number.
    pub broadcast proof fn lemma_view_at(n: nat)
        requires
            n <= usize::MAX,
        ensures
            #[trigger] Token::at(n)@ == n,
    {
    }

    /// Every token is the token of its own slot number.
    pub broadcast proof fn lemma_at_view(self)
        ensures
            #[trigger] Token::at(self@) == self,
            self@ <= usize::MAX,
    {
    }

    /// Within the crate a token is its slot number.
    pub(crate) broadcast proof fn lemma_repr(self)
        ensures
            #[trigger] self@ == self.index as nat,
    {
    }

    /// Within the crate the token of a slot number is built from it.
    pub(crate) broadcast proof fn lemma_at_repr(n: nat)
        ensures
            #[trigger] Token::at(n) == (Token { index: n as usize }),
    {
    }

    /// The token of the slot number `index`.
    pub(crate) fn from_index(index: usize) -> (t: Token)
        ensures
            t == Token::at(index as nat),
            t@ == index,
    {
        Token { index }
    }

    /// The slot number.
    pub(crate) fn slot(self) -> (index: usize)
        ensures
            index == self@,
    {
        self.index
    }

    /// The last child of this node, if it has children.
    pub(crate) fn last_child_token<T>(self, arena: &Arena<T>) -> (r: Option<Token>)
        requires
            arena.wf(),
            arena.contains(self),
        ensures
            r == last_child(arena.links(), self),
    {
        let mut last: Option<Token> = None;
        let mut cur = arena.links_of(self).first_child;
        let ghost cs = children(arena.links(), self);
        let ghost mut i: int = 0;
        proof {
            lemma_children(arena.links(), arena.spans(), self);
        }
        while cur.is_some()
            invariant
                is_orbit(by_next(arena.links()), arena.links()[self].first_child, cs),
                forall|k: int| 0 <= k < cs.len() ==> arena.contains(#[trigger] cs[k]),
                0 <= i <= cs.len(),
                cur == (if i < cs.len() {
                    Some(cs[i])
                } else {
                    None
                }),
                last == (if i > 0 {
                    Some(cs[i - 1])
                } else {
                    None
                }),
            decreases cs.len() - i,
        {
            let c = cur.unwrap();
            proof {
                assert(stepped(by_next(arena.links()), cs, i));
            }
            last = cur;
            cur = arena.links_of(c).next_sibling;
            proof {
                i = i + 1;
            }
        }
        last
    }

    /// Creates a new node with the given data and appends it to this node
    /// as its last child.
    pub fn append<T>(self, arena: &mut Arena<T>, data: T) -> (token: Token)
        requires
            old(arena).wf(),
            old(arena).contains(self),
            old(arena).has_room(),
        ensures
            final(arena).wf(),
            token == old(arena).pool().next(),
            !old(arena).contains(token),
            final(arena).links() == attached_last(added(old(arena).links(), token), self, token),
            children(final(arena).links(), self) == children(old(arena).links(), self).push(token),
            children(final(arena).links(), token) == Seq::<Token>::empty(),
            ancestors(final(arena).links(), token) == seq![self] + ancestors(
                old(arena).links(),
                self,
            ),
            forall|x: Token|
                old(arena).contains(x) && x != self ==> #[trigger] children(
                    final(arena).links(),
                    x,
                ) == children(old(arena).links(), x),
            forall|x: Token|
                old(arena).contains(x) ==> #[trigger] ancestors(final(arena).links(), x)
                    == ancestors(old(arena).links(), x),
            final(arena)@ == old(arena)@.insert(token, data),
            final(arena).pool() == old(arena).pool().taken(),
            final(arena).spec_node_count() == old(arena).spec_node_count() + 1,
    {
        let new_node_token = arena.next_token();
        let last = self.last_child_token(arena);
        let ghost f0 = arena.links();
        let ghost sp0 = arena.spans();
        let ghost f1 = added(f0, new_node_token);
        let ghost sp1 = sp0.insert(new_node_token, Span { lo: 0, hi: 1 });
        proof {
            lemma_children(f0, sp0, self);
            lemma_added(f0, sp0, new_node_token);
        }
        match last {
            None => {
                let mut l = arena.links_of(self);
                l.first_child = Some(new_node_token);
                arena.set_links(self, l);
            },
            Some(last_child) => {
                let mut l = arena.links_of(last_child);
                l.next_sibling = Some(new_node_token);
                arena.set_links(last_child, l);
            },
        }
        let links = Links {
            token: new_node_token,
            parent: Some(self),
            previous_sibling: last,
            next_sibling: None,
            first_child: None,
        };
        arena.set(new_node_token, Node { data, links });
        arena.relabel(Ghost(attached_last_spans(f1, sp1, self, new_node_token)));
        proof {
            lemma_attached_last(f1, sp1, self, new_node_token);
            lemma_appended(f0, sp0, self, new_node_token);
            assert(arena.links() =~= attached_last(f1, self, new_node_token));
        }
        new_node_token
    }

    /// Is the node a leaf?
    pub fn is_leaf<T>(self, arena: &Arena<T>) -> (leaf: bool)
        requires
            arena.contains(self),
        ensures
            leaf == (arena.links()[self].first_child is None),
    {
        arena.links_of(self).first_child.is_none()
    }

    /// Creates a new node with the given data and sets it as the previous
    /// sibling of this node, which has a parent.
    pub fn insert_before<T>(self, arena: &mut Arena<T>, data: T) -> (token: Token)
        requires
            old(arena).wf(),
            old(arena).contains(self),
            old(arena).has_room(),
            old(arena).links()[self].parent is Some,
        ensures
            final(arena).wf(),
            token == old(arena).pool().next(),
            !old(arena).contains(token),
            final(arena).links() == attached_before(added(old(arena).links(), token), self, token),
            children(final(arena).links(), old(arena).links()[self].parent.unwrap())
                == inserted_before(
                children(old(arena).links(), old(arena).links()[self].parent.unwrap()),
                self,
                token,
            ),
            children(final(arena).links(), token) == Seq::<Token>::empty(),
            ancestors(final(arena).links(), token) == ancestors(old(arena).links(), self),
            forall|x: Token|
                old(arena).contains(x) ==> #[trigger] ancestors(final(arena).links(), x)
                    == ancestors(old(arena).links(), x),
            forall|x: Token|
                old(arena).contains(x) && old(arena).links()[self].parent != Some(x)
                    ==> #[trigger] children(final(arena).links(), x) == children(
                    old(arena).links(),
                    x,
                ),
            final(arena)@ == old(arena)@.insert(token, data),
            final(arena).pool() == old(arena).pool().taken(),
            final(arena).spec_node_count() == old(arena).spec_node_count() + 1,
    {
        let new_node_token = arena.next_token();
        let l = arena.links_of(self);
        let ghost f0 = arena.links();
        let ghost sp0 = arena.spans();
        let ghost f1 = added(f0, new_node_token);
        let ghost sp1 = sp0.insert(new_node_token, Span { lo: 0, hi: 1 });
        proof {
            assert(linked(f0, self));
            lemma_added(f0, sp0, new_node_token);
        }
        arena.set_links(self, Links { previous_sibling: Some(new_node_token), ..l });
        match l.previous_sibling {
            Some(sibling) => {
                let ls = arena.links_of(sibling);
                arena.set_links(sibling, Links { next_sibling: Some(new_node_token), ..ls });
            },
            None => match l.parent {
                Some(p) => {
                    let lp = arena.links_of(p);
                    arena.set_links(p, Links { first_child: Some(new_node_token), ..lp });
                },
                None => {},
            },
        }
        let links = Links {
            token: new_node_token,
            parent: l.parent,
            previous_sibling: l.previous_sibling,
            next_sibling: Some(self),
            first_child: None,
        };
        arena.set(new_node_token, Node { data, links });
        arena.relabel(Ghost(attached_before_spans(f1, sp1, self, new_node_token)));
        proof {
            lemma_attached_before(f1, sp1, self, new_node_token);
            lemma_attached_before_children(f1, sp1, self, new_node_token);
            lemma_inserted(f0, sp0, self, new_node_token, false);
            assert(arena.links() == inserted(f0, self, new_node_token, false));
            assert(arena.links() =~= attached_before(f1, self, new_node_token));
        }
        new_node_token
    }

    /// Creates a new node with the given data and sets it as the previous
    /// sibling of this node, if this node has a parent. A node without a
    /// parent, the root of a tree, cannot have siblings: nothing is done
    /// then and `None` is returned.
    pub fn checked_insert_before<T>(self, arena: &mut Arena<T>, data: T) -> (r: Option<Token>)
        requires
            old(arena).wf(),
            old(arena).contains(self),
            old(arena).has_room(),
        ensures
            final(arena).wf(),
            r is None <==> old(arena).links()[self].parent is None,
            r is None ==> *final(arena) == *old(arena),
            r matches Some(token) ==> {
                &&& token == old(arena).pool().next()
                &&& !old(arena).contains(token)
                &&& final(arena).links() == attached_before(
                    added(old(arena).links(), token),
                    self,
                    token,
                )
                &&& final(arena)@ == old(arena)@.insert(token, data)
                &&& final(arena).pool() == old(arena).pool().taken()
                &&& final(arena).spec_node_count() == old(arena).spec_node_count() + 1
            },
    {
        if arena.links_of(self).parent.is_none() {
            return None;
        }
        Some(self.insert_before(arena, data))
    }

    /// Creates a new node with the given data and sets it as the next
    /// sibling of this node, if this node has a parent. A node without a
    /// parent, the root of a tree, cannot have siblings: nothing is done
    /// then and `None` is returned.
    pub fn checked_insert_after<T>(self, arena: &mut Arena<T>, data: T) -> (r: Option<Token>)
        requires
            old(arena).wf(),
            old(arena).contains(self),
            old(arena).has_room(),
        ensures
            final(arena).wf(),
            r is None <==> old(arena).links()[self].parent is None,
            r is None ==> *final(arena) == *old(arena),
            r matches Some(token) ==> {
                &&& token == old(arena).pool().next()
                &&& !old(arena).contains(token)
                &&& final(arena).links() == attached_after(
                    added(old(arena).links(), token),
                    self,
                    token,
                )
                &&& final(arena)@ == old(arena)@.insert(token, data)
                &&& final(arena).pool() == old(arena).pool().taken()
                &&& final(arena).spec_node_count() == old(arena).spec_node_count() + 1
            },
    {
        if arena.links_of(self).parent.is_none() {
            return None;
        }
        Some(self.insert_after(arena, data))
    }

    /// Creates a new node with the given data and sets it as the next
    /// sibling of this node, which has a parent.
    pub fn insert_after<T>(self, arena: &mut Arena<T>, data: T) -> (token: Token)
        requires
            old(arena).wf(),
            old(arena).contains(self),
            old(arena).has_room(),
            old(arena).links()[self].parent is Some,
        ensures
            final(arena).wf(),
            token == old(arena).pool().next(),
            !old(arena).contains(token),
            final(arena).links() == attached_after(added(old(arena).links(), token), self, token),
            children(final(arena).links(), old(arena).links()[self].parent.unwrap())
                == inserted_after(
                children(old(arena).links(), old(arena).links()[self].parent.unwrap()),
                self,
                token,
            ),
            children(final(arena).links(), token) == Seq::<Token>::empty(),
            ancestors(final(arena).links(), token) == ancestors(old(arena).links(), self),
            forall|x: Token|
                old(arena).contains(x) ==> #[trigger] ancestors(final(arena).links(), x)
                    == ancestors(old(arena).links(), x),
            forall|x: Token|
                old(arena).contains(x) && old(arena).links()[self].parent != Some(x)
                    ==> #[trigger] children(final(arena).links(), x) == children(
                    old(arena).links(),
                    x,
                ),
            final(arena)@ == old(arena)@.insert(token, data),
            final(arena).pool() == old(arena).pool().taken(),
            final(arena).spec_node_count() == old(arena).spec_node_count() + 1,
    {
        let new_node_token = arena.next_token();
        let l = arena.links_of(self);
        let ghost f0 = arena.links();
        let ghost sp0 = arena.spans();
        let ghost f1 = added(f0, new_node_token);
        let ghost sp1 = sp0.insert(new_node_token, Span { lo: 0, hi: 1 });
        proof {
            assert(linked(f0, self));
            lemma_added(f0, sp0, new_node_token);
        }
        arena.set_links(self, Links { next_sibling: Some(new_node_token), ..l });
        match l.next_sibling {
            Some(sibling) => {
                let ls = arena.links_of(sibling);
                arena.set_links(sibling, Links { previous_sibling: Some(new_node_token), ..ls });
            },
            None => {},
        }
        let links = Links {
            token: new_node_token,
            parent: l.parent,
            previous_sibling: Some(self),
            next_sibling: l.next_sibling,
            first_child: None,
        };
        arena.set(new_node_token, Node { data, links });
        arena.relabel(Ghost(attached_after_spans(f1, sp1, self, new_node_token)));
        proof {
            lemma_attached_after(f1, sp1, self, new_node_token);
            lemma_attached_after_children(f1, sp1, self, new_node_token);
            lemma_inserted(f0, sp0, self, new_node_token, true);
            assert(arena.links() == inserted(f0, self, new_node_token, true));
            assert(arena.links() =~= attached_after(f1, self, new_node_token));
        }
        new_node_token
    }

    /// Detaches the given node and its descendants into a tree of its own
    /// within the same arena.
    pub fn detach<T>(self, arena: &mut Arena<T>)
        requires
            old(arena).wf(),
            old(arena).contains(self),
        ensures
            final(arena).wf(),
            final(arena).links() == detached(old(arena).links(), self),
            children(final(arena).links(), self) == children(old(arena).links(), self),
            ancestors(final(arena).links(), self) == Seq::<Token>::empty(),
            old(arena).links()[self].parent matches Some(p) ==> children(final(arena).links(), p)
                == without(children(old(arena).links(), p), self),
            final(arena)@ == old(arena)@,
            final(arena).pool() == old(arena).pool(),
            final(arena).spans() == old(arena).spans(),
            final(arena).spec_node_count() == old(arena).spec_node_count(),
    {
        let l = arena.links_of(self);
        let ghost f0 = arena.links();
        proof {
            assert(linked(f0, self));
        }
        arena.set_links(
            self,
            Links { parent: None, previous_sibling: None, next_sibling: None, ..l },
        );
        match l.previous_sibling {
            Some(token) => {
                let lq = arena.links_of(token);
                arena.set_links(token, Links { next_sibling: l.next_sibling, ..lq });
            },
            None => match l.parent {
                Some(token) => {
                    let lp = arena.links_of(token);
                    arena.set_links(token, Links { first_child: l.next_sibling, ..lp });
                },
                None => {},
            },
        }
        match l.next_sibling {
            Some(token) => {
                let ln = arena.links_of(token);
                arena.set_links(token, Links { previous_sibling: l.previous_sibling, ..ln });
            },
            None => {},
        }
        proof {
            lemma_detached(f0, arena.spans(), self);
            lemma_detached_children(f0, arena.spans(), self);
            assert(arena.links() =~= detached(f0, self));
        }
    }

    /// Replaces the subtree of this node with the subtree of `other`, which
    /// must be the root of a tree of its own. This node is not removed: it
    /// becomes the root of a tree of its own and keeps its descendants.
    ///
    /// `other` must not be an ancestor of this node: a node cannot be put
    /// into its own subtree.
    pub fn replace_node<T>(self, arena: &mut Arena<T>, other: Token) -> (r: Result<(), Error>)
        requires
            old(arena).wf(),
            old(arena).contains(self),
            old(arena).contains(other),
            old(arena).links()[self].parent is Some && old(arena).links()[other].is_free_root()
                ==> !in_subtree(old(arena).links(), other, self),
        ensures
            final(arena).wf(),
            r is Err <==> !old(arena).links()[other].is_free_root(),
            r is Err ==> *final(arena) == *old(arena),
            r is Ok ==> final(arena).links() == replaced(old(arena).links(), self, other),
            final(arena)@ == old(arena)@,
            final(arena).pool() == old(arena).pool(),
            final(arena).spec_node_count() == old(arena).spec_node_count(),
    {
        let l = arena.links_of(self);
        let lo = arena.links_of(other);
        // the other node must be a root node of its own
        if !(lo.previous_sibling.is_none() && lo.next_sibling.is_none() && lo.parent.is_none()) {
            return Err(Error::NotAFreeNode);
        }
        let ghost f0 = arena.links();
        let ghost sp0 = arena.spans();
        proof {
            assert(linked(f0, self));
        }
        // the other node takes the place of this node
        arena.set_links(
            other,
            Links {
                parent: l.parent,
                previous_sibling: l.previous_sibling,
                next_sibling: l.next_sibling,
                ..lo
            },
        );
        let ls = arena.links_of(self);
        arena.set_links(
            self,
            Links { parent: None, previous_sibling: None, next_sibling: None, ..ls },
        );
        // the former neighbours of this node are linked to the other node
        match l.previous_sibling {
            Some(sibling) => {
                let lq = arena.links_of(sibling);
                arena.set_links(sibling, Links { next_sibling: Some(other), ..lq });
            },
            None => match l.parent {
                Some(p) => {
                    let lp = arena.links_of(p);
                    arena.set_links(p, Links { first_child: Some(other), ..lp });
                },
                None => {},
            },
        }
        match l.next_sibling {
            Some(sibling) => {
                let ln = arena.links_of(sibling);
                arena.set_links(sibling, Links { previous_sibling: Some(other), ..ln });
            },
            None => {},
        }
        arena.relabel(Ghost(replaced_spans(f0, sp0, self, other)));
        proof {
            lemma_replaced(f0, sp0, self, other);
            assert(arena.links() =~= replaced(f0, self, other));
        }
        Ok(())
    }

    /// Attaches a different tree of the arena to this node, as its last
    /// child. `other` must be the root of that tree, with no parent and no
    /// siblings, or nothing is done and an error is returned.
    ///
    /// This node must not be in the tree of `other`: a node cannot be put
    /// into its own subtree.
    pub fn append_node<T>(self, arena: &mut Arena<T>, other: Token) -> (r: Result<(), Error>)
        requires
            old(arena).wf(),
            old(arena).contains(self),
            old(arena).contains(other),
            old(arena).links()[other].is_free_root() ==> !in_subtree(
                old(arena).links(),
                other,
                self,
            ),
        ensures
            final(arena).wf(),
            r is Err <==> !old(arena).links()[other].is_free_root(),
            r is Err ==> *final(arena) == *old(arena),
            r is Ok ==> final(arena).links() == attached_last(old(arena).links(), self, other),
            r is Ok ==> children(final(arena).links(), self) == children(
                old(arena).links(),
                self,
            ).push(other),
            final(arena)@ == old(arena)@,
            final(arena).pool() == old(arena).pool(),
            final(arena).spec_node_count() == old(arena).spec_node_count(),
    {
        proof {
            if old(arena).links()[other].is_free_root() {
                lemma_attached_last_children(old(arena).links(), old(arena).spans(), self, other);
            }
        }
        node_operation(self, arena, other, Place::LastChild)
    }

    /// Sets a node of the arena as the previous sibling of this node, which
    /// has a parent. `other` must be the root of a tree of its own, with no
    /// parent and no siblings, or nothing is done and an error is returned.
    ///
    /// This node must not be in the tree of `other`: a node cannot be put
    /// into its own subtree.
    pub fn insert_node_before<T>(self, arena: &mut Arena<T>, other: Token) -> (r: Result<(), Error>)
        requires
            old(arena).wf(),
            old(arena).contains(self),
            old(arena).contains(other),
            old(arena).links()[self].parent is Some,
            old(arena).links()[other].is_free_root() ==> !in_subtree(
                old(arena).links(),
                other,
                self,
            ),
        ensures
            final(arena).wf(),
            r is Err <==> !old(arena).links()[other].is_free_root(),
            r is Err ==> *final(arena) == *old(arena),
            r is Ok ==> final(arena).links() == attached_before(old(arena).links(), self, other),
            r is Ok ==> children(final(arena).links(), old(arena).links()[self].parent.unwrap())
                == inserted_before(
                children(old(arena).links(), old(arena).links()[self].parent.unwrap()),
                self,
                other,
            ),
            final(arena)@ == old(arena)@,
            final(arena).pool() == old(arena).pool(),
            final(arena).spec_node_count() == old(arena).spec_node_count(),
    {
        proof {
            if old(arena).links()[other].is_free_root() {
                lemma_attached_before_children(
                    old(arena).links(),
                    old(arena).spans(),
                    self,
                    other,
                );
            }
        }
        node_operation(self, arena, other, Place::Before)
    }

    /// Sets a node of the arena as the next sibling of this node, which has
    /// a parent. `other` must be the root of a tree of its own, with no
    /// parent and no siblings, or nothing is done and an error is returned.
    ///
    /// This node must not be in the tree of `other`: a node cannot be put
    /// into its own subtree.
    pub fn insert_node_after<T>(self, arena: &mut Arena<T>, other: Token) -> (r: Result<(), Error>)
        requires
            old(arena).wf(),
            old(arena).contains(self),
            old(arena).contains(other),
            old(arena).links()[self].parent is Some,
            old(arena).links()[other].is_free_root() ==> !in_subtree(
                old(arena).links(),
                other,
                self,
            ),
        ensures
            final(arena).wf(),
            r is Err <==> !old(arena).links()[other].is_free_root(),
            r is Err ==> *final(arena) == *old(arena),
            r is Ok ==> final(arena).links() == attached_after(old(arena).links(), self, other),
            r is Ok ==> children(final(arena).links(), old(arena).links()[self].parent.unwrap())
                == inserted_after(
                children(old(arena).links(), old(arena).links()[self].parent.unwrap()),
                self,
                other,
            ),
            final(arena)@ == old(arena)@,
            final(arena).pool() == old(arena).pool(),
            final(arena).spec_node_count() == old(arena).spec_node_count(),
    {
        proof {
            if old(arena).links()[other].is_free_root() {
                lemma_attached_after_children(
                    old(arena).links(),
                    old(arena).spans(),
                    self,
                    other,
                );
            }
        }
        node_operation(self, arena, other, Place::After)
    }

    /// Returns an iterator of tokens of ancestor nodes, the parent first.
    pub fn ancestors_tokens<'a, T>(self, arena: &'a Arena<T>) -> (it: AncestorTokens<'a, T>)
        requires
            arena.wf(),
            arena.contains(self),
        ensures
            it.wf(),
            it.arena() == *arena,
            it.peek() == arena.links()[self].parent,
            it.remaining() == ancestors(arena.links(), self),
    {
        let start = arena.links_of(self).parent;
        proof {
            assert(linked(arena.links(), self));
        }
        AncestorTokens::new(arena, start)
    }

    /// Returns an iterator of tokens of siblings preceding the current
    /// node, the nearest first.
    pub fn preceding_siblings_tokens<'a, T>(self, arena: &'a Arena<T>) -> (it: PrecedingSiblingTokens<
        'a,
        T,
    >)
        requires
            arena.wf(),
            arena.contains(self),
        ensures
            it.wf(),
            it.arena() == *arena,
            it.peek() == arena.links()[self].previous_sibling,
            it.remaining() == preceding_siblings(arena.links(), self),
    {
        let start = arena.links_of(self).previous_sibling;
        proof {
            assert(linked(arena.links(), self));
        }
        PrecedingSiblingTokens::new(arena, start)
    }

    /// Returns an iterator of tokens of siblings following the current
    /// node, the nearest first.
    pub fn following_siblings_tokens<'a, T>(self, arena: &'a Arena<T>) -> (it: FollowingSiblingTokens<
        'a,
        T,
    >)
        requires
            arena.wf(),
            arena.contains(self),
        ensures
            it.wf(),
            it.arena() == *arena,
            it.peek() == arena.links()[self].next_sibling,
            it.remaining() == following_siblings(arena.links(), self),
    {
        let start = arena.links_of(self).next_sibling;
        proof {
            assert(linked(arena.links(), self));
        }
        FollowingSiblingTokens::new(arena, start)
    }

    /// Returns an iterator of tokens of child nodes in the order of insertion.
    pub fn children_tokens<'a, T>(self, arena: &'a Arena<T>) -> (it: ChildrenTokens<'a, T>)
        requires
            arena.wf(),
            arena.contains(self),
        ensures
            it.wf(),
            it.arena() == *arena,
            it.peek() == arena.links()[self].first_child,
            it.remaining() == children(arena.links(), self),
    {
        let start = arena.links_of(self).first_child;
        proof {
            assert(linked(arena.links(), self));
        }
        ChildrenTokens::new(arena, start)
    }

    /// Returns an iterator of references of ancestor nodes, the parent first.
    pub fn ancestors<'a, T>(self, arena: &'a Arena<T>) -> (it: Ancestors<'a, T>)
        requires
            arena.wf(),
            arena.contains(self),
        ensures
            it.tokens().wf(),
            it.tokens().arena() == *arena,
            it.tokens().remaining() == ancestors(arena.links(), self),
    {
        Ancestors::new(self.ancestors_tokens(arena))
    }

    /// Returns an iterator of references of sibling nodes preceding the
    /// current node, the nearest first.
    pub fn preceding_siblings<'a, T>(self, arena: &'a Arena<T>) -> (it: PrecedingSiblings<'a, T>)
        requires
            arena.wf(),
            arena.contains(self),
        ensures
            it.tokens().wf(),
            it.tokens().arena() == *arena,
            it.tokens().remaining() == preceding_siblings(arena.links(), self),
    {
        PrecedingSiblings::new(self.preceding_siblings_tokens(arena))
    }

    /// Returns an iterator of references of sibling nodes following the
    /// current node, the nearest first.
    pub fn following_siblings<'a, T>(self, arena: &'a Arena<T>) -> (it: FollowingSiblings<'a, T>)
        requires
            arena.wf(),
            arena.contains(self),
        ensures
            it.tokens().wf(),
            it.tokens().arena() == *arena,
            it.tokens().remaining() == following_siblings(arena.links(), self),
    {
        FollowingSiblings::new(self.following_siblings_tokens(arena))
    }

    /// Returns an iterator of references of child nodes in the order of insertion.
    pub fn children<'a, T>(self, arena: &'a Arena<T>) -> (it: Children<'a, T>)
        requires
            arena.wf(),
            arena.contains(self),
        ensures
            it.tokens().wf(),
            it.tokens().arena() == *arena,
            it.tokens().remaining() == children(arena.links(), self),
    {
        Children::new(self.children_tokens(arena))
    }

    /// Returns an iterator of mutable references of ancestor nodes, the parent first.
    pub fn ancestors_mut<'a, T>(self, arena: &'a mut Arena<T>) -> (it: AncestorsMut<'a, T>)
        requires
            old(arena).wf(),
            old(arena).contains(self),
        ensures
            it.wf(),
            it.arena() == *old(arena),
            *final(it.lent()) == *final(arena),
            it.peek() == old(arena).links()[self].parent,
    {
        let start = arena.links_of(self).parent;
        proof {
            assert(linked(arena.links(), self));
        }
        AncestorsMut::new(arena, start)
    }

    /// Returns an iterator of mutable references of sibling nodes that
    /// follow the current node, the nearest first.
    pub fn following_siblings_mut<'a, T>(self, arena: &'a mut Arena<T>) -> (it: FollowingSiblingsMut<
        'a,
        T,
    >)
        requires
            old(arena).wf(),
            old(arena).contains(self),
        ensures
            it.wf(),
            it.arena() == *old(arena),
            *final(it.lent()) == *final(arena),
            it.peek() == old(arena).links()[self].next_sibling,
    {
        let start = arena.links_of(self).next_sibling;
        proof {
            assert(linked(arena.links(), self));
        }
        FollowingSiblingsMut::new(arena, start)
    }

    /// Returns an iterator of mutable references of sibling nodes that
    /// precede the current node, the nearest first.
    pub fn preceding_siblings_mut<'a, T>(self, arena: &'a mut Arena<T>) -> (it: PrecedingSiblingsMut<
        'a,
        T,
    >)
        requires
            old(arena).wf(),
            old(arena).contains(self),
        ensures
            it.wf(),
            it.arena() == *old(arena),
            *final(it.lent()) == *final(arena),
            it.peek() == old(arena).links()[self].previous_sibling,
    {
        let start = arena.links_of(self).previous_sibling;
        proof {
            assert(linked(arena.links(), self));
        }
        PrecedingSiblingsMut::new(arena, start)
    }

    /// Returns an iterator of mutable references of child nodes in the order of insertion.
    pub fn children_mut<'a, T>(self, arena: &'a mut Arena<T>) -> (it: ChildrenMut<'a, T>)
        requires
            old(arena).wf(),
            old(arena).contains(self),
        ensures
            it.wf(),
            it.arena() == *old(arena),
            *final(it.lent()) == *final(arena),
            it.peek() == old(arena).links()[self].first_child,
    {
        let start = arena.links_of(self).first_child;
        proof {
            assert(linked(arena.links(), self));
        }
        ChildrenMut::new(arena, start)
    }

    /// Returns an iterator of tokens of subtree nodes of the given node, in
    /// the given order.
    pub fn subtree_tokens<'a, T>(self, arena: &'a Arena<T>, order: TraversalOrder) -> (it:
        SubtreeTokens<'a, T>)
        requires
            arena.wf(),
            arena.contains(self),
        ensures
            it.wf(),
            it.arena() == *arena,
            it.state() == TraversalState::started(arena.links(), self, order),
            it.remaining() == (match order {
                TraversalOrder::Pre => preorder(arena.links(), self),
                TraversalOrder::Post => postorder(arena.links(), self),
                TraversalOrder::Level => levelorder(arena.links(), arena.spans(), self),
            }),
    {
        proof {
            lemma_started(arena.links(), arena.spans(), self, order);
        }
        SubtreeTokens::new(arena, Traversal::new(self, arena, order))
    }

    /// Returns an iterator of references of subtree nodes of the given
    /// node, in the given order.
    pub fn subtree<'a, T>(self, arena: &'a Arena<T>, order: TraversalOrder) -> (it: Subtree<'a, T>)
        requires
            arena.wf(),
            arena.contains(self),
        ensures
            it.wf(),
            it.tokens().arena() == *arena,
            it.tokens().state() == TraversalState::started(arena.links(), self, order),
    {
        Subtree::new(arena, self.subtree_tokens(arena, order))
    }

    /// Returns an iterator of mutable references of subtree nodes of the
    /// given node, in the given order.
    pub fn subtree_mut<'a, T>(self, arena: &'a mut Arena<T>, order: TraversalOrder) -> (it:
        SubtreeMut<'a, T>)
        requires
            old(arena).wf(),
            old(arena).contains(self),
        ensures
            it.wf(),
            it.arena() == *old(arena),
            *final(it.lent()) == *final(arena),
            it.state() == TraversalState::started(old(arena).links(), self, order),
    {
        let state = Traversal::new(self, arena, order);
        SubtreeMut::new(arena, state)
    }

    /// Removes all descendants of the current node. The descendants are
    /// freed in post-order, each after all nodes below it; the node itself
    /// stays and is a leaf afterwards.
    pub fn remove_descendants<T>(self, arena: &mut Arena<T>)
        requires
            old(arena).wf(),
            old(arena).contains(self),
        ensures
            final(arena).wf(),
            final(arena).links() == pruned(old(arena).links(), self),
            final(arena)@ == old(arena)@.remove_keys(descendants(old(arena).links(), self)),
            descendants(old(arena).links(), self).finite(),
            final(arena).spec_node_count() == old(arena).spec_node_count() - descendants(
                old(arena).links(),
                self,
            ).len(),
            children(final(arena).links(), self) == Seq::<Token>::empty(),
            descendants(final(arena).links(), self) == Set::<Token>::empty(),
            final(arena).spans() == old(arena).spans(),
            final(arena).pool().capacity == old(arena).pool().capacity,
            final(arena).pool() == old(arena).pool().given_all(
                pruning(old(arena).links(), old(arena).spans(), self),
            ),
            postorder(old(arena).links(), self) == pruning(
                old(arena).links(),
                old(arena).spans(),
                self,
            ).push(self),
            pruning(old(arena).links(), old(arena).spans(), self).no_duplicates(),
            pruning(old(arena).links(), old(arena).spans(), self).to_set() == descendants(
                old(arena).links(),
                self,
            ),
    {
        let ghost a0 = *arena;
        let ghost f0 = arena.links();
        let ghost sp = arena.spans();
        let ghost d0 = descendants(f0, self);
        let ghost mut order: Seq<Token> = Seq::empty();
        let (first, first_branch) = postorder_next(self, self, Branch::Child, arena);
        let mut token = match first {
            Some(token) => token,
            None => {
                proof {
                    lemma_first_leaf(f0, sp, self);
                }
                return vstd::pervasive::unreached();
            },
        };
        let mut branch = first_branch;
        proof {
            lemma_first_leaf(f0, sp, self);
            assert(order.to_set() =~= Set::<Token>::empty());
            assert(d0.difference(order.to_set()) =~= d0);
            assert(a0@.remove_keys(order.to_set()) =~= a0@);
            a0.lemma_pool();
            assert(d0.subset_of(f0.dom()));
            vstd::set_lib::lemma_set_subset_finite(f0.dom(), d0);
            assert(order + pruning(f0, sp, self) =~= pruning(f0, sp, self));
        }
        while branch != Branch::End
            invariant
                arena.wf(),
                arena.contains(self),
                arena.spans() == sp,
                f0 == a0.links(),
                d0 == descendants(f0, self),
                order.no_duplicates(),
                forall|t: Token| #[trigger]
                    arena.links().contains_key(t) <==> f0.contains_key(t) && !order.contains(t),
                forall|i: int| 0 <= i < order.len() ==> d0.contains(#[trigger] order[i]),
                descendants(arena.links(), self) == d0.difference(order.to_set()),
                d0.finite(),
                order + pruning(arena.links(), sp, self) == pruning(f0, sp, self),
                forall|t: Token|
                    arena.links().contains_key(t) && !d0.contains(t) && t != self
                        ==> #[trigger] arena.links()[t] == f0[t],
                arena.links()[self].with_first_child(None) == f0[self].with_first_child(None),
                arena@ == a0@.remove_keys(order.to_set()),
                arena.pool() == a0.pool().given_all(order),
                arena.spec_node_count() + order.len() == a0.spec_node_count(),
                branch is End ==> arena.links()[self].first_child is None,
                !(branch is End) ==> branch is Sibling && arena.links()[self].first_child is Some
                    && token == first_leaf(arena.links(), self),
            decreases arena.spec_node_count(),
        {
            let ghost f = arena.links();
            let ghost before = *arena;
            proof {
                lemma_first_leaf(f, sp, self);
                lemma_first_leaf_below(f, sp, self);
                lemma_first_leaf_removed(f, sp, self);
                lemma_removed_leaf(f, sp, token);
                lemma_ancestor_spans(f, sp, token, self);
                lemma_ancestors_step(f, sp, token);
                assert(linked(f, token));
                assert(nested(f, sp, token));
                match f[token].next_sibling {
                    Some(s) => {
                        assert(linked(f, s));
                        assert(nested(f, sp, s));
                        lemma_first_leaf(f, sp, s);
                    },
                    None => {},
                }
                lemma_first_leaf(removed_leaf(f, token), sp, self);
                arena.lemma_pool();
                a0.pool().lemma_given_all_push(order, token);
                lemma_pruning(f, sp, self);
                assert(order.push(token) + pruning(removed_leaf(f, token), sp, self) =~= order
                    + pruning(f, sp, self));
            }
            let (t, b) = postorder_next(token, self, branch, arena);
            token.detach(arena);
            let _ = arena.release(token);
            proof {
                let g = arena.links();
                assert(g == removed_leaf(f, token));
                let grown = order.push(token);
                assert forall|u: Token| grown.contains(u) == (order.contains(u) || u == token) by {
                    if grown.contains(u) {
                        let i = choose|i: int| 0 <= i < grown.len() && grown[i] == u;
                        if i < order.len() {
                            assert(order[i] == u);
                        }
                    }
                    if order.contains(u) {
                        let i = choose|i: int| 0 <= i < order.len() && order[i] == u;
                        assert(grown[i] == u);
                    }
                    assert(grown[order.len() as int] == token);
                }
                assert(grown.to_set() =~= order.to_set().insert(token));
                assert(descendants(f, self).contains(token));
                assert(d0.contains(token));
                assert forall|i: int| 0 <= i < grown.len() implies d0.contains(#[trigger] grown[i]) by {
                    if i < order.len() {
                        assert(grown[i] == order[i]);
                    }
                }
                assert(arena@ =~= a0@.remove_keys(grown.to_set()));
                assert(descendants(g, self) =~= d0.difference(grown.to_set()));
                match f[token].parent {
                    Some(p) => {
                        if p != self {
                            assert(ancestors(f, token)[0] == p);
                            lemma_sibling_descends(f, sp, self, token, p);
                        }
                    },
                    None => {},
                }
                match f[token].previous_sibling {
                    Some(q) => {
                        assert(linked(f, q));
                        assert(ancestors(f, q) == ancestors(f, token));
                        lemma_ancestor_spans(f, sp, q, self);
                    },
                    None => {},
                }
                match f[token].next_sibling {
                    Some(s) => {
                        assert(ancestors(f, s) == ancestors(f, token));
                        lemma_ancestor_spans(f, sp, s, self);
                    },
                    None => {},
                }
                assert forall|u: Token|
                    g.contains_key(u) && !d0.contains(u) && u != self implies #[trigger] g[u]
                    == f0[u] by {
                    assert(f.contains_key(u));
                    assert(!descendants(f, self).contains(u));
                }
                order = grown;
            }
            token = match t {
                Some(t) => t,
                None => vstd::pervasive::unreached(),
            };
            branch = b;
        }
        proof {
            let f = arena.links();
            lemma_leaf(f, sp, self);
            assert(order.to_set() =~= d0) by {
                assert forall|u: Token| d0.contains(u) implies order.to_set().contains(u) by {
                    if !order.to_set().contains(u) {
                        assert(d0.difference(order.to_set()).contains(u));
                    }
                }
            }
            order.unique_seq_to_set();
            vstd::seq_lib::seq_to_set_is_finite(order);
            assert(f =~= pruned(f0, self)) by {
                assert forall|u: Token| f.contains_key(u) == pruned(f0, self).contains_key(u) by {
                    if f0.contains_key(u) && u != self {
                        assert(order.contains(u) == d0.contains(u));
                    }
                }
                assert forall|u: Token| f.contains_key(u) implies f[u] == pruned(f0, self)[u] by {
                    if u != self {
                        assert(!order.contains(u));
                        assert(!d0.contains(u));
                    }
                }
            }
            assert(a0.pool().given_all(order) == arena.pool());
            a0.pool().lemma_given_all(order);
            lemma_pruning(f, sp, self);
            assert(order + Seq::<Token>::empty() =~= order);
            a0.lemma_pool();
            lemma_postorder_pruning(f0, sp, self);
        }
    }

    /// Whether this node is `root` or one of its descendants. A node that
    /// is to be attached below or beside this node must not have this node
    /// in its subtree.
    pub fn is_in_subtree_of<T>(self, arena: &Arena<T>, root: Token) -> (b: bool)
        requires
            arena.wf(),
            arena.contains(self),
        ensures
            b == in_subtree(arena.links(), root, self),
    {
        if self == root {
            return true;
        }
        let mut up = self.ancestors_tokens(arena);
        let ghost all = ancestors(arena.links(), self);
        let ghost mut i: int = 0;
        loop
            invariant
                up.wf(),
                up.arena() == *arena,
                self != root,
                all == ancestors(arena.links(), self),
                0 <= i <= all.len(),
                up.remaining() == all.skip(i),
                forall|k: int| 0 <= k < i ==> all[k] != root,
            decreases all.len() - i,
        {
            match up.next() {
                Some(token) => {
                    proof {
                        assert(all.skip(i)[0] == all[i]);
                        assert(all.skip(i).drop_first() =~= all.skip(i + 1));
                    }
                    if token == root {
                        proof {
                            assert(all[i] == root);
                        }
                        return true;
                    }
                    proof {
                        i = i + 1;
                    }
                },
                None => {
                    proof {
                        assert(all.skip(i).len() == 0);
                        if all.contains(root) {
                            let k = choose|k: int| 0 <= k < all.len() && all[k] == root;
                            assert(k < i);
                        }
                    }
                    return false;
                },
            }
        }
    }
}

impl Default for Token {
    /// The token of the first slot.
    fn default() -> (t: Token)
        ensures
            t == Token::at(1),
    {
        Token { index: 1 }
    }
}

} // verus!
