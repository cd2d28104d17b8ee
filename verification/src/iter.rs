//! A module that contains different kinds of iterators.
use vstd::prelude::*;
use std::collections::VecDeque;
use crate::arena::Arena;
use crate::forest::{
    by_next, by_parent, by_previous, children, is_orbit, lemma_children, lemma_nexts,
    lemma_orbit_rest, lemma_parents, lemma_previouses, linked, nested, orbit, stepped,
};
use crate::node::Node;
use crate::order::{
    TraversalState, first_leaf, lemma_advanced, lemma_after_subtree, lemma_first_leaf,
    lemma_started, post_step, pre_step,
};
use crate::token::Token;
pub use crate::order::{Branch, TraversalOrder};

verus! {

/// Finds the next node of the pre-order traversal of the subtree of `root`,
/// from the node `node_token` and the branch that is to be taken there.
/// Returns the next node and the branch to take from it, or no node and
/// `Branch::End` at the end of the traversal.
pub fn preorder_next<T>(node_token: Token, root: Token, branch: Branch, arena: &Arena<T>) -> (r: (
    Option<Token>,
    Branch,
))
    requires
        arena.wf(),
        arena.contains(node_token),
        !(branch is End),
    ensures
        r == pre_step(arena.links(), root, node_token, branch),
        r.0 matches Some(t) ==> arena.contains(t),
{
    let ghost f = arena.links();
    let ghost sp = arena.spans();
    let mut current = node_token;
    let mut side = branch;
    loop
        invariant
            arena.wf(),
            f == arena.links(),
            sp == arena.spans(),
            arena.contains(current),
            !(side is End),
            pre_step(f, root, current, side) == pre_step(f, root, node_token, branch),
        decreases
                sp[current].lo,
                (if side is Child {
                    1nat
                } else {
                    0nat
                }),
    {
        let node = arena.links_of(current);
        proof {
            assert(linked(f, current));
            assert(nested(f, sp, current));
            lemma_after_subtree(f, sp, root, current);
        }
        match side {
            Branch::End => {
                return (None, Branch::End);
            },
            Branch::Child => match node.first_child {
                Some(token) => {
                    return (Some(token), Branch::Child);
                },
                None => {
                    if current == root {
                        return (None, Branch::End);
                    } else {
                        side = Branch::Sibling;
                    }
                },
            },
            Branch::Sibling => match node.next_sibling {
                Some(token) => {
                    return (Some(token), Branch::Child);
                },
                None => match node.parent {
                    None => {
                        return (None, Branch::End);
                    },
                    Some(parent) => {
                        if parent == root {
                            return (None, Branch::End);
                        } else {
                            current = parent;
                            side = Branch::Sibling;
                        }
                    },
                },
            },
        }
    }
}

/// Finds the next node of the post-order traversal of the subtree of
/// `root`, from the node `node_token` and the branch that is to be taken
/// there. Returns the next node and the branch to take from it. The last
/// node is `root`, which comes with `Branch::End`.
pub fn postorder_next<T>(node_token: Token, root: Token, branch: Branch, arena: &Arena<T>) -> (r: (
    Option<Token>,
    Branch,
))
    requires
        arena.wf(),
        arena.contains(node_token),
    ensures
        r == post_step(arena.links(), root, node_token, branch),
        r.0 matches Some(t) ==> arena.contains(t),
{
    let ghost f = arena.links();
    let ghost sp = arena.spans();
    let mut current = node_token;
    let mut side = branch;
    let mut switch_branch = true;
    loop
        invariant
            arena.wf(),
            f == arena.links(),
            sp == arena.spans(),
            arena.contains(current),
            switch_branch ==> post_step(f, root, current, side) == post_step(
                f,
                root,
                node_token,
                branch,
            ),
            !switch_branch ==> side is Child && post_step(f, root, node_token, branch) == (
                Some(first_leaf(f, current)),
                Branch::Sibling,
            ),
        decreases
                sp[current].hi,
                (if side is Child {
                    1nat
                } else {
                    0nat
                }),
    {
        let node = arena.links_of(current);
        proof {
            assert(linked(f, current));
            assert(nested(f, sp, current));
            lemma_first_leaf(f, sp, current);
        }
        match side {
            Branch::End => {
                return (None, Branch::End);
            },
            Branch::Child => match node.first_child {
                Some(token) => {
                    proof {
                        assert(linked(f, token));
                        assert(nested(f, sp, token));
                    }
                    current = token;
                    switch_branch = false;
                },
                None => {
                    if !switch_branch {
                        return (Some(current), Branch::Sibling);
                    } else if current == root {
                        return (Some(root), Branch::End);
                    } else {
                        side = Branch::Sibling;
                    }
                },
            },
            Branch::Sibling => match node.next_sibling {
                Some(token) => {
                    proof {
                        lemma_first_leaf(f, sp, token);
                    }
                    switch_branch = false;
                    current = token;
                    side = Branch::Child;
                },
                None => match node.parent {
                    None => {
                        return (None, Branch::Child);
                    },
                    Some(parent) => {
                        if parent == root {
                            return (Some(root), Branch::End);
                        } else {
                            return (Some(parent), Branch::Sibling);
                        }
                    },
                },
            },
        }
    }
}

/// The state of the traversal of a subtree: the root, the order, and how
/// far the traversal has come.
pub struct Traversal {
    pub(crate) subtree_root: Token,
    pub(crate) node_token: Option<Token>,
    pub(crate) branch: Branch,
    pub(crate) curr_level: VecDeque<Token>,
    pub(crate) next_level: VecDeque<Token>,
    pub(crate) order: TraversalOrder,
}

impl View for Traversal {
    type V = TraversalState;

    /// The root, the order, and how far the traversal has come.
    closed spec fn view(&self) -> TraversalState {
        TraversalState {
            root: self.subtree_root,
            order: self.order,
            next: self.node_token,
            branch: self.branch,
            current_level: self.curr_level@,
            next_level: self.next_level@,
        }
    }
}

impl Traversal {
    /// The state in which the traversal of the subtree of `root` starts.
    pub fn new<T>(root: Token, arena: &Arena<T>, order: TraversalOrder) -> (state: Traversal)
        requires
            arena.wf(),
            arena.contains(root),
        ensures
            state@ == TraversalState::started(arena.links(), root, order),
            state@.wf(arena.links()),
    {
        proof {
            lemma_started(arena.links(), arena.spans(), root, order);
        }
        match order {
            TraversalOrder::Pre => Traversal {
                subtree_root: root,
                node_token: Some(root),
                branch: Branch::Child,
                curr_level: VecDeque::new(),
                next_level: VecDeque::new(),
                order,
            },
            TraversalOrder::Post => {
                let (node_token, branch) = postorder_next(root, root, Branch::Child, arena);
                Traversal {
                    subtree_root: root,
                    node_token,
                    branch,
                    curr_level: VecDeque::new(),
                    next_level: VecDeque::new(),
                    order,
                }
            },
            TraversalOrder::Level => {
                let mut curr_level = VecDeque::new();
                curr_level.push_back(root);
                let state = Traversal {
                    subtree_root: root,
                    node_token: None,
                    branch: Branch::End,
                    curr_level,
                    next_level: VecDeque::new(),
                    order,
                };
                proof {
                    assert(state@.current_level =~= seq![root]);
                }
                state
            },
        }
    }
}

/// One visit of a depth-first traversal: returns the node that is visited
/// and moves the state on by the step of its order.
pub fn depth_first_tokens_next<T>(state: &mut Traversal, arena: &Arena<T>) -> (r: Option<Token>)
    requires
        arena.wf(),
        old(state)@.wf(arena.links()),
        !(old(state)@.order is Level),
    ensures
        r == old(state)@.yielded(),
        final(state)@ == old(state)@.advanced(arena.links()),
        final(state)@.wf(arena.links()),
        r == (if old(state)@.remaining(arena.links(), arena.spans()).len() > 0 {
            Some(old(state)@.remaining(arena.links(), arena.spans())[0])
        } else {
            None
        }),
        final(state)@.remaining(arena.links(), arena.spans()) == (if r is Some {
            old(state)@.remaining(arena.links(), arena.spans()).drop_first()
        } else {
            old(state)@.remaining(arena.links(), arena.spans())
        }),
{
    proof {
        lemma_advanced(arena.links(), arena.spans(), old(state)@);
    }
    match state.node_token {
        None => None,
        Some(token) => {
            let (next_node, branch) = match state.order {
                TraversalOrder::Pre => preorder_next(token, state.subtree_root, state.branch, arena),
                _ => postorder_next(token, state.subtree_root, state.branch, arena),
            };
            state.node_token = next_node;
            state.branch = branch;
            Some(token)
        },
    }
}

/// One visit of the level-order traversal: takes the node that is visited
/// from the front of its level and puts its children at the back of the
/// next level. When the current level is used up the next level takes its
/// place.
pub fn breadth_first_tokens_next<T>(state: &mut Traversal, arena: &Arena<T>) -> (r: Option<Token>)
    requires
        arena.wf(),
        old(state)@.wf(arena.links()),
        old(state)@.order is Level,
    ensures
        r == old(state)@.yielded(),
        final(state)@ == old(state)@.advanced(arena.links()),
        final(state)@.wf(arena.links()),
        r == (if old(state)@.remaining(arena.links(), arena.spans()).len() > 0 {
            Some(old(state)@.remaining(arena.links(), arena.spans())[0])
        } else {
            None
        }),
        final(state)@.remaining(arena.links(), arena.spans()) == (if r is Some {
            old(state)@.remaining(arena.links(), arena.spans()).drop_first()
        } else {
            old(state)@.remaining(arena.links(), arena.spans())
        }),
{
    proof {
        lemma_advanced(arena.links(), arena.spans(), old(state)@);
    }
    if state.curr_level.len() == 0 {
        if state.next_level.len() == 0 {
            return None;
        }
        core::mem::swap(&mut state.curr_level, &mut state.next_level);
    }
    let token = match state.curr_level.pop_front() {
        Some(token) => token,
        None => vstd::pervasive::unreached(),
    };
    let ghost f = arena.links();
    let ghost level = state.curr_level@;
    let ghost before = state.next_level@;
    let ghost cs = children(f, token);
    let ghost mut i: int = 0;
    proof {
        assert(old(state)@.yielded() == Some(token));
        assert(f.contains_key(token));
        lemma_children(f, arena.spans(), token);
        assert(level =~= (if old(state)@.current_level.len() > 0 {
            old(state)@.current_level.drop_first()
        } else {
            old(state)@.next_level.drop_first()
        }));
        assert(before =~= (if old(state)@.current_level.len() > 0 {
            old(state)@.next_level
        } else {
            Seq::empty()
        }));
        assert forall|k: int| 0 <= k < level.len() implies f.contains_key(#[trigger] level[k]) by {
            if old(state)@.current_level.len() > 0 {
                assert(level[k] == old(state)@.current_level[k + 1]);
            } else {
                assert(level[k] == old(state)@.next_level[k + 1]);
            }
        }
        assert(before + cs.take(0) =~= before);
    }
    let mut child = arena.links_of(token).first_child;
    while child.is_some()
        invariant
            f == arena.links(),
            is_orbit(by_next(f), f[token].first_child, cs),
            forall|k: int| 0 <= k < cs.len() ==> f.contains_key(#[trigger] cs[k]),
            0 <= i <= cs.len(),
            child == (if i < cs.len() {
                Some(cs[i])
            } else {
                None
            }),
            state.next_level@ == before + cs.take(i),
            state.curr_level@ == level,
            state.subtree_root == old(state).subtree_root,
            state.order == old(state).order,
            state.node_token == old(state).node_token,
            state.branch == old(state).branch,
        decreases cs.len() - i,
    {
        let c = child.unwrap();
        proof {
            assert(stepped(by_next(f), cs, i));
            assert(cs.take(i).push(c) =~= cs.take(i + 1));
        }
        state.next_level.push_back(c);
        child = arena.links_of(c).next_sibling;
        proof {
            i = i + 1;
        }
    }
    proof {
        assert(cs.take(i) =~= cs);
    }
    Some(token)
}

/// An iterator of tokens of the subtree nodes of a given node.
///
/// This `struct` is created by the `subtree_tokens` methods on [`Token`]
/// and [`Node`].
pub struct SubtreeTokens<'a, T> {
    pub(crate) arena: &'a Arena<T>,
    pub(crate) state: Traversal,
}

impl<'a, T> SubtreeTokens<'a, T> {
    /// The arena that is traversed.
    pub closed spec fn arena(&self) -> Arena<T> {
        *self.arena
    }

    /// An iterator over `arena` that goes on from `state`.
    pub(crate) fn new(arena: &'a Arena<T>, state: Traversal) -> (it: Self)
        ensures
            it.arena() == *arena,
            it.state() == state@,
    {
        SubtreeTokens { arena, state }
    }

    /// How far the traversal has come.
    pub closed spec fn state(&self) -> TraversalState {
        self.state@
    }

    /// The arena is well formed and the nodes that the state names are in
    /// it.
    pub open spec fn wf(&self) -> bool {
        self.arena().wf() && self.state().wf(self.arena().links())
    }

    /// The tokens that are still to come.
    pub open spec fn remaining(&self) -> Seq<Token> {
        self.state().remaining(self.arena().links(), self.arena().spans())
    }

    /// The token of the node that is visited next, if the traversal has not
    /// ended.
    pub fn next(&mut self) -> (r: Option<Token>)
        requires
            old(self).wf(),
        ensures
            final(self).wf(),
            final(self).arena() == old(self).arena(),
            r == old(self).state().yielded(),
            final(self).state() == old(self).state().advanced(old(self).arena().links()),
            r matches Some(t) ==> old(self).arena().contains(t),
            r == (if old(self).remaining().len() > 0 {
                Some(old(self).remaining()[0])
            } else {
                None
            }),
            final(self).remaining() == (if r is Some {
                old(self).remaining().drop_first()
            } else {
                old(self).remaining()
            }),
    {
        proof {
            lemma_advanced(self.arena.links(), self.arena.spans(), self.state@);
        }
        match self.state.order {
            TraversalOrder::Level => breadth_first_tokens_next(&mut self.state, self.arena),
            _ => depth_first_tokens_next(&mut self.state, self.arena),
        }
    }
}

/// An iterator of references of the subtree nodes of a given node.
///
/// This `struct` is created by the `subtree` methods on [`Token`] and
/// [`Node`].
pub struct Subtree<'a, T> {
    pub(crate) arena: &'a Arena<T>,
    pub(crate) iter: SubtreeTokens<'a, T>,
}

impl<'a, T> Subtree<'a, T> {
    /// The iterator of tokens that this iterator follows.
    pub closed spec fn tokens(&self) -> SubtreeTokens<'a, T> {
        self.iter
    }

    /// An iterator of the nodes of `arena` whose tokens `iter` gives.
    pub(crate) fn new(arena: &'a Arena<T>, iter: SubtreeTokens<'a, T>) -> (it: Self)
        requires
            iter.wf(),
            iter.arena() == *arena,
        ensures
            it.wf(),
            it.tokens() == iter,
    {
        Subtree { arena, iter }
    }

    /// This iterator reads the nodes from the arena that its tokens come
    /// from, and that arena is well formed.
    pub closed spec fn wf(&self) -> bool {
        self.iter.wf() && *self.arena == self.iter.arena()
    }

    /// The node that is visited next, if the traversal has not ended.
    pub fn next(&mut self) -> (r: Option<&'a Node<T>>)
        requires
            old(self).wf(),
        ensures
            final(self).wf(),
            final(self).tokens().arena() == old(self).tokens().arena(),
            final(self).tokens().state() == old(self).tokens().state().advanced(
                old(self).tokens().arena().links(),
            ),
            match old(self).tokens().state().yielded() {
                Some(t) => r is Some && r.unwrap()@ == old(self).tokens().arena().node(t),
                None => r is None,
            },
    {
        match self.iter.next() {
            Some(node_token) => self.arena.get(node_token),
            None => None,
        }
    }
}

/// An iterator of mutable references of the subtree nodes of a given node.
///
/// This `struct` is created by the `subtree_mut` method on [`Token`]. It
/// holds the arena for as long as it lives and lends one node at a time.
pub struct SubtreeMut<'a, T> {
    pub(crate) arena: &'a mut Arena<T>,
    pub(crate) state: Traversal,
}

impl<'a, T> SubtreeMut<'a, T> {
    /// The arena that is traversed.
    pub closed spec fn arena(&self) -> Arena<T> {
        *self.arena
    }

    /// The borrow of the arena that the iterator holds.
    pub closed spec fn lent(&self) -> &'a mut Arena<T> {
        self.arena
    }

    /// Once the iterator is done with, the arena that was lent to it is as
    /// the iterator has left it.
    pub proof fn lemma_done(&self)
        requires
            has_resolved(*self),
        ensures
            *final(self.lent()) == self.arena(),
    {
    }

    /// An iterator over `arena` that goes on from `state`.
    pub(crate) fn new(arena: &'a mut Arena<T>, state: Traversal) -> (it: Self)
        ensures
            it.arena() == *old(arena),
            *final(it.lent()) == *final(arena),
            it.state() == state@,
    {
        SubtreeMut { arena, state }
    }

    /// How far the traversal has come.
    pub closed spec fn state(&self) -> TraversalState {
        self.state@
    }

    /// The arena is well formed and the nodes that the state names are in
    /// it.
    pub open spec fn wf(&self) -> bool {
        self.arena().wf() && self.state().wf(self.arena().links())
    }

    /// The node that is visited next, if the traversal has not ended, for
    /// changing in place. The traversal goes on by the links that the
    /// arena has when the node is handed out.
    pub fn next(&mut self) -> (r: Option<&mut Node<T>>)
        requires
            old(self).wf(),
        ensures
            match old(self).state().yielded() {
                Some(t) => {
                    &&& r is Some
                    &&& r.unwrap()@ == old(self).arena().node(t)
                    &&& final(self).arena().altered(old(self).arena(), t, *final(r.unwrap()))
                },
                None => r is None && final(self).arena() == old(self).arena(),
            },
            final(self).state() == old(self).state().advanced(old(self).arena().links()),
            final(self).state().wf(old(self).arena().links()),
            *final(final(self).lent()) == *final(old(self).lent()),
    {
        let next = match self.state.order {
            TraversalOrder::Level => breadth_first_tokens_next(&mut self.state, &*self.arena),
            _ => depth_first_tokens_next(&mut self.state, &*self.arena),
        };
        match next {
            Some(node_token) => self.arena.get_mut(node_token),
            None => None,
        }
    }
}

/// An iterator of tokens of siblings that follow a given node.
///
/// This `struct` is created by the `following_siblings_tokens` methods on [`Token`] and
/// [`Node`].
pub struct FollowingSiblingTokens<'a, T> {
    pub(crate) arena: &'a Arena<T>,
    pub(crate) node_token: Option<Token>,
}

impl<'a, T> FollowingSiblingTokens<'a, T> {
    /// The arena that is walked.
    pub closed spec fn arena(&self) -> Arena<T> {
        *self.arena
    }

    /// An iterator over `arena` that starts at `node_token`.
    pub(crate) fn new(arena: &'a Arena<T>, node_token: Option<Token>) -> (it: Self)
        ensures
            it.arena() == *arena,
            it.peek() == node_token,
    {
        FollowingSiblingTokens { arena, node_token }
    }

    /// The token that comes next.
    pub closed spec fn peek(&self) -> Option<Token> {
        self.node_token
    }

    /// The arena is well formed and the token that comes next is in it.
    pub open spec fn wf(&self) -> bool {
        self.arena().wf() && (self.peek() matches Some(t) ==> self.arena().contains(t))
    }

    /// The tokens that are still to come.
    pub open spec fn remaining(&self) -> Seq<Token> {
        orbit(by_next(self.arena().links()), self.peek())
    }

    /// The token that comes next, if any is left.
    pub fn next(&mut self) -> (r: Option<Token>)
        requires
            old(self).wf(),
        ensures
            final(self).wf(),
            final(self).arena() == old(self).arena(),
            r == old(self).peek(),
            r matches Some(t) ==> final(self).peek() == old(self).arena().links()[t].next_sibling,
            r == (if old(self).remaining().len() > 0 {
                Some(old(self).remaining()[0])
            } else {
                None
            }),
            final(self).remaining() == (if r is Some {
                old(self).remaining().drop_first()
            } else {
                old(self).remaining()
            }),
    {
        proof {
            let f = self.arena.links();
            lemma_nexts(f, self.arena.spans(), self.node_token);
            if self.node_token is Some {
                lemma_orbit_rest(by_next(f), self.node_token, orbit(by_next(f), self.node_token));
            }
        }
        match self.node_token {
            None => None,
            Some(token) => {
                proof {
                    assert(linked(self.arena.links(), token));
                }
                self.node_token = self.arena.links_of(token).next_sibling;
                Some(token)
            },
        }
    }
}

/// An iterator of tokens of siblings that precede a given node.
///
/// This `struct` is created by the `preceding_siblings_tokens` methods on [`Token`] and
/// [`Node`].
pub struct PrecedingSiblingTokens<'a, T> {
    pub(crate) arena: &'a Arena<T>,
    pub(crate) node_token: Option<Token>,
}

impl<'a, T> PrecedingSiblingTokens<'a, T> {
    /// The arena that is walked.
    pub closed spec fn arena(&self) -> Arena<T> {
        *self.arena
    }

    /// An iterator over `arena` that starts at `node_token`.
    pub(crate) fn new(arena: &'a Arena<T>, node_token: Option<Token>) -> (it: Self)
        ensures
            it.arena() == *arena,
            it.peek() == node_token,
    {
        PrecedingSiblingTokens { arena, node_token }
    }

    /// The token that comes next.
    pub closed spec fn peek(&self) -> Option<Token> {
        self.node_token
    }

    /// The arena is well formed and the token that comes next is in it.
    pub open spec fn wf(&self) -> bool {
        self.arena().wf() && (self.peek() matches Some(t) ==> self.arena().contains(t))
    }

    /// The tokens that are still to come.
    pub open spec fn remaining(&self) -> Seq<Token> {
        orbit(by_previous(self.arena().links()), self.peek())
    }

    /// The token that comes next, if any is left.
    pub fn next(&mut self) -> (r: Option<Token>)
        requires
            old(self).wf(),
        ensures
            final(self).wf(),
            final(self).arena() == old(self).arena(),
            r == old(self).peek(),
            r matches Some(t) ==> final(self).peek() == old(self).arena().links()[t].previous_sibling,
            r == (if old(self).remaining().len() > 0 {
                Some(old(self).remaining()[0])
            } else {
                None
            }),
            final(self).remaining() == (if r is Some {
                old(self).remaining().drop_first()
            } else {
                old(self).remaining()
            }),
    {
        proof {
            let f = self.arena.links();
            lemma_previouses(f, self.arena.spans(), self.node_token);
            if self.node_token is Some {
                lemma_orbit_rest(
                    by_previous(f),
                    self.node_token,
                    orbit(by_previous(f), self.node_token),
                );
            }
        }
        match self.node_token {
            None => None,
            Some(token) => {
                proof {
                    assert(linked(self.arena.links(), token));
                }
                self.node_token = self.arena.links_of(token).previous_sibling;
                Some(token)
            },
        }
    }
}

/// An iterator of tokens of the children of a given node.
///
/// This `struct` is created by the `children_tokens` methods on [`Token`] and
/// [`Node`].
pub struct ChildrenTokens<'a, T> {
    pub(crate) arena: &'a Arena<T>,
    pub(crate) node_token: Option<Token>,
}

impl<'a, T> ChildrenTokens<'a, T> {
    /// The arena that is walked.
    pub closed spec fn arena(&self) -> Arena<T> {
        *self.arena
    }

    /// An iterator over `arena` that starts at `node_token`.
    pub(crate) fn new(arena: &'a Arena<T>, node_token: Option<Token>) -> (it: Self)
        ensures
            it.arena() == *arena,
            it.peek() == node_token,
    {
        ChildrenTokens { arena, node_token }
    }

    /// The token that comes next.
    pub closed spec fn peek(&self) -> Option<Token> {
        self.node_token
    }

    /// The arena is well formed and the token that comes next is in it.
    pub open spec fn wf(&self) -> bool {
        self.arena().wf() && (self.peek() matches Some(t) ==> self.arena().contains(t))
    }

    /// The tokens that are still to come.
    pub open spec fn remaining(&self) -> Seq<Token> {
        orbit(by_next(self.arena().links()), self.peek())
    }

    /// The token that comes next, if any is left.
    pub fn next(&mut self) -> (r: Option<Token>)
        requires
            old(self).wf(),
        ensures
            final(self).wf(),
            final(self).arena() == old(self).arena(),
            r == old(self).peek(),
            r matches Some(t) ==> final(self).peek() == old(self).arena().links()[t].next_sibling,
            r == (if old(self).remaining().len() > 0 {
                Some(old(self).remaining()[0])
            } else {
                None
            }),
            final(self).remaining() == (if r is Some {
                old(self).remaining().drop_first()
            } else {
                old(self).remaining()
            }),
    {
        proof {
            let f = self.arena.links();
            lemma_nexts(f, self.arena.spans(), self.node_token);
            if self.node_token is Some {
                lemma_orbit_rest(by_next(f), self.node_token, orbit(by_next(f), self.node_token));
            }
        }
        match self.node_token {
            None => None,
            Some(token) => {
                proof {
                    assert(linked(self.arena.links(), token));
                }
                self.node_token = self.arena.links_of(token).next_sibling;
                Some(token)
            },
        }
    }
}

/// An iterator of tokens of the ancestors of a given node.
///
/// This `struct` is created by the `ancestors_tokens` methods on [`Token`] and
/// [`Node`].
pub struct AncestorTokens<'a, T> {
    pub(crate) arena: &'a Arena<T>,
    pub(crate) node_token: Option<Token>,
}

impl<'a, T> AncestorTokens<'a, T> {
    /// The arena that is walked.
    pub closed spec fn arena(&self) -> Arena<T> {
        *self.arena
    }

    /// An iterator over `arena` that starts at `node_token`.
    pub(crate) fn new(arena: &'a Arena<T>, node_token: Option<Token>) -> (it: Self)
        ensures
            it.arena() == *arena,
            it.peek() == node_token,
    {
        AncestorTokens { arena, node_token }
    }

    /// The token that comes next.
    pub closed spec fn peek(&self) -> Option<Token> {
        self.node_token
    }

    /// The arena is well formed and the token that comes next is in it.
    pub open spec fn wf(&self) -> bool {
        self.arena().wf() && (self.peek() matches Some(t) ==> self.arena().contains(t))
    }

    /// The tokens that are still to come.
    pub open spec fn remaining(&self) -> Seq<Token> {
        orbit(by_parent(self.arena().links()), self.peek())
    }

    /// The token that comes next, if any is left.
    pub fn next(&mut self) -> (r: Option<Token>)
        requires
            old(self).wf(),
        ensures
            final(self).wf(),
            final(self).arena() == old(self).arena(),
            r == old(self).peek(),
            r matches Some(t) ==> final(self).peek() == old(self).arena().links()[t].parent,
            r == (if old(self).remaining().len() > 0 {
                Some(old(self).remaining()[0])
            } else {
                None
            }),
            final(self).remaining() == (if r is Some {
                old(self).remaining().drop_first()
            } else {
                old(self).remaining()
            }),
    {
        proof {
            let f = self.arena.links();
            lemma_parents(f, self.arena.spans(), self.node_token);
            if self.node_token is Some {
                lemma_orbit_rest(by_parent(f), self.node_token, orbit(by_parent(f), self.node_token));
            }
        }
        match self.node_token {
            None => None,
            Some(token) => {
                proof {
                    assert(linked(self.arena.links(), token));
                }
                self.node_token = self.arena.links_of(token).parent;
                Some(token)
            },
        }
    }
}

/// An iterator of references to siblings that precede a given node.
///
/// This `struct` is created by the `preceding_siblings` methods on [`Token`] and
/// [`Node`].
pub struct PrecedingSiblings<'a, T> {
    pub(crate) token_iter: PrecedingSiblingTokens<'a, T>,
}

impl<'a, T> PrecedingSiblings<'a, T> {
    /// The iterator of tokens that this iterator follows.
    pub closed spec fn tokens(&self) -> PrecedingSiblingTokens<'a, T> {
        self.token_iter
    }

    /// An iterator of the nodes whose tokens `token_iter` gives.
    pub(crate) fn new(token_iter: PrecedingSiblingTokens<'a, T>) -> (it: Self)
        ensures
            it.tokens() == token_iter,
    {
        PrecedingSiblings { token_iter }
    }

    /// The node that comes next, if any is left.
    pub fn next(&mut self) -> (r: Option<&'a Node<T>>)
        requires
            old(self).tokens().wf(),
        ensures
            final(self).tokens().wf(),
            final(self).tokens().arena() == old(self).tokens().arena(),
            match old(self).tokens().peek() {
                Some(t) => r is Some && r.unwrap()@ == old(self).tokens().arena().node(t),
                None => r is None,
            },
            final(self).tokens().remaining() == (if r is Some {
                old(self).tokens().remaining().drop_first()
            } else {
                old(self).tokens().remaining()
            }),
    {
        match self.token_iter.next() {
            Some(node_token) => self.token_iter.arena.get(node_token),
            None => None,
        }
    }
}

/// An iterator of references to siblings that follow a given node.
///
/// This `struct` is created by the `following_siblings` methods on [`Token`] and
/// [`Node`].
pub struct FollowingSiblings<'a, T> {
    pub(crate) token_iter: FollowingSiblingTokens<'a, T>,
}

impl<'a, T> FollowingSiblings<'a, T> {
    /// The iterator of tokens that this iterator follows.
    pub closed spec fn tokens(&self) -> FollowingSiblingTokens<'a, T> {
        self.token_iter
    }

    /// An iterator of the nodes whose tokens `token_iter` gives.
    pub(crate) fn new(token_iter: FollowingSiblingTokens<'a, T>) -> (it: Self)
        ensures
            it.tokens() == token_iter,
    {
        FollowingSiblings { token_iter }
    }

    /// The node that comes next, if any is left.
    pub fn next(&mut self) -> (r: Option<&'a Node<T>>)
        requires
            old(self).tokens().wf(),
        ensures
            final(self).tokens().wf(),
            final(self).tokens().arena() == old(self).tokens().arena(),
            match old(self).tokens().peek() {
                Some(t) => r is Some && r.unwrap()@ == old(self).tokens().arena().node(t),
                None => r is None,
            },
            final(self).tokens().remaining() == (if r is Some {
                old(self).tokens().remaining().drop_first()
            } else {
                old(self).tokens().remaining()
            }),
    {
        match self.token_iter.next() {
            Some(node_token) => self.token_iter.arena.get(node_token),
            None => None,
        }
    }
}

/// An iterator of references to the children of a given node.
///
/// This `struct` is created by the `children` methods on [`Token`] and
/// [`Node`].
pub struct Children<'a, T> {
    pub(crate) token_iter: ChildrenTokens<'a, T>,
}

impl<'a, T> Children<'a, T> {
    /// The iterator of tokens that this iterator follows.
    pub closed spec fn tokens(&self) -> ChildrenTokens<'a, T> {
        self.token_iter
    }

    /// An iterator of the nodes whose tokens `token_iter` gives.
    pub(crate) fn new(token_iter: ChildrenTokens<'a, T>) -> (it: Self)
        ensures
            it.tokens() == token_iter,
    {
        Children { token_iter }
    }

    /// The node that comes next, if any is left.
    pub fn next(&mut self) -> (r: Option<&'a Node<T>>)
        requires
            old(self).tokens().wf(),
        ensures
            final(self).tokens().wf(),
            final(self).tokens().arena() == old(self).tokens().arena(),
            match old(self).tokens().peek() {
                Some(t) => r is Some && r.unwrap()@ == old(self).tokens().arena().node(t),
                None => r is None,
            },
            final(self).tokens().remaining() == (if r is Some {
                old(self).tokens().remaining().drop_first()
            } else {
                old(self).tokens().remaining()
            }),
    {
        match self.token_iter.next() {
            Some(node_token) => self.token_iter.arena.get(node_token),
            None => None,
        }
    }
}

/// An iterator of references to the ancestors of a given node.
///
/// This `struct` is created by the `ancestors` methods on [`Token`] and
/// [`Node`].
pub struct Ancestors<'a, T> {
    pub(crate) token_iter: AncestorTokens<'a, T>,
}

impl<'a, T> Ancestors<'a, T> {
    /// The iterator of tokens that this iterator follows.
    pub closed spec fn tokens(&self) -> AncestorTokens<'a, T> {
        self.token_iter
    }

    /// An iterator of the nodes whose tokens `token_iter` gives.
    pub(crate) fn new(token_iter: AncestorTokens<'a, T>) -> (it: Self)
        ensures
            it.tokens() == token_iter,
    {
        Ancestors { token_iter }
    }

    /// The node that comes next, if any is left.
    pub fn next(&mut self) -> (r: Option<&'a Node<T>>)
        requires
            old(self).tokens().wf(),
        ensures
            final(self).tokens().wf(),
            final(self).tokens().arena() == old(self).tokens().arena(),
            match old(self).tokens().peek() {
                Some(t) => r is Some && r.unwrap()@ == old(self).tokens().arena().node(t),
                None => r is None,
            },
            final(self).tokens().remaining() == (if r is Some {
                old(self).tokens().remaining().drop_first()
            } else {
                old(self).tokens().remaining()
            }),
    {
        match self.token_iter.next() {
            Some(node_token) => self.token_iter.arena.get(node_token),
            None => None,
        }
    }
}

/// An iterator of mutable references to siblings that precede a given node.
///
/// This `struct` is created by the `preceding_siblings_mut` method on [`Token`]. It
/// holds the arena for as long as it lives and lends one node at a time.
pub struct PrecedingSiblingsMut<'a, T> {
    pub(crate) arena: &'a mut Arena<T>,
    pub(crate) node_token: Option<Token>,
}

impl<'a, T> PrecedingSiblingsMut<'a, T> {
    /// The arena that is walked.
    pub closed spec fn arena(&self) -> Arena<T> {
        *self.arena
    }

    /// The borrow of the arena that the iterator holds.
    pub closed spec fn lent(&self) -> &'a mut Arena<T> {
        self.arena
    }

    /// Once the iterator is done with, the arena that was lent to it is as
    /// the iterator has left it.
    pub proof fn lemma_done(&self)
        requires
            has_resolved(*self),
        ensures
            *final(self.lent()) == self.arena(),
    {
    }

    /// An iterator over `arena` that starts at `node_token`.
    pub(crate) fn new(arena: &'a mut Arena<T>, node_token: Option<Token>) -> (it: Self)
        ensures
            it.arena() == *old(arena),
            *final(it.lent()) == *final(arena),
            it.peek() == node_token,
    {
        PrecedingSiblingsMut { arena, node_token }
    }

    /// The token of the node that comes next.
    pub closed spec fn peek(&self) -> Option<Token> {
        self.node_token
    }

    /// The arena is well formed and the token that comes next is in it.
    pub open spec fn wf(&self) -> bool {
        self.arena().wf() && (self.peek() matches Some(t) ==> self.arena().contains(t))
    }

    /// The node that comes next, if any is left, for changing in place.
    /// The walk goes on by the links that the node has when it is handed
    /// out.
    pub fn next(&mut self) -> (r: Option<&mut Node<T>>)
        requires
            old(self).wf(),
        ensures
            match old(self).peek() {
                Some(t) => {
                    &&& r is Some
                    &&& r.unwrap()@ == old(self).arena().node(t)
                    &&& final(self).arena().altered(old(self).arena(), t, *final(r.unwrap()))
                    &&& final(self).peek() == old(self).arena().links()[t].previous_sibling
                },
                None => {
                    &&& r is None
                    &&& final(self).arena() == old(self).arena()
                    &&& final(self).peek() is None
                },
            },
            final(self).peek() matches Some(t) ==> old(self).arena().contains(t),
            *final(final(self).lent()) == *final(old(self).lent()),
    {
        match self.node_token {
            None => None,
            Some(token) => {
                proof {
                    assert(linked(self.arena.links(), token));
                }
                self.node_token = self.arena.links_of(token).previous_sibling;
                self.arena.get_mut(token)
            },
        }
    }
}

/// An iterator of mutable references to siblings that follow a given node.
///
/// This `struct` is created by the `following_siblings_mut` method on [`Token`]. It
/// holds the arena for as long as it lives and lends one node at a time.
pub struct FollowingSiblingsMut<'a, T> {
    pub(crate) arena: &'a mut Arena<T>,
    pub(crate) node_token: Option<Token>,
}

impl<'a, T> FollowingSiblingsMut<'a, T> {
    /// The arena that is walked.
    pub closed spec fn arena(&self) -> Arena<T> {
        *self.arena
    }

    /// The borrow of the arena that the iterator holds.
    pub closed spec fn lent(&self) -> &'a mut Arena<T> {
        self.arena
    }

    /// Once the iterator is done with, the arena that was lent to it is as
    /// the iterator has left it.
    pub proof fn lemma_done(&self)
        requires
            has_resolved(*self),
        ensures
            *final(self.lent()) == self.arena(),
    {
    }

    /// An iterator over `arena` that starts at `node_token`.
    pub(crate) fn new(arena: &'a mut Arena<T>, node_token: Option<Token>) -> (it: Self)
        ensures
            it.arena() == *old(arena),
            *final(it.lent()) == *final(arena),
            it.peek() == node_token,
    {
        FollowingSiblingsMut { arena, node_token }
    }

    /// The token of the node that comes next.
    pub closed spec fn peek(&self) -> Option<Token> {
        self.node_token
    }

    /// The arena is well formed and the token that comes next is in it.
    pub open spec fn wf(&self) -> bool {
        self.arena().wf() && (self.peek() matches Some(t) ==> self.arena().contains(t))
    }

    /// The node that comes next, if any is left, for changing in place.
    /// The walk goes on by the links that the node has when it is handed
    /// out.
    pub fn next(&mut self) -> (r: Option<&mut Node<T>>)
        requires
            old(self).wf(),
        ensures
            match old(self).peek() {
                Some(t) => {
                    &&& r is Some
                    &&& r.unwrap()@ == old(self).arena().node(t)
                    &&& final(self).arena().altered(old(self).arena(), t, *final(r.unwrap()))
                    &&& final(self).peek() == old(self).arena().links()[t].next_sibling
                },
                None => {
                    &&& r is None
                    &&& final(self).arena() == old(self).arena()
                    &&& final(self).peek() is None
                },
            },
            final(self).peek() matches Some(t) ==> old(self).arena().contains(t),
            *final(final(self).lent()) == *final(old(self).lent()),
    {
        match self.node_token {
            None => None,
            Some(token) => {
                proof {
                    assert(linked(self.arena.links(), token));
                }
                self.node_token = self.arena.links_of(token).next_sibling;
                self.arena.get_mut(token)
            },
        }
    }
}

/// An iterator of mutable references to the children of a given node.
///
/// This `struct` is created by the `children_mut` method on [`Token`]. It
/// holds the arena for as long as it lives and lends one node at a time.
pub struct ChildrenMut<'a, T> {
    pub(crate) arena: &'a mut Arena<T>,
    pub(crate) node_token: Option<Token>,
}

impl<'a, T> ChildrenMut<'a, T> {
    /// The arena that is walked.
    pub closed spec fn arena(&self) -> Arena<T> {
        *self.arena
    }

    /// The borrow of the arena that the iterator holds.
    pub closed spec fn lent(&self) -> &'a mut Arena<T> {
        self.arena
    }

    /// Once the iterator is done with, the arena that was lent to it is as
    /// the iterator has left it.
    pub proof fn lemma_done(&self)
        requires
            has_resolved(*self),
        ensures
            *final(self.lent()) == self.arena(),
    {
    }

    /// An iterator over `arena` that starts at `node_token`.
    pub(crate) fn new(arena: &'a mut Arena<T>, node_token: Option<Token>) -> (it: Self)
        ensures
            it.arena() == *old(arena),
            *final(it.lent()) == *final(arena),
            it.peek() == node_token,
    {
        ChildrenMut { arena, node_token }
    }

    /// The token of the node that comes next.
    pub closed spec fn peek(&self) -> Option<Token> {
        self.node_token
    }

    /// The arena is well formed and the token that comes next is in it.
    pub open spec fn wf(&self) -> bool {
        self.arena().wf() && (self.peek() matches Some(t) ==> self.arena().contains(t))
    }

    /// The node that comes next, if any is left, for changing in place.
    /// The walk goes on by the links that the node has when it is handed
    /// out.
    pub fn next(&mut self) -> (r: Option<&mut Node<T>>)
        requires
            old(self).wf(),
        ensures
            match old(self).peek() {
                Some(t) => {
                    &&& r is Some
                    &&& r.unwrap()@ == old(self).arena().node(t)
                    &&& final(self).arena().altered(old(self).arena(), t, *final(r.unwrap()))
                    &&& final(self).peek() == old(self).arena().links()[t].next_sibling
                },
                None => {
                    &&& r is None
                    &&& final(self).arena() == old(self).arena()
                    &&& final(self).peek() is None
                },
            },
            final(self).peek() matches Some(t) ==> old(self).arena().contains(t),
            *final(final(self).lent()) == *final(old(self).lent()),
    {
        match self.node_token {
            None => None,
            Some(token) => {
                proof {
                    assert(linked(self.arena.links(), token));
                }
                self.node_token = self.arena.links_of(token).next_sibling;
                self.arena.get_mut(token)
            },
        }
    }
}

/// An iterator of mutable references to the ancestors of a given node.
///
/// This `struct` is created by the `ancestors_mut` method on [`Token`]. It
/// holds the arena for as long as it lives and lends one node at a time.
pub struct AncestorsMut<'a, T> {
    pub(crate) arena: &'a mut Arena<T>,
    pub(crate) node_token: Option<Token>,
}

impl<'a, T> AncestorsMut<'a, T> {
    /// The arena that is walked.
    pub closed spec fn arena(&self) -> Arena<T> {
        *self.arena
    }

    /// The borrow of the arena that the iterator holds.
    pub closed spec fn lent(&self) -> &'a mut Arena<T> {
        self.arena
    }

    /// Once the iterator is done with, the arena that was lent to it is as
    /// the iterator has left it.
    pub proof fn lemma_done(&self)
        requires
            has_resolved(*self),
        ensures
            *final(self.lent()) == self.arena(),
    {
    }

    /// An iterator over `arena` that starts at `node_token`.
    pub(crate) fn new(arena: &'a mut Arena<T>, node_token: Option<Token>) -> (it: Self)
        ensures
            it.arena() == *old(arena),
            *final(it.lent()) == *final(arena),
            it.peek() == node_token,
    {
        AncestorsMut { arena, node_token }
    }

    /// The token of the node that comes next.
    pub closed spec fn peek(&self) -> Option<Token> {
        self.node_token
    }

    /// The arena is well formed and the token that comes next is in it.
    pub open spec fn wf(&self) -> bool {
        self.arena().wf() && (self.peek() matches Some(t) ==> self.arena().contains(t))
    }

    /// The node that comes next, if any is left, for changing in place.
    /// The walk goes on by the links that the node has when it is handed
    /// out.
    pub fn next(&mut self) -> (r: Option<&mut Node<T>>)
        requires
            old(self).wf(),
        ensures
            match old(self).peek() {
                Some(t) => {
                    &&& r is Some
                    &&& r.unwrap()@ == old(self).arena().node(t)
                    &&& final(self).arena().altered(old(self).arena(), t, *final(r.unwrap()))
                    &&& final(self).peek() == old(self).arena().links()[t].parent
                },
                None => {
                    &&& r is None
                    &&& final(self).arena() == old(self).arena()
                    &&& final(self).peek() is None
                },
            },
            final(self).peek() matches Some(t) ==> old(self).arena().contains(t),
            *final(final(self).lent()) == *final(old(self).lent()),
    {
        match self.node_token {
            None => None,
            Some(token) => {
                proof {
                    assert(linked(self.arena.links(), token));
                }
                self.node_token = self.arena.links_of(token).parent;
                self.arena.get_mut(token)
            },
        }
    }
}

} // verus!
