//! The orders in which a subtree is traversed: what node follows what.
use vstd::prelude::*;
use crate::forest::{
    Forest, Spans, ancestors, by_first_child, children, descending, forest_wf, in_subtree,
    is_orbit, lemma_ancestor_spans, lemma_ancestors_step, lemma_ancestors_up, lemma_children,
    lemma_first_children, lemma_orbit_exists, lemma_orbit_rest, lemma_subtree_step, linked,
    nested, orbit,
};
use crate::token::Token;

verus! {

/// A flag for the branch the next step of a traversal takes.
#[derive(Clone, Copy, Debug, PartialEq, Eq, Structural)]
pub enum Branch {
    /// The sibling branch: the node's subtree has been dealt with.
    Sibling,
    /// The child branch: the node's subtree is still to be entered.
    Child,
    /// End of iteration.
    End,
}

/// The order in which tree traversal takes place.
#[derive(Clone, Copy, Debug, PartialEq, Eq, Structural)]
pub enum TraversalOrder {
    /// Pre-order (depth-first traversal)
    Pre,
    /// Post-order (depth-first traversal)
    Post,
    /// Level-order (breadth-first traversal)
    Level,
}

/// The link from a node to its parent, unless the parent is `root`.
pub open spec fn by_parent_below(f: Forest, root: Token) -> spec_fn(Token) -> Option<Token> {
    |t: Token|
        match f[t].parent {
            Some(p) => if p == root {
                None
            } else {
                Some(p)
            },
            None => None,
        }
}

/// The way up from `t`: `t`, its parent, and so on, as far as the child of
/// `root` or, where `root` is no ancestor of `t`, as far as there are
/// parents.
pub open spec fn climb(f: Forest, root: Token, t: Token) -> Seq<Token> {
    orbit(by_parent_below(f, root), Some(t))
}

/// The next sibling of the first node of `path` that has one.
pub open spec fn first_next(f: Forest, path: Seq<Token>) -> Option<Token>
    decreases path.len(),
{
    if path.len() == 0 {
        None
    } else if f[path[0]].next_sibling is Some {
        f[path[0]].next_sibling
    } else {
        first_next(f, path.drop_first())
    }
}

/// The node that is next in pre-order after the whole subtree of `t`: the
/// next sibling of `t` or, failing that, of the nearest ancestor below
/// `root` that has one.
pub open spec fn after_subtree(f: Forest, root: Token, t: Token) -> Option<Token> {
    first_next(f, climb(f, root, t))
}

/// One step of the pre-order traversal of the subtree of `root`, from the
/// node `t`. On the child branch the step goes to the first child of `t`;
/// if there is none, or on the sibling branch, it goes to what comes after
/// the subtree of `t`. From a `root` without children there is no step.
pub open spec fn pre_step(f: Forest, root: Token, t: Token, branch: Branch) -> (
    Option<Token>,
    Branch,
) {
    let next = match branch {
        Branch::Child => if f[t].first_child is Some {
            f[t].first_child
        } else if t == root {
            None
        } else {
            after_subtree(f, root, t)
        },
        Branch::Sibling => after_subtree(f, root, t),
        Branch::End => None,
    };
    (
        next,
        if next is Some {
            Branch::Child
        } else {
            Branch::End
        },
    )
}

/// The node reached from `t` by going to the first child as long as there
/// is one.
pub open spec fn first_leaf(f: Forest, t: Token) -> Token {
    orbit(by_first_child(f), Some(t)).last()
}

/// One step of the post-order traversal on the sibling branch: to the
/// first leaf below the next sibling of `t` or, if `t` is the last of its
/// siblings, to its parent, which ends the traversal if it is `root`.
pub open spec fn post_after(f: Forest, root: Token, t: Token) -> (Option<Token>, Branch) {
    match f[t].next_sibling {
        Some(s) => (Some(first_leaf(f, s)), Branch::Sibling),
        None => match f[t].parent {
            Some(p) => if p == root {
                (Some(root), Branch::End)
            } else {
                (Some(p), Branch::Sibling)
            },
            None => (None, Branch::Child),
        },
    }
}

/// One step of the post-order traversal of the subtree of `root`, from the
/// node `t`. On the child branch the step goes down to the first leaf
/// below `t`; from a leaf it is the step of the sibling branch, and from a
/// `root` that is a leaf the step stays there and ends the traversal.
pub open spec fn post_step(f: Forest, root: Token, t: Token, branch: Branch) -> (
    Option<Token>,
    Branch,
) {
    match branch {
        Branch::End => (None, Branch::End),
        Branch::Child => if f[t].first_child is Some {
            (Some(first_leaf(f, t)), Branch::Sibling)
        } else if t == root {
            (Some(root), Branch::End)
        } else {
            post_after(f, root, t)
        },
        Branch::Sibling => post_after(f, root, t),
    }
}

/// What comes after the subtree of a node is its next sibling, or else what
/// comes after the subtree of its parent, if that is below the root. It is
/// a node of the forest whose interval lies below that of the node.
pub proof fn lemma_after_subtree(f: Forest, sp: Spans, root: Token, t: Token)
    requires
        forest_wf(f, sp),
        f.contains_key(t),
    ensures
        after_subtree(f, root, t) == (match f[t].next_sibling {
            Some(s) => Some(s),
            None => match f[t].parent {
                Some(p) => if p == root {
                    None
                } else {
                    after_subtree(f, root, p)
                },
                None => None,
            },
        }),
        after_subtree(f, root, t) matches Some(s) ==> f.contains_key(s) && sp[s].hi < sp[t].lo,
    decreases sp[t].lo,
{
    let succ = by_parent_below(f, root);
    let rank = |u: Token| sp[u].lo;
    let inv = |u: Token| f.contains_key(u);
    assert forall|u: Token| #[trigger] descending(succ, rank, inv, u) by {
        if f.contains_key(u) {
            assert(linked(f, u));
            assert(nested(f, sp, u));
        }
    }
    let path = lemma_orbit_exists(succ, rank, inv, Some(t));
    lemma_orbit_rest(succ, Some(t), path);
    assert(linked(f, t));
    assert(nested(f, sp, t));
    let rest = path.drop_first();
    assert(path[0] == t);
    assert(first_next(f, path) == (if f[t].next_sibling is Some {
        f[t].next_sibling
    } else {
        first_next(f, rest)
    }));
    match f[t].next_sibling {
        Some(s) => {
            assert(linked(f, s));
        },
        None => match f[t].parent {
            Some(p) => {
                if p != root {
                    lemma_after_subtree(f, sp, root, p);
                    assert(rest == climb(f, root, p));
                } else {
                    assert(rest.len() == 0);
                    assert(first_next(f, rest) is None);
                }
            },
            None => {
                assert(rest.len() == 0);
                assert(first_next(f, rest) is None);
            },
        },
    }
}

/// The first leaf below a node is the node itself if it is a leaf, and
/// else the first leaf below its first child. It is a leaf of the forest
/// whose interval lies within that of the node.
pub proof fn lemma_first_leaf(f: Forest, sp: Spans, t: Token)
    requires
        forest_wf(f, sp),
        f.contains_key(t),
    ensures
        first_leaf(f, t) == (match f[t].first_child {
            Some(c) => first_leaf(f, c),
            None => t,
        }),
        f.contains_key(first_leaf(f, t)),
        f[first_leaf(f, t)].first_child is None,
        sp[t].lo <= sp[first_leaf(f, t)].lo,
        sp[first_leaf(f, t)].hi <= sp[t].hi,
    decreases sp[t].hi,
{
    let succ = by_first_child(f);
    lemma_first_children(f, sp, Some(t));
    let path = orbit(succ, Some(t));
    lemma_orbit_rest(succ, Some(t), path);
    assert(linked(f, t));
    match f[t].first_child {
        Some(c) => {
            assert(linked(f, c));
            assert(nested(f, sp, c));
            lemma_first_leaf(f, sp, c);
            lemma_first_children(f, sp, Some(c));
            assert(path.drop_first().last() == path.last());
        },
        None => {},
    }
}

/// The step from a node to the next in the pre-order of the subtree of
/// `root`.
pub open spec fn by_preorder(f: Forest, root: Token) -> spec_fn(Token) -> Option<Token> {
    |t: Token| pre_step(f, root, t, Branch::Child).0
}

/// The nodes that the pre-order traversal of the subtree of `root` visits,
/// in order: each node before its children, and the children in their
/// order.
pub open spec fn preorder(f: Forest, root: Token) -> Seq<Token> {
    orbit(by_preorder(f, root), Some(root))
}

/// The step from a node to the next in the post-order of the subtree of
/// `root`, which ends at `root`.
pub open spec fn by_postorder(f: Forest, root: Token) -> spec_fn(Token) -> Option<Token> {
    |t: Token|
        if t == root {
            None
        } else {
            post_after(f, root, t).0
        }
}

/// The nodes that the post-order traversal of the subtree of `root`
/// visits, in order: the children of each node in their order, and each
/// node after its children.
pub open spec fn postorder(f: Forest, root: Token) -> Seq<Token> {
    orbit(by_postorder(f, root), Some(first_leaf(f, root)))
}

/// The pre-order from any node on ends, goes through nodes of the forest
/// only, and to intervals that end lower and lower: no node comes twice.
pub proof fn lemma_preorder_from(f: Forest, sp: Spans, root: Token, start: Option<Token>)
    requires
        forest_wf(f, sp),
        start matches Some(t) ==> f.contains_key(t),
    ensures
        is_orbit(by_preorder(f, root), start, orbit(by_preorder(f, root), start)),
        forall|i: int|
            0 <= i < orbit(by_preorder(f, root), start).len() ==> f.contains_key(
                #[trigger] orbit(by_preorder(f, root), start)[i],
            ),
        forall|i: int|
            0 <= i < orbit(by_preorder(f, root), start).len() ==> sp[#[trigger] orbit(
                by_preorder(f, root),
                start,
            )[i]].hi <= sp[start.unwrap()].hi,
{
    let succ = by_preorder(f, root);
    let rank = |t: Token| sp[t].hi;
    let inv = |t: Token| f.contains_key(t);
    assert forall|t: Token| #[trigger] descending(succ, rank, inv, t) by {
        if f.contains_key(t) {
            assert(linked(f, t));
            assert(nested(f, sp, t));
            lemma_after_subtree(f, sp, root, t);
            match f[t].first_child {
                Some(c) => {
                    assert(nested(f, sp, c));
                },
                None => {},
            }
        }
    }
    lemma_orbit_exists(succ, rank, inv, start);
}

/// A node of a subtree, other than its root, has a parent and siblings in
/// the subtree, and so are the first leaves below them.
pub proof fn lemma_post_after(f: Forest, sp: Spans, root: Token, t: Token)
    requires
        forest_wf(f, sp),
        f.contains_key(t),
        t != root,
        in_subtree(f, root, t),
    ensures
        post_after(f, root, t).0 matches Some(u) && f.contains_key(u) && in_subtree(f, root, u)
            && sp[u].lo < sp[t].lo,
        post_after(f, root, t).1 == (if post_after(f, root, t).0 == Some(root) {
            Branch::End
        } else {
            Branch::Sibling
        }),
{
    assert(linked(f, t));
    assert(nested(f, sp, t));
    lemma_subtree_step(f, sp, root, t);
    lemma_ancestor_spans(f, sp, t, root);
    let p = f[t].parent.unwrap();
    assert(linked(f, p));
    match f[t].next_sibling {
        Some(s) => {
            assert(linked(f, s));
            assert(nested(f, sp, s));
            lemma_first_leaf(f, sp, s);
            let u = first_leaf(f, s);
            assert(nested(f, sp, u));
            if s != root {
                lemma_subtree_step(f, sp, root, s);
            } else {
                if p != root {
                    lemma_ancestor_spans(f, sp, p, root);
                }
            }
            lemma_first_leaf_within(f, sp, s);
            if u != s {
                if ancestors(f, s).contains(root) {
                    lemma_ancestors_up(f, sp, u, s, root);
                }
            }
        },
        None => {},
    }
}

/// The first leaf below a node is the node or one of its descendants.
pub proof fn lemma_first_leaf_within(f: Forest, sp: Spans, x: Token)
    requires
        forest_wf(f, sp),
        f.contains_key(x),
    ensures
        in_subtree(f, x, first_leaf(f, x)),
    decreases sp[x].hi,
{
    assert(linked(f, x));
    lemma_first_leaf(f, sp, x);
    match f[x].first_child {
        Some(c) => {
            assert(linked(f, c));
            assert(nested(f, sp, c));
            lemma_first_leaf(f, sp, c);
            lemma_ancestors_step(f, sp, c);
            assert(ancestors(f, c)[0] == x);
            lemma_first_leaf_within(f, sp, c);
            if first_leaf(f, c) != c {
                lemma_ancestors_up(f, sp, first_leaf(f, c), c, x);
            }
        },
        None => {},
    }
}

/// The post-order from any node of the subtree on ends, goes through nodes
/// of the subtree only, and to intervals that begin lower and lower: no
/// node comes twice.
pub proof fn lemma_postorder_from(f: Forest, sp: Spans, root: Token, start: Option<Token>)
    requires
        forest_wf(f, sp),
        start matches Some(t) ==> f.contains_key(t) && in_subtree(f, root, t),
    ensures
        is_orbit(by_postorder(f, root), start, orbit(by_postorder(f, root), start)),
        forall|i: int|
            0 <= i < orbit(by_postorder(f, root), start).len() ==> f.contains_key(
                #[trigger] orbit(by_postorder(f, root), start)[i],
            ) && in_subtree(f, root, orbit(by_postorder(f, root), start)[i]),
{
    let succ = by_postorder(f, root);
    let rank = |t: Token| sp[t].lo;
    let inv = |t: Token| f.contains_key(t) && in_subtree(f, root, t);
    assert forall|t: Token| #[trigger] descending(succ, rank, inv, t) by {
        if f.contains_key(t) && in_subtree(f, root, t) && t != root {
            lemma_post_after(f, sp, root, t);
        }
    }
    lemma_orbit_exists(succ, rank, inv, start);
}

/// The children of the nodes of a level, in the order of the nodes: the
/// next level.
pub open spec fn level_children(f: Forest, level: Seq<Token>) -> Seq<Token>
    decreases level.len(),
{
    if level.len() == 0 {
        Seq::empty()
    } else {
        children(f, level[0]) + level_children(f, level.drop_first())
    }
}

/// A number above the upper ends of the intervals of the nodes of a level.
pub open spec fn level_rank(sp: Spans, level: Seq<Token>) -> nat
    decreases level.len(),
{
    if level.len() == 0 {
        0
    } else if sp[level[0]].hi + 1 > level_rank(sp, level.drop_first()) {
        sp[level[0]].hi + 1
    } else {
        level_rank(sp, level.drop_first())
    }
}

/// Every node of the level is a node of the forest.
pub open spec fn level_in(f: Forest, level: Seq<Token>) -> bool {
    forall|i: int| 0 <= i < level.len() ==> f.contains_key(#[trigger] level[i])
}

/// The nodes of a level and of the levels below it, level by level. `sp`
/// is a witness that the forest is well formed.
pub open spec fn levels_from(f: Forest, sp: Spans, level: Seq<Token>) -> Seq<Token>
    decreases level_rank(sp, level),
    when forest_wf(f, sp) && level_in(f, level)
    via levels_end
{
    if level.len() == 0 {
        Seq::empty()
    } else {
        level + levels_from(f, sp, level_children(f, level))
    }
}

/// The next level has a lower rank, so the levels come to an end.
#[via_fn]
proof fn levels_end(f: Forest, sp: Spans, level: Seq<Token>) {
    if level.len() > 0 {
        lemma_level_children(f, sp, level);
    }
}

/// The nodes that the level-order traversal of the subtree of `root`
/// visits, in order: the root, its children, their children, and so on.
pub open spec fn levelorder(f: Forest, sp: Spans, root: Token) -> Seq<Token> {
    levels_from(f, sp, seq![root])
}

/// The next level lies in the forest and has a lower rank.
pub proof fn lemma_level_children(f: Forest, sp: Spans, level: Seq<Token>)
    requires
        forest_wf(f, sp),
        level_in(f, level),
    ensures
        level_in(f, level_children(f, level)),
        level.len() > 0 ==> level_rank(sp, level_children(f, level)) < level_rank(sp, level),
        level.len() == 0 ==> level_children(f, level).len() == 0,
    decreases level.len(),
{
    if level.len() > 0 {
        let first = level[0];
        let rest = level.drop_first();
        assert(f.contains_key(first));
        assert forall|i: int| 0 <= i < rest.len() implies f.contains_key(#[trigger] rest[i]) by {
            assert(rest[i] == level[i + 1]);
        }
        lemma_level_children(f, sp, rest);
        lemma_children(f, sp, first);
        let cs = children(f, first);
        let below = level_children(f, rest);
        assert forall|i: int| 0 <= i < cs.len() implies sp[#[trigger] cs[i]].hi < sp[first].hi by {
            assert(nested(f, sp, cs[i]));
        }
        lemma_level_rank_below(sp, cs, sp[first].hi);
        lemma_level_rank_add(sp, cs, below);
        let all = level_children(f, level);
        assert forall|i: int| 0 <= i < all.len() implies f.contains_key(#[trigger] all[i]) by {
            if i >= cs.len() {
                assert(all[i] == below[i - cs.len()]);
            }
        }
    }
}

/// The rank of a level whose intervals end below `bound` is at most
/// `bound`.
pub proof fn lemma_level_rank_below(sp: Spans, level: Seq<Token>, bound: nat)
    requires
        forall|i: int| 0 <= i < level.len() ==> sp[#[trigger] level[i]].hi < bound,
    ensures
        level_rank(sp, level) <= bound,
    decreases level.len(),
{
    if level.len() > 0 {
        let rest = level.drop_first();
        assert(sp[level[0]].hi < bound);
        assert forall|i: int| 0 <= i < rest.len() implies sp[#[trigger] rest[i]].hi < bound by {
            assert(rest[i] == level[i + 1]);
        }
        lemma_level_rank_below(sp, rest, bound);
    }
}

/// The rank of two levels put together is the greater of their ranks.
pub proof fn lemma_level_rank_add(sp: Spans, a: Seq<Token>, b: Seq<Token>)
    ensures
        level_rank(sp, a + b) == (if level_rank(sp, a) > level_rank(sp, b) {
            level_rank(sp, a)
        } else {
            level_rank(sp, b)
        }),
    decreases a.len(),
{
    if a.len() == 0 {
        assert(a + b =~= b);
    } else {
        assert((a + b).drop_first() =~= a.drop_first() + b);
        lemma_level_rank_add(sp, a.drop_first(), b);
    }
}

/// The levels from a level on are that level and the levels from the next
/// level on.
pub proof fn lemma_levels_from(f: Forest, sp: Spans, level: Seq<Token>)
    requires
        forest_wf(f, sp),
        level_in(f, level),
    ensures
        levels_from(f, sp, level) == (if level.len() == 0 {
            Seq::empty()
        } else {
            level + levels_from(f, sp, level_children(f, level))
        }),
{
    lemma_level_children(f, sp, level);
}

/// The children of the nodes of two levels put together.
pub proof fn lemma_level_children_add(f: Forest, a: Seq<Token>, b: Seq<Token>)
    ensures
        level_children(f, a + b) == level_children(f, a) + level_children(f, b),
    decreases a.len(),
{
    if a.len() == 0 {
        assert(a + b =~= b);
        assert(level_children(f, a) + level_children(f, b) =~= level_children(f, b));
    } else {
        assert((a + b).drop_first() =~= a.drop_first() + b);
        assert((a + b)[0] == a[0]);
        lemma_level_children_add(f, a.drop_first(), b);
        assert(level_children(f, a + b) =~= level_children(f, a) + level_children(f, b));
    }
}

/// The state of the traversal of a subtree.
pub struct TraversalState {
    /// The root of the subtree.
    pub root: Token,
    /// The order of the traversal.
    pub order: TraversalOrder,
    /// In the depth-first orders, the node that comes next.
    pub next: Option<Token>,
    /// In the depth-first orders, the branch to take from the next node.
    pub branch: Branch,
    /// In level order, what is left of the level that is being visited.
    pub current_level: Seq<Token>,
    /// In level order, the children of the nodes visited on this level.
    pub next_level: Seq<Token>,
}

impl TraversalState {
    /// The state in which the traversal of the subtree of `root` starts.
    /// Pre-order starts at the root, post-order at the first leaf, and
    /// level order with the root as the only node of its level.
    pub open spec fn started(f: Forest, root: Token, order: TraversalOrder) -> TraversalState {
        match order {
            TraversalOrder::Pre => TraversalState {
                root,
                order,
                next: Some(root),
                branch: Branch::Child,
                current_level: Seq::empty(),
                next_level: Seq::empty(),
            },
            TraversalOrder::Post => TraversalState {
                root,
                order,
                next: post_step(f, root, root, Branch::Child).0,
                branch: post_step(f, root, root, Branch::Child).1,
                current_level: Seq::empty(),
                next_level: Seq::empty(),
            },
            TraversalOrder::Level => TraversalState {
                root,
                order,
                next: None,
                branch: Branch::End,
                current_level: seq![root],
                next_level: Seq::empty(),
            },
        }
    }

    /// The node that the traversal visits in this state, if it has not
    /// ended. In level order this is the front of the current level, or of
    /// the next level once the current one is used up.
    pub open spec fn yielded(self) -> Option<Token> {
        match self.order {
            TraversalOrder::Level => if self.current_level.len() > 0 {
                Some(self.current_level[0])
            } else if self.next_level.len() > 0 {
                Some(self.next_level[0])
            } else {
                None
            },
            _ => self.next,
        }
    }

    /// The state after the visit of this state. The depth-first orders
    /// take their step from the visited node. Level order takes the
    /// visited node from the front of its level and puts its children at
    /// the back of the next level, which becomes the current level when the
    /// current one is used up.
    pub open spec fn advanced(self, f: Forest) -> TraversalState {
        match self.order {
            TraversalOrder::Pre => match self.next {
                Some(t) => TraversalState {
                    next: pre_step(f, self.root, t, self.branch).0,
                    branch: pre_step(f, self.root, t, self.branch).1,
                    ..self
                },
                None => self,
            },
            TraversalOrder::Post => match self.next {
                Some(t) => TraversalState {
                    next: post_step(f, self.root, t, self.branch).0,
                    branch: post_step(f, self.root, t, self.branch).1,
                    ..self
                },
                None => self,
            },
            TraversalOrder::Level => if self.current_level.len() > 0 {
                TraversalState {
                    current_level: self.current_level.drop_first(),
                    next_level: self.next_level + children(f, self.current_level[0]),
                    ..self
                }
            } else if self.next_level.len() > 0 {
                TraversalState {
                    current_level: self.next_level.drop_first(),
                    next_level: children(f, self.next_level[0]),
                    ..self
                }
            } else {
                self
            },
        }
    }

    /// What is left of the traversal: the nodes that it still visits, in
    /// order. In level order these are what is left of the current level,
    /// then the next level as far as it is known and the children of the
    /// nodes left on the current level, and the levels below. `sp` is a
    /// witness that the forest is well formed.
    pub open spec fn remaining(self, f: Forest, sp: Spans) -> Seq<Token> {
        match self.order {
            TraversalOrder::Pre => orbit(by_preorder(f, self.root), self.next),
            TraversalOrder::Post => orbit(by_postorder(f, self.root), self.next),
            TraversalOrder::Level => self.current_level + levels_from(
                f,
                sp,
                self.next_level + level_children(f, self.current_level),
            ),
        }
    }

    /// The nodes that the state names are nodes of the forest. In pre-order
    /// the branch is the child branch. In post-order the next node is in
    /// the subtree, and the branch is the sibling branch until the root
    /// comes, which ends the traversal.
    pub open spec fn wf(self, f: Forest) -> bool {
        &&& self.next matches Some(t) ==> f.contains_key(t)
        &&& self.order is Pre && self.next is Some ==> self.branch is Child
        &&& self.order is Post ==> (self.next matches Some(t) ==> in_subtree(f, self.root, t)
            && self.branch == (if t == self.root {
            Branch::End
        } else {
            Branch::Sibling
        }))
        &&& forall|i: int|
            0 <= i < self.current_level.len() ==> f.contains_key(#[trigger] self.current_level[i])
        &&& forall|i: int|
            0 <= i < self.next_level.len() ==> f.contains_key(#[trigger] self.next_level[i])
    }
}

/// A traversal in a well-formed state visits the first of the nodes that
/// are left and goes on to a well-formed state, in which the rest of them
/// are left.
pub proof fn lemma_advanced(f: Forest, sp: Spans, s: TraversalState)
    requires
        forest_wf(f, sp),
        s.wf(f),
    ensures
        s.advanced(f).wf(f),
        s.yielded() == (if s.remaining(f, sp).len() > 0 {
            Some(s.remaining(f, sp)[0])
        } else {
            None
        }),
        s.advanced(f).remaining(f, sp) == (if s.remaining(f, sp).len() > 0 {
            s.remaining(f, sp).drop_first()
        } else {
            s.remaining(f, sp)
        }),
{
    if s.order is Level {
        let c = s.current_level;
        let n = s.next_level;
        lemma_level_children(f, sp, c);
        let below = level_children(f, c);
        let known = n + below;
        assert(level_in(f, known)) by {
            assert forall|i: int| 0 <= i < known.len() implies f.contains_key(
                #[trigger] known[i],
            ) by {
                if i >= n.len() {
                    assert(known[i] == below[i - n.len()]);
                }
            }
        }
        lemma_levels_from(f, sp, known);
        if c.len() > 0 {
            lemma_children(f, sp, c[0]);
            let a = s.advanced(f);
            assert(a.next_level + level_children(f, a.current_level) =~= known);
            assert(s.remaining(f, sp).drop_first() =~= a.remaining(f, sp));
            assert forall|i: int| 0 <= i < a.current_level.len() implies f.contains_key(
                #[trigger] a.current_level[i],
            ) by {
                assert(a.current_level[i] == c[i + 1]);
            }
            assert forall|i: int| 0 <= i < a.next_level.len() implies f.contains_key(
                #[trigger] a.next_level[i],
            ) by {
                if i >= n.len() {
                    assert(a.next_level[i] == children(f, c[0])[i - n.len()]);
                }
            }
        } else if n.len() > 0 {
            lemma_children(f, sp, n[0]);
            let a = s.advanced(f);
            assert(known =~= n);
            assert(a.next_level + level_children(f, a.current_level) =~= level_children(f, n));
            assert(s.remaining(f, sp) =~= n + levels_from(f, sp, level_children(f, n)));
            assert(s.remaining(f, sp).drop_first() =~= a.remaining(f, sp));
            assert forall|i: int| 0 <= i < a.current_level.len() implies f.contains_key(
                #[trigger] a.current_level[i],
            ) by {
                assert(a.current_level[i] == n[i + 1]);
            }
        } else {
            assert(known =~= Seq::<Token>::empty());
            assert(s.remaining(f, sp) =~= Seq::<Token>::empty());
        }
    } else {
        match s.next {
            Some(t) => {
                assert(linked(f, t));
                if s.order is Pre {
                    lemma_preorder_from(f, sp, s.root, s.next);
                    lemma_orbit_rest(by_preorder(f, s.root), s.next, s.remaining(f, sp));
                    lemma_after_subtree(f, sp, s.root, t);
                } else {
                    lemma_postorder_from(f, sp, s.root, s.next);
                    lemma_orbit_rest(by_postorder(f, s.root), s.next, s.remaining(f, sp));
                    if t != s.root {
                        lemma_post_after(f, sp, s.root, t);
                    }
                }
            },
            None => {
                if s.order is Pre {
                    lemma_preorder_from(f, sp, s.root, s.next);
                } else {
                    lemma_postorder_from(f, sp, s.root, s.next);
                }
            },
        }
    }
}

/// The traversal of a subtree starts in a well-formed state, in which the
/// whole pre-order, post-order or level order of the subtree is left.
pub proof fn lemma_started(f: Forest, sp: Spans, root: Token, order: TraversalOrder)
    requires
        forest_wf(f, sp),
        f.contains_key(root),
    ensures
        TraversalState::started(f, root, order).wf(f),
        TraversalState::started(f, root, order).remaining(f, sp) == (match order {
            TraversalOrder::Pre => preorder(f, root),
            TraversalOrder::Post => postorder(f, root),
            TraversalOrder::Level => levelorder(f, sp, root),
        }),
{
    assert(linked(f, root));
    lemma_first_leaf(f, sp, root);
    lemma_first_leaf_within(f, sp, root);
    if order is Level {
        let level = seq![root];
        assert(level_in(f, level));
        lemma_levels_from(f, sp, level);
        lemma_level_children(f, sp, level);
        let below = level_children(f, level);
        assert(Seq::<Token>::empty() + below =~= below);
        let s = TraversalState::started(f, root, order);
        assert(s.remaining(f, sp) =~= level + levels_from(f, sp, below));
    }
}

} // verus!
