//! The links of the nodes, taken as a mathematical object: what it means for
//! them to form trees, and the sequences of nodes that are reached by
//! following one link.
use vstd::prelude::*;
use crate::token::Token;

verus! {

/// The structural links of one node.
#[derive(Clone, Copy, Debug)]
pub struct Links {
    /// The token of the node itself.
    pub token: Token,
    /// The parent node.
    pub parent: Option<Token>,
    /// The sibling before this node.
    pub previous_sibling: Option<Token>,
    /// The sibling after this node.
    pub next_sibling: Option<Token>,
    /// The first of the node's children.
    pub first_child: Option<Token>,
}

/// The links of every node of a pool.
pub type Forest = Map<Token, Links>;

/// An interval of numbers given to a node.
pub struct Span {
    pub lo: nat,
    pub hi: nat,
}

/// An interval for every node.
pub type Spans = Map<Token, Span>;

impl Links {
    /// The links of a node that stands alone: no parent, no siblings, no
    /// children.
    pub open spec fn alone(token: Token) -> Links {
        Links {
            token,
            parent: None,
            previous_sibling: None,
            next_sibling: None,
            first_child: None,
        }
    }

    /// Links for a node that stands alone.
    pub fn new(token: Token) -> (l: Links)
        ensures
            l == Links::alone(token),
    {
        Links {
            token,
            parent: None,
            previous_sibling: None,
            next_sibling: None,
            first_child: None,
        }
    }

    /// The node has neither a parent nor siblings: it is the root of a tree
    /// of its own.
    pub open spec fn is_free_root(self) -> bool {
        self.parent is None && self.previous_sibling is None && self.next_sibling is None
    }
}

/// The links of node `t` fit those of its neighbours:
/// a first child names `t` as its parent and has no sibling before it;
/// the next sibling names `t` as the sibling before it and has the same
/// parent; the sibling before names `t` as its next; a node without a
/// sibling before it is the first child of its parent; a node without a
/// parent has no siblings.
pub open spec fn linked(f: Forest, t: Token) -> bool {
    let l = f[t];
    &&& l.token == t
    &&& (l.parent matches Some(p) ==> f.contains_key(p))
    &&& (l.first_child matches Some(c) ==> f.contains_key(c) && f[c].parent == Some(t)
        && f[c].previous_sibling is None)
    &&& (l.next_sibling matches Some(n) ==> f.contains_key(n) && f[n].previous_sibling == Some(t)
        && f[n].parent == l.parent)
    &&& (l.previous_sibling matches Some(q) ==> f.contains_key(q) && f[q].next_sibling == Some(t))
    &&& (l.previous_sibling is None ==> (l.parent matches Some(p) ==> f[p].first_child == Some(t)))
    &&& (l.parent is None ==> l.previous_sibling is None && l.next_sibling is None)
}

/// Every node's links fit those of its neighbours.
pub open spec fn links_wf(f: Forest) -> bool {
    forall|t: Token| f.contains_key(t) ==> #[trigger] linked(f, t)
}

/// The interval of node `t` is not empty, lies strictly inside that of its
/// parent, and wholly above that of its next sibling.
pub open spec fn nested(f: Forest, sp: Spans, t: Token) -> bool {
    &&& sp[t].lo < sp[t].hi
    &&& (f[t].parent matches Some(p) ==> sp[p].lo < sp[t].lo && sp[t].hi < sp[p].hi)
    &&& (f[t].next_sibling matches Some(n) ==> sp[n].hi < sp[t].lo)
}

/// The intervals are nested as the nodes are. Such intervals exist only
/// where no node is its own ancestor or its own later sibling.
pub open spec fn spans_wf(f: Forest, sp: Spans) -> bool {
    forall|t: Token| f.contains_key(t) ==> #[trigger] nested(f, sp, t)
}

/// The links form trees, and `sp` is a witness that they have no cycle.
pub open spec fn forest_wf(f: Forest, sp: Spans) -> bool {
    links_wf(f) && spans_wf(f, sp)
}

/// At place `i` of `s` the link `succ` leads to the next place of `s`, or
/// nowhere if `i` is the last place.
pub open spec fn stepped(succ: spec_fn(Token) -> Option<Token>, s: Seq<Token>, i: int) -> bool {
    succ(s[i]) == (if i + 1 < s.len() {
        Some(s[i + 1])
    } else {
        None
    })
}

/// `s` is what following `succ` from `start` passes through, until `succ`
/// leads nowhere.
pub open spec fn is_orbit(
    succ: spec_fn(Token) -> Option<Token>,
    start: Option<Token>,
    s: Seq<Token>,
) -> bool {
    &&& start == (if s.len() > 0 {
        Some(s[0])
    } else {
        None
    })
    &&& forall|i: int| 0 <= i < s.len() ==> #[trigger] stepped(succ, s, i)
}

/// The nodes that following `succ` from `start` passes through.
pub open spec fn orbit(succ: spec_fn(Token) -> Option<Token>, start: Option<Token>) -> Seq<Token> {
    choose|s: Seq<Token>| is_orbit(succ, start, s)
}

/// Two orbits of a link from the same start agree at every place of the
/// first.
proof fn lemma_orbit_agree(
    succ: spec_fn(Token) -> Option<Token>,
    start: Option<Token>,
    s1: Seq<Token>,
    s2: Seq<Token>,
    i: int,
)
    requires
        is_orbit(succ, start, s1),
        is_orbit(succ, start, s2),
        0 <= i < s1.len(),
    ensures
        i < s2.len(),
        s1[i] == s2[i],
    decreases i,
{
    if i > 0 {
        lemma_orbit_agree(succ, start, s1, s2, i - 1);
        assert(stepped(succ, s1, i - 1));
        assert(stepped(succ, s2, i - 1));
    }
}

/// Following a link from a start passes through one sequence of nodes only.
pub proof fn lemma_orbit_unique(
    succ: spec_fn(Token) -> Option<Token>,
    start: Option<Token>,
    s1: Seq<Token>,
    s2: Seq<Token>,
)
    requires
        is_orbit(succ, start, s1),
        is_orbit(succ, start, s2),
    ensures
        s1 == s2,
{
    assert forall|i: int| 0 <= i < s1.len() implies i < s2.len() && #[trigger] s1[i] == s2[i] by {
        lemma_orbit_agree(succ, start, s1, s2, i);
    }
    if s1.len() > 0 {
        lemma_orbit_agree(succ, start, s1, s2, s1.len() - 1);
    }
    if s2.len() > 0 {
        lemma_orbit_agree(succ, start, s2, s1, s2.len() - 1);
    }
    assert(s1 =~= s2);
}

/// A sequence that is an orbit is the orbit.
pub proof fn lemma_orbit_is(
    succ: spec_fn(Token) -> Option<Token>,
    start: Option<Token>,
    s: Seq<Token>,
)
    requires
        is_orbit(succ, start, s),
    ensures
        orbit(succ, start) == s,
{
    lemma_orbit_unique(succ, start, s, orbit(succ, start));
}

/// What is left of an orbit after its first node is the orbit from the
/// node that the link leads to.
pub proof fn lemma_orbit_rest(
    succ: spec_fn(Token) -> Option<Token>,
    start: Option<Token>,
    s: Seq<Token>,
)
    requires
        is_orbit(succ, start, s),
        s.len() > 0,
    ensures
        is_orbit(succ, succ(s[0]), s.drop_first()),
        orbit(succ, succ(s[0])) == s.drop_first(),
{
    let r = s.drop_first();
    assert(stepped(succ, s, 0));
    assert forall|i: int| 0 <= i < r.len() implies #[trigger] stepped(succ, r, i) by {
        assert(stepped(succ, s, i + 1));
    }
    lemma_orbit_is(succ, succ(s[0]), r);
}

/// A node in front of the orbit from where its link leads is the orbit
/// from that node.
pub proof fn lemma_orbit_cons(succ: spec_fn(Token) -> Option<Token>, t: Token, s: Seq<Token>)
    requires
        is_orbit(succ, succ(t), s),
    ensures
        is_orbit(succ, Some(t), seq![t] + s),
        orbit(succ, Some(t)) == seq![t] + s,
{
    let r = seq![t] + s;
    assert forall|i: int| 0 <= i < r.len() implies #[trigger] stepped(succ, r, i) by {
        if i > 0 {
            assert(stepped(succ, s, i - 1));
        }
    }
    lemma_orbit_is(succ, Some(t), r);
}

/// From `t` the link stays among the nodes that `inv` holds of, and leads
/// to a node of smaller `rank`.
pub open spec fn descending(
    succ: spec_fn(Token) -> Option<Token>,
    rank: spec_fn(Token) -> nat,
    inv: spec_fn(Token) -> bool,
    t: Token,
) -> bool {
    inv(t) ==> (succ(t) matches Some(u) ==> inv(u) && rank(u) < rank(t))
}

/// Where every step of a link leads to a smaller rank, the orbit exists,
/// and `inv` holds of all its nodes.
pub proof fn lemma_orbit_exists(
    succ: spec_fn(Token) -> Option<Token>,
    rank: spec_fn(Token) -> nat,
    inv: spec_fn(Token) -> bool,
    start: Option<Token>,
) -> (s: Seq<Token>)
    requires
        start matches Some(t) ==> inv(t),
        forall|t: Token| #[trigger] descending(succ, rank, inv, t),
    ensures
        is_orbit(succ, start, s),
        orbit(succ, start) == s,
        forall|i: int| 0 <= i < s.len() ==> inv(#[trigger] s[i]),
        forall|i: int| 0 <= i < s.len() ==> rank(#[trigger] s[i]) <= rank(s[0]),
    decreases
            (match start {
                Some(t) => rank(t) + 1,
                None => 0,
            }),
{
    match start {
        None => {
            let s = Seq::<Token>::empty();
            lemma_orbit_is(succ, start, s);
            s
        },
        Some(t) => {
            assert(descending(succ, rank, inv, t));
            let rest = lemma_orbit_exists(succ, rank, inv, succ(t));
            lemma_orbit_cons(succ, t, rest);
            let s = seq![t] + rest;
            assert forall|i: int| 0 <= i < s.len() implies inv(#[trigger] s[i]) && rank(s[i])
                <= rank(s[0]) by {
                if i > 0 {
                    assert(s[i] == rest[i - 1]);
                    assert(rest[0] == succ(t).unwrap());
                }
            }
            s
        },
    }
}

/// Two links that agree on every node of an orbit of the first have that
/// orbit in common.
pub proof fn lemma_orbit_same(
    succ1: spec_fn(Token) -> Option<Token>,
    succ2: spec_fn(Token) -> Option<Token>,
    start: Option<Token>,
    s: Seq<Token>,
)
    requires
        is_orbit(succ1, start, s),
        forall|i: int| 0 <= i < s.len() ==> succ1(#[trigger] s[i]) == succ2(s[i]),
    ensures
        is_orbit(succ2, start, s),
        orbit(succ2, start) == s,
{
    assert forall|i: int| 0 <= i < s.len() implies #[trigger] stepped(succ2, s, i) by {
        assert(stepped(succ1, s, i));
    }
    lemma_orbit_is(succ2, start, s);
}

/// The link from a node to its parent.
pub open spec fn by_parent(f: Forest) -> spec_fn(Token) -> Option<Token> {
    |t: Token| f[t].parent
}

/// The link from a node to its next sibling.
pub open spec fn by_next(f: Forest) -> spec_fn(Token) -> Option<Token> {
    |t: Token| f[t].next_sibling
}

/// The link from a node to the sibling before it.
pub open spec fn by_previous(f: Forest) -> spec_fn(Token) -> Option<Token> {
    |t: Token| f[t].previous_sibling
}

/// The link from a node to its first child.
pub open spec fn by_first_child(f: Forest) -> spec_fn(Token) -> Option<Token> {
    |t: Token| f[t].first_child
}

/// The ancestors of `t`, the parent first and the root of its tree last.
pub open spec fn ancestors(f: Forest, t: Token) -> Seq<Token> {
    orbit(by_parent(f), f[t].parent)
}

/// The children of `t`, in order.
pub open spec fn children(f: Forest, t: Token) -> Seq<Token> {
    orbit(by_next(f), f[t].first_child)
}

/// The siblings after `t`, the nearest first.
pub open spec fn following_siblings(f: Forest, t: Token) -> Seq<Token> {
    orbit(by_next(f), f[t].next_sibling)
}

/// The siblings before `t`, the nearest first.
pub open spec fn preceding_siblings(f: Forest, t: Token) -> Seq<Token> {
    orbit(by_previous(f), f[t].previous_sibling)
}

/// The last child of `t`, if it has children.
pub open spec fn last_child(f: Forest, t: Token) -> Option<Token> {
    if children(f, t).len() > 0 {
        Some(children(f, t).last())
    } else {
        None
    }
}

/// The sequence with `n` put in before `t`, which is in the sequence.
pub open spec fn inserted_before(cs: Seq<Token>, t: Token, n: Token) -> Seq<Token> {
    cs.insert(cs.index_of(t), n)
}

/// The sequence with `n` put in after `t`, which is in the sequence.
pub open spec fn inserted_after(cs: Seq<Token>, t: Token, n: Token) -> Seq<Token> {
    cs.insert(cs.index_of(t) + 1, n)
}

/// The sequence without `t`, which is in the sequence.
pub open spec fn without(cs: Seq<Token>, t: Token) -> Seq<Token> {
    cs.remove(cs.index_of(t))
}

/// `t` is `root` or one of its descendants.
pub open spec fn in_subtree(f: Forest, root: Token, t: Token) -> bool {
    t == root || ancestors(f, t).contains(root)
}

/// The descendants of `root`: the nodes that have it among their ancestors.
pub open spec fn descendants(f: Forest, root: Token) -> Set<Token> {
    Set::new(|t: Token| f.contains_key(t) && ancestors(f, t).contains(root))
}

/// How far a node is from the end of the walk to the first of its siblings.
pub open spec fn rank_previous(f: Forest, sp: Spans) -> spec_fn(Token) -> nat {
    |t: Token|
        match f[t].parent {
            Some(p) => if sp[t].lo <= sp[p].hi {
                (sp[p].hi - sp[t].lo) as nat
            } else {
                0
            },
            None => 0,
        }
}

/// In a well-formed forest the walk along the parents ends. Its nodes are
/// nodes of the forest, each with an interval that begins below the one
/// before.
pub proof fn lemma_parents(f: Forest, sp: Spans, start: Option<Token>)
    requires
        forest_wf(f, sp),
        start matches Some(t) ==> f.contains_key(t),
    ensures
        is_orbit(by_parent(f), start, orbit(by_parent(f), start)),
        forall|i: int|
            0 <= i < orbit(by_parent(f), start).len() ==> f.contains_key(
                #[trigger] orbit(by_parent(f), start)[i],
            ),
        forall|i: int|
            0 <= i < orbit(by_parent(f), start).len() ==> sp[#[trigger] orbit(
                by_parent(f),
                start,
            )[i]].lo <= sp[start.unwrap()].lo,
{
    let succ = by_parent(f);
    let rank = |t: Token| sp[t].lo;
    let inv = |t: Token| f.contains_key(t);
    assert forall|t: Token| #[trigger] descending(succ, rank, inv, t) by {
        if f.contains_key(t) {
            assert(linked(f, t));
            assert(nested(f, sp, t));
        }
    }
    lemma_orbit_exists(succ, rank, inv, start);
}

/// In a well-formed forest the walk along the next siblings ends. Its
/// nodes are nodes of the forest, each with an interval that ends no higher
/// than that of the first.
pub proof fn lemma_nexts(f: Forest, sp: Spans, start: Option<Token>)
    requires
        forest_wf(f, sp),
        start matches Some(t) ==> f.contains_key(t),
    ensures
        is_orbit(by_next(f), start, orbit(by_next(f), start)),
        forall|i: int|
            0 <= i < orbit(by_next(f), start).len() ==> f.contains_key(
                #[trigger] orbit(by_next(f), start)[i],
            ),
        forall|i: int|
            0 <= i < orbit(by_next(f), start).len() ==> sp[#[trigger] orbit(by_next(f), start)[i]].hi
                <= sp[start.unwrap()].hi,
{
    let succ = by_next(f);
    let rank = |t: Token| sp[t].hi;
    let inv = |t: Token| f.contains_key(t);
    assert forall|t: Token| #[trigger] descending(succ, rank, inv, t) by {
        if f.contains_key(t) {
            assert(linked(f, t));
            assert(nested(f, sp, t));
        }
    }
    lemma_orbit_exists(succ, rank, inv, start);
}

/// In a well-formed forest the walk along the first children ends, and its
/// nodes are nodes of the forest.
pub proof fn lemma_first_children(f: Forest, sp: Spans, start: Option<Token>)
    requires
        forest_wf(f, sp),
        start matches Some(t) ==> f.contains_key(t),
    ensures
        is_orbit(by_first_child(f), start, orbit(by_first_child(f), start)),
        forall|i: int|
            0 <= i < orbit(by_first_child(f), start).len() ==> f.contains_key(
                #[trigger] orbit(by_first_child(f), start)[i],
            ),
        forall|i: int|
            0 <= i < orbit(by_first_child(f), start).len() ==> sp[#[trigger] orbit(
                by_first_child(f),
                start,
            )[i]].hi <= sp[start.unwrap()].hi,
{
    let succ = by_first_child(f);
    let rank = |t: Token| sp[t].hi;
    let inv = |t: Token| f.contains_key(t);
    assert forall|t: Token| #[trigger] descending(succ, rank, inv, t) by {
        if f.contains_key(t) {
            assert(linked(f, t));
            if f[t].first_child is Some {
                assert(linked(f, f[t].first_child.unwrap()));
                assert(nested(f, sp, f[t].first_child.unwrap()));
            }
        }
    }
    lemma_orbit_exists(succ, rank, inv, start);
}

/// In a well-formed forest the walk along the siblings before ends, and
/// its nodes are nodes of the forest.
pub proof fn lemma_previouses(f: Forest, sp: Spans, start: Option<Token>)
    requires
        forest_wf(f, sp),
        start matches Some(t) ==> f.contains_key(t),
    ensures
        is_orbit(by_previous(f), start, orbit(by_previous(f), start)),
        forall|i: int|
            0 <= i < orbit(by_previous(f), start).len() ==> f.contains_key(
                #[trigger] orbit(by_previous(f), start)[i],
            ),
{
    let succ = by_previous(f);
    let rank = rank_previous(f, sp);
    let inv = |t: Token| f.contains_key(t);
    assert forall|t: Token| #[trigger] descending(succ, rank, inv, t) by {
        if f.contains_key(t) {
            assert(linked(f, t));
            assert(nested(f, sp, t));
            if f[t].previous_sibling is Some {
                let q = f[t].previous_sibling.unwrap();
                assert(linked(f, q));
                assert(nested(f, sp, q));
            }
        }
    }
    lemma_orbit_exists(succ, rank, inv, start);
}

/// Along the next siblings no node comes twice.
pub proof fn lemma_nexts_distinct(f: Forest, sp: Spans, start: Option<Token>, i: int, j: int)
    requires
        forest_wf(f, sp),
        start matches Some(t) ==> f.contains_key(t),
        0 <= i < j < orbit(by_next(f), start).len(),
    ensures
        sp[orbit(by_next(f), start)[i]].hi > sp[orbit(by_next(f), start)[j]].hi,
        orbit(by_next(f), start)[i] != orbit(by_next(f), start)[j],
    decreases j - i,
{
    lemma_nexts(f, sp, start);
    let s = orbit(by_next(f), start);
    assert(stepped(by_next(f), s, j - 1));
    assert(f.contains_key(s[j - 1]));
    assert(nested(f, sp, s[j - 1]));
    assert(nested(f, sp, s[j]));
    if i < j - 1 {
        lemma_nexts_distinct(f, sp, start, i, j - 1);
    }
}

/// The ancestors of a node are its parent and the ancestors of its parent.
pub proof fn lemma_ancestors_step(f: Forest, sp: Spans, t: Token)
    requires
        forest_wf(f, sp),
        f.contains_key(t),
    ensures
        ancestors(f, t) == (match f[t].parent {
            Some(p) => seq![p] + ancestors(f, p),
            None => Seq::empty(),
        }),
{
    assert(linked(f, t));
    lemma_parents(f, sp, f[t].parent);
    match f[t].parent {
        Some(p) => {
            let s = ancestors(f, t);
            lemma_orbit_rest(by_parent(f), Some(p), s);
            assert(s =~= seq![p] + s.drop_first());
        },
        None => {},
    }
}

/// An ancestor is a node of the forest, and its interval holds that of
/// the node strictly inside.
pub proof fn lemma_ancestor_spans(f: Forest, sp: Spans, t: Token, a: Token)
    requires
        forest_wf(f, sp),
        f.contains_key(t),
        ancestors(f, t).contains(a),
    ensures
        f.contains_key(a),
        sp[a].lo < sp[t].lo,
        sp[t].hi < sp[a].hi,
    decreases sp[t].lo,
{
    lemma_ancestors_step(f, sp, t);
    assert(linked(f, t));
    assert(nested(f, sp, t));
    let p = f[t].parent.unwrap();
    let s = ancestors(f, t);
    let i = choose|i: int| 0 <= i < s.len() && s[i] == a;
    if i > 0 {
        assert(ancestors(f, p)[i - 1] == a);
        lemma_ancestor_spans(f, sp, p, a);
    }
}

/// A node with a parent is in a subtree whose root it is not exactly when
/// its parent is in it.
pub proof fn lemma_subtree_step(f: Forest, sp: Spans, root: Token, t: Token)
    requires
        forest_wf(f, sp),
        f.contains_key(t),
        t != root,
    ensures
        in_subtree(f, root, t) == (f[t].parent matches Some(p) && in_subtree(f, root, p)),
{
    lemma_ancestors_step(f, sp, t);
    match f[t].parent {
        Some(p) => {
            let s = ancestors(f, t);
            let r = ancestors(f, p);
            if in_subtree(f, root, t) {
                let i = choose|i: int| 0 <= i < s.len() && s[i] == root;
                if i > 0 {
                    assert(r[i - 1] == root);
                }
            }
            if in_subtree(f, root, p) {
                if p == root {
                    assert(s[0] == root);
                } else {
                    let i = choose|i: int| 0 <= i < r.len() && r[i] == root;
                    assert(s[i + 1] == root);
                }
            }
        },
        None => {},
    }
}

/// The children of a node are nodes of the forest; the last of them has no
/// next sibling; each has the node as its parent.
pub proof fn lemma_children(f: Forest, sp: Spans, p: Token)
    requires
        forest_wf(f, sp),
        f.contains_key(p),
    ensures
        is_orbit(by_next(f), f[p].first_child, children(f, p)),
        forall|i: int|
            0 <= i < children(f, p).len() ==> f.contains_key(#[trigger] children(f, p)[i])
                && f[children(f, p)[i]].parent == Some(p),
        last_child(f, p) matches Some(l) ==> f.contains_key(l) && f[l].next_sibling is None
            && f[l].parent == Some(p),
        last_child(f, p) is None <==> f[p].first_child is None,
{
    assert(linked(f, p));
    lemma_nexts(f, sp, f[p].first_child);
    let cs = children(f, p);
    assert forall|i: int| 0 <= i < cs.len() implies f[#[trigger] cs[i]].parent == Some(p) by {
        lemma_child_at(f, sp, p, i);
    }
    if cs.len() > 0 {
        assert(stepped(by_next(f), cs, cs.len() - 1));
    }
}

/// The node at place `i` of the children of `p` has `p` as its parent.
proof fn lemma_child_at(f: Forest, sp: Spans, p: Token, i: int)
    requires
        forest_wf(f, sp),
        f.contains_key(p),
        0 <= i < children(f, p).len(),
        is_orbit(by_next(f), f[p].first_child, children(f, p)),
        forall|k: int| 0 <= k < children(f, p).len() ==> f.contains_key(#[trigger] children(f, p)[k]),
    ensures
        f[children(f, p)[i]].parent == Some(p),
    decreases i,
{
    let cs = children(f, p);
    assert(linked(f, p));
    if i > 0 {
        lemma_child_at(f, sp, p, i - 1);
        assert(stepped(by_next(f), cs, i - 1));
        assert(f.contains_key(cs[i - 1]));
        assert(linked(f, cs[i - 1]));
    }
}

/// A child is one of the children of its parent.
pub proof fn lemma_child_listed(f: Forest, sp: Spans, y: Token)
    requires
        forest_wf(f, sp),
        f.contains_key(y),
        f[y].parent is Some,
    ensures
        children(f, f[y].parent.unwrap()).contains(y),
    decreases sp[f[y].parent.unwrap()].hi - sp[y].lo,
{
    let p = f[y].parent.unwrap();
    assert(linked(f, y));
    assert(nested(f, sp, y));
    lemma_children(f, sp, p);
    let cs = children(f, p);
    match f[y].previous_sibling {
        Some(q) => {
            assert(linked(f, q));
            assert(nested(f, sp, q));
            lemma_child_listed(f, sp, q);
            let j = choose|j: int| 0 <= j < cs.len() && cs[j] == q;
            assert(stepped(by_next(f), cs, j));
            assert(cs[j + 1] == y);
        },
        None => {
            assert(cs[0] == y);
        },
    }
}

/// The child without a next sibling is the last child of its parent.
pub proof fn lemma_last_child_is(f: Forest, sp: Spans, y: Token)
    requires
        forest_wf(f, sp),
        f.contains_key(y),
        f[y].parent is Some,
        f[y].next_sibling is None,
    ensures
        last_child(f, f[y].parent.unwrap()) == Some(y),
{
    let p = f[y].parent.unwrap();
    assert(linked(f, y));
    lemma_children(f, sp, p);
    lemma_child_listed(f, sp, y);
    let cs = children(f, p);
    let j = choose|j: int| 0 <= j < cs.len() && cs[j] == y;
    assert(stepped(by_next(f), cs, j));
}

/// No node is its own ancestor.
pub proof fn lemma_ancestor_spans_self(f: Forest, sp: Spans, t: Token)
    requires
        forest_wf(f, sp),
        f.contains_key(t),
    ensures
        !ancestors(f, t).contains(t),
{
    if ancestors(f, t).contains(t) {
        lemma_ancestor_spans(f, sp, t, t);
    }
}

/// A node that is named as a parent has a first child.
pub proof fn lemma_first_child_exists(f: Forest, sp: Spans, x: Token)
    requires
        forest_wf(f, sp),
        f.contains_key(x),
        f[x].parent is Some,
    ensures
        f.contains_key(f[x].parent.unwrap()),
        f[f[x].parent.unwrap()].first_child is Some,
    decreases sp[f[x].parent.unwrap()].hi - sp[x].lo,
{
    let p = f[x].parent.unwrap();
    assert(linked(f, x));
    assert(nested(f, sp, x));
    match f[x].previous_sibling {
        Some(q) => {
            assert(linked(f, q));
            assert(nested(f, sp, q));
            lemma_first_child_exists(f, sp, q);
        },
        None => {},
    }
}

/// The ancestors of an ancestor of a node are ancestors of the node.
pub proof fn lemma_ancestors_up(f: Forest, sp: Spans, t: Token, a: Token, b: Token)
    requires
        forest_wf(f, sp),
        f.contains_key(t),
        ancestors(f, t).contains(a),
        ancestors(f, a).contains(b),
    ensures
        ancestors(f, t).contains(b),
    decreases sp[t].lo,
{
    lemma_ancestors_step(f, sp, t);
    assert(linked(f, t));
    assert(nested(f, sp, t));
    let p = f[t].parent.unwrap();
    let s = ancestors(f, t);
    let r = ancestors(f, p);
    let i = choose|i: int| 0 <= i < s.len() && s[i] == a;
    if i == 0 {
        let j = choose|j: int| 0 <= j < r.len() && r[j] == b;
        assert(s[j + 1] == b);
    } else {
        assert(r[i - 1] == a);
        lemma_ancestors_up(f, sp, p, a, b);
        let j = choose|j: int| 0 <= j < r.len() && r[j] == b;
        assert(s[j + 1] == b);
    }
}

/// A leaf has no children and no descendants: it is no node's ancestor.
pub proof fn lemma_leaf(f: Forest, sp: Spans, t: Token)
    requires
        forest_wf(f, sp),
        f.contains_key(t),
        f[t].first_child is None,
    ensures
        children(f, t) == Seq::<Token>::empty(),
        descendants(f, t) == Set::<Token>::empty(),
        forall|x: Token| f.contains_key(x) ==> !(#[trigger] ancestors(f, x)).contains(t),
{
    lemma_orbit_is(by_next(f), None, Seq::empty());
    assert forall|x: Token| f.contains_key(x) implies !(#[trigger] ancestors(f, x)).contains(t) by {
        let s = ancestors(f, x);
        if s.contains(t) {
            assert(linked(f, x));
            lemma_parents(f, sp, f[x].parent);
            let i = choose|i: int| 0 <= i < s.len() && s[i] == t;
            if i == 0 {
                lemma_first_child_exists(f, sp, x);
            } else {
                assert(stepped(by_parent(f), s, i - 1));
                assert(f.contains_key(s[i - 1]));
                lemma_first_child_exists(f, sp, s[i - 1]);
            }
        }
    }
    assert(descendants(f, t) =~= Set::<Token>::empty());
}

/// The nodes that have `t` as their parent are its children.
pub proof fn lemma_children_are(f: Forest, sp: Spans, t: Token)
    requires
        forest_wf(f, sp),
        f.contains_key(t),
    ensures
        forall|u: Token|
            f.contains_key(u) ==> (#[trigger] children(f, t).contains(u) <==> f[u].parent == Some(
                t,
            )),
{
    lemma_children(f, sp, t);
    assert forall|u: Token| f.contains_key(u) implies (#[trigger] children(f, t).contains(u)
        <==> f[u].parent == Some(t)) by {
        if f[u].parent == Some(t) {
            lemma_child_listed(f, sp, u);
        }
    }
}

/// The parent of a descendant of `root` is `root` or a descendant of
/// `root`.
pub proof fn lemma_sibling_descends(f: Forest, sp: Spans, root: Token, t: Token, p: Token)
    requires
        forest_wf(f, sp),
        f.contains_key(t),
        ancestors(f, t).contains(root),
        f[t].parent == Some(p),
        p != root,
    ensures
        f.contains_key(p),
        ancestors(f, p).contains(root),
{
    lemma_ancestors_step(f, sp, t);
    assert(linked(f, t));
    let s = ancestors(f, t);
    let i = choose|i: int| 0 <= i < s.len() && s[i] == root;
    assert(ancestors(f, p)[i - 1] == root);
}

/// Two nodes are not in the subtree of each other unless they are the
/// same.
pub proof fn lemma_not_both(f: Forest, sp: Spans, a: Token, b: Token)
    requires
        forest_wf(f, sp),
        f.contains_key(a),
        f.contains_key(b),
        in_subtree(f, a, b),
        in_subtree(f, b, a),
    ensures
        a == b,
{
    if a != b {
        lemma_ancestor_spans(f, sp, a, b);
        lemma_ancestor_spans(f, sp, b, a);
    }
}

} // verus!
