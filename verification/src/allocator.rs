//! The slot pool: a growable vector of cells, each holding an element or a
//! link of the free list.
use vstd::prelude::*;
use crate::token::Token;

verus! {

broadcast use {Token::lemma_repr, Token::lemma_at_repr};

/// The free slots of a pool, in the order in which they will be handed out,
/// and the number of slots the pool has.
pub struct Slots {
    pub free: Seq<Token>,
    pub capacity: nat,
}

/// The tokens of the `n` slots that follow slot number `capacity`.
pub open spec fn fresh_tokens(capacity: nat, n: nat) -> Seq<Token> {
    Seq::new(n, |k: int| Token::at((capacity + 1 + k) as nat))
}

/// By how many slots a full pool of `capacity` slots grows: it doubles, or
/// takes what is left below the largest slot number.
pub open spec fn growth(capacity: nat) -> nat {
    if capacity <= usize::MAX - capacity {
        capacity
    } else {
        (usize::MAX - capacity) as nat
    }
}

impl Slots {
    /// `n` new slots, chained behind the free slots there are.
    pub open spec fn grown(self, n: nat) -> Slots {
        Slots { free: self.free + fresh_tokens(self.capacity, n), capacity: self.capacity + n }
    }

    /// The pool made ready to hand out a slot: grown if no slot is free.
    pub open spec fn ready(self) -> Slots {
        if self.free.len() > 0 {
            self
        } else {
            self.grown(growth(self.capacity))
        }
    }

    /// The slot that is handed out next.
    pub open spec fn next(self) -> Token {
        self.ready().free[0]
    }

    /// The pool after its next slot has been handed out.
    pub open spec fn taken(self) -> Slots {
        Slots { free: self.ready().free.drop_first(), capacity: self.ready().capacity }
    }

    /// The pool after the occupied slot `t` has been given back: `t` is the
    /// next to be handed out.
    pub open spec fn given(self, t: Token) -> Slots {
        Slots { free: seq![t] + self.free, capacity: self.capacity }
    }

    /// The pool after the slots of `ts` have been given back, in order.
    pub open spec fn given_all(self, ts: Seq<Token>) -> Slots
        decreases ts.len(),
    {
        if ts.len() == 0 {
            self
        } else {
            self.given(ts[0]).given_all(ts.drop_first())
        }
    }

    /// The pool after `n` slots have been handed out.
    pub open spec fn taken_n(self, n: nat) -> Slots
        decreases n,
    {
        if n == 0 {
            self
        } else {
            self.taken().taken_n((n - 1) as nat)
        }
    }

    /// Giving back one more slot after those of `ts`.
    pub proof fn lemma_given_all_push(self, ts: Seq<Token>, t: Token)
        ensures
            self.given_all(ts.push(t)) == self.given_all(ts).given(t),
        decreases ts.len(),
    {
        if ts.len() == 0 {
            assert(ts.push(t).drop_first() =~= ts);
            assert(self.given(t).given_all(ts) == self.given(t));
        } else {
            assert(ts.push(t).drop_first() =~= ts.drop_first().push(t));
            self.given(ts[0]).lemma_given_all_push(ts.drop_first(), t);
        }
    }

    /// Giving back the slots of `ts` and then those of `us` is giving back
    /// the slots of both, in that order.
    pub proof fn lemma_given_all_add(self, ts: Seq<Token>, us: Seq<Token>)
        ensures
            self.given_all(ts + us) == self.given_all(ts).given_all(us),
        decreases ts.len(),
    {
        if ts.len() == 0 {
            assert(ts + us =~= us);
        } else {
            assert((ts + us).drop_first() =~= ts.drop_first() + us);
            self.given(ts[0]).lemma_given_all_add(ts.drop_first(), us);
        }
    }

    /// Giving back `ts` leaves every slot of `ts` free, the last given first.
    pub proof fn lemma_given_all(self, ts: Seq<Token>)
        ensures
            self.given_all(ts).capacity == self.capacity,
            self.given_all(ts).free == ts.reverse() + self.free,
        decreases ts.len(),
    {
        if ts.len() == 0 {
            assert(ts.reverse() + self.free =~= self.free);
        } else {
            let rest = ts.drop_first();
            self.given(ts[0]).lemma_given_all(rest);
            assert(ts.reverse() + self.free =~= rest.reverse() + (seq![ts[0]] + self.free)) by {
                assert(ts.reverse() =~= rest.reverse() + seq![ts[0]]);
            }
        }
    }

    /// Handing out no more slots than are free takes them from the front of
    /// the free list and leaves the capacity as it was.
    pub proof fn lemma_taken_n(self, n: nat)
        requires
            n <= self.free.len(),
        ensures
            self.taken_n(n).capacity == self.capacity,
            self.taken_n(n).free == self.free.skip(n as int),
        decreases n,
    {
        if n == 0 {
            assert(self.free.skip(0) =~= self.free);
        } else {
            self.taken().lemma_taken_n((n - 1) as nat);
            assert(self.free.drop_first().skip(n - 1) =~= self.free.skip(n as int));
        }
    }

    /// Handing out one more slot after `n` have been handed out.
    pub proof fn lemma_taken_n_more(self, n: nat)
        ensures
            self.taken_n(n + 1) == self.taken_n(n).taken(),
        decreases n,
    {
        if n > 0 {
            self.taken().lemma_taken_n_more((n - 1) as nat);
        } else {
            assert(self.taken().taken_n(0) == self.taken());
        }
    }

    /// Free-list reuse: after the slots of `ts` have been given back, as many
    /// elements as `ts` has can be put in without growing the pool. The free
    /// list is then what it was before, and so is the capacity.
    pub proof fn lemma_reuse(self, ts: Seq<Token>)
        ensures
            self.given_all(ts).taken_n(ts.len()) == self,
    {
        self.lemma_given_all(ts);
        let g = self.given_all(ts);
        g.lemma_taken_n(ts.len());
        assert((ts.reverse() + self.free).skip(ts.len() as int) =~= self.free);
    }
}

/// The free slots of `slots` are those above slot number `used`, in the
/// order of their numbers.
pub open spec fn unused_above(slots: Slots, used: nat) -> bool {
    &&& 1 <= slots.capacity <= usize::MAX
    &&& used <= slots.capacity
    &&& slots.free == fresh_tokens(used, (slots.capacity - used) as nat)
}

/// A pool whose free slots are those above a slot number hands the slots
/// out in the order of their numbers, whether it grows or not.
pub proof fn lemma_unused_above(slots: Slots, used: nat, n: nat)
    requires
        unused_above(slots, used),
        used + n < usize::MAX,
    ensures
        slots.taken_n(n).next() == Token::at(used + n + 1),
        unused_above(slots.taken_n(n), used + n),
    decreases n,
{
    broadcast use {Token::lemma_view_at, Token::lemma_at_view};

    if n > 0 {
        let ready = slots.ready();
        let g = growth(slots.capacity);
        if slots.free.len() == 0 {
            assert(ready.free =~= fresh_tokens(used, (ready.capacity - used) as nat));
        }
        let taken = slots.taken();
        assert(taken.free =~= fresh_tokens(used + 1, (taken.capacity - (used + 1)) as nat));
        lemma_unused_above(taken, used + 1, (n - 1) as nat);
    } else {
        let ready = slots.ready();
        if slots.free.len() == 0 {
            assert(ready.free =~= fresh_tokens(used, (ready.capacity - used) as nat));
        }
    }
}

/// Handing out `n` slots after one has been handed out is handing out
/// one more than `n`.
pub proof fn lemma_taken_after(slots: Slots, n: nat)
    ensures
        slots.taken().taken_n(n) == slots.taken_n(n + 1),
{
}

/// One slot of the pool.
#[derive(Clone, Debug)]
pub(crate) enum Cell<T> {
    /// An occupied slot, with its element.
    Just(T),
    /// A free slot, with the free slot that follows it.
    Nothing(Option<Token>),
}

/// A growable pool of slots, each either occupied by one element or linked
/// into the free list.
#[derive(Clone)]
pub struct Allocator<T> {
    pub(crate) data: Vec<Cell<T>>,
    pub(crate) head: Option<Token>,
    pub(crate) len: usize,
    pub(crate) free: Ghost<Seq<Token>>,
}

impl<T> View for Allocator<T> {
    type V = Map<Token, T>;

    /// The occupied slots and their elements.
    closed spec fn view(&self) -> Map<Token, T> {
        Map::new(|t: Token| self.occupied(t), |t: Token| self.data[t.index - 1]->Just_0)
    }
}

impl<T> Allocator<T> {
    /// Slot `t` exists and holds an element.
    spec fn occupied(&self, t: Token) -> bool {
        1 <= t.index <= self.data.len() && self.data[t.index - 1] is Just
    }

    /// Slot `t` exists and holds no element.
    spec fn vacant(&self, t: Token) -> bool {
        1 <= t.index <= self.data.len() && self.data[t.index - 1] is Nothing
    }

    /// What follows place `i` of the free list.
    spec fn link(&self, i: int) -> Option<Token> {
        if i + 1 < self.free@.len() {
            Some(self.free@[i + 1])
        } else {
            None
        }
    }

    /// The cell at place `i` of the free list is free and links to the next.
    spec fn chained(&self, i: int) -> bool {
        1 <= self.free@[i].index <= self.data.len() && self.data[self.free@[i].index - 1]
            == Cell::<T>::Nothing(self.link(i))
    }

    /// The free list and the capacity.
    pub closed spec fn slots(&self) -> Slots {
        Slots { free: self.free@, capacity: self.data.len() as nat }
    }

    /// The number of occupied slots.
    pub closed spec fn spec_len(&self) -> nat {
        self.len as nat
    }

    /// The free list holds each free slot once, every cell of it links to the
    /// next, and the count of occupied slots is right.
    pub closed spec fn wf(&self) -> bool {
        let free = self.free@;
        &&& self.data.len() >= 1
        &&& free.no_duplicates()
        &&& self.len + free.len() == self.data.len()
        &&& self.head == (if free.len() > 0 {
            Some(free[0])
        } else {
            None
        })
        &&& forall|i: int| 0 <= i < free.len() ==> #[trigger] self.chained(i)
        &&& forall|t: Token| #[trigger] self.vacant(t) ==> free.contains(t)
        &&& self@.dom().finite()
        &&& self@.dom().len() == self.len
    }

    /// What a well-formed pool's parts have to do with each other.
    pub proof fn lemma_wf(&self)
        requires
            self.wf(),
        ensures
            1 <= self.slots().capacity <= usize::MAX,
            self.spec_len() + self.slots().free.len() == self.slots().capacity,
            self.slots().free.no_duplicates(),
            self@.dom().finite(),
            self@.dom().len() == self.spec_len(),
            forall|t: Token| #[trigger] self@.contains_key(t) ==> 1 <= t@ <= self.slots().capacity,
            forall|i: int|
                0 <= i < self.slots().free.len() ==> !self@.contains_key(
                    #[trigger] self.slots().free[i],
                ) && 1 <= self.slots().free[i]@ <= self.slots().capacity,
    {
        assert forall|i: int| 0 <= i < self.slots().free.len() implies !self@.contains_key(
            #[trigger] self.slots().free[i],
        ) && 1 <= self.slots().free[i]@ <= self.slots().capacity by {
            assert(self.chained(i));
        }
    }

    /// A pool of one free slot.
    pub fn new() -> (a: Self)
        ensures
            a.wf(),
            a@ == Map::<Token, T>::empty(),
            a.slots() == (Slots { free: seq![Token::at(1)], capacity: 1 }),
            a.spec_len() == 0,
    {
        let mut data: Vec<Cell<T>> = Vec::new();
        data.push(Cell::Nothing(None));
        let free: Ghost<Seq<Token>> = Ghost(Seq::empty().push(Token::at(1)));
        let a = Allocator { data, head: Some(Token::from_index(1)), len: 0, free };
        proof {
            assert(a@ =~= Map::<Token, T>::empty());
            assert forall|t: Token| #[trigger] a.vacant(t) implies a.free@.contains(t) by {
                assert(a.free@[0] == t);
            }
        }
        a
    }

    /// The number of elements in the pool.
    pub fn len(&self) -> (n: usize)
        ensures
            n == self.spec_len(),
    {
        self.len
    }

    /// Whether the pool holds no element.
    pub fn is_empty(&self) -> (b: bool)
        ensures
            b == (self.spec_len() == 0),
    {
        self.len == 0
    }

    /// The number of slots, free and occupied.
    pub fn capacity(&self) -> (n: usize)
        ensures
            n == self.slots().capacity,
    {
        self.data.len()
    }

    /// Whether `token` addresses an element.
    pub fn is_valid_token(&self, token: Token) -> (b: bool)
        ensures
            b == self@.contains_key(token),
    {
        self.get(token).is_some()
    }

    /// The element that `token` addresses, if there is one.
    pub fn get(&self, token: Token) -> (r: Option<&T>)
        ensures
            self@.contains_key(token) ==> r == Some(&self@[token]),
            !self@.contains_key(token) ==> r is None,
    {
        let i = token.slot();
        if i == 0 || i > self.data.len() {
            return None;
        }
        match &self.data[i - 1] {
            Cell::Just(data) => Some(data),
            Cell::Nothing(_) => None,
        }
    }

    /// The element that `token` addresses, if there is one, for changing in
    /// place.
    pub fn get_mut(&mut self, token: Token) -> (r: Option<&mut T>)
        ensures
            old(self)@.contains_key(token) ==> r is Some && *r.unwrap() == old(self)@[token]
                && final(self).changed(*old(self), token, *final(r.unwrap())),
            !old(self)@.contains_key(token) ==> r is None && *final(self) == *old(self),
    {
        let i = token.slot();
        if i == 0 || i > self.data.len() {
            return None;
        }
        if let Cell::Nothing(_) = &self.data[i - 1] {
            return None;
        }
        match &mut self.data[i - 1] {
            Cell::Just(data) => Some(data),
            Cell::Nothing(_) => vstd::pervasive::unreached(),
        }
    }

    /// This pool is `before` with `value` in the occupied slot `token`, and
    /// nothing else is different.
    pub closed spec fn changed(&self, before: Self, token: Token, value: T) -> bool {
        &&& before.occupied(token)
        &&& self.data@ == before.data@.update(token.index - 1, Cell::Just(value))
        &&& self.head == before.head
        &&& self.len == before.len
        &&& self.free == before.free
    }

    /// Changing the element of an occupied slot leaves the pool well formed,
    /// with the same slots occupied and free.
    pub broadcast proof fn lemma_changed(&self, before: Self, token: Token, value: T)
        requires
            before.wf(),
            #[trigger] self.changed(before, token, value),
        ensures
            self.wf(),
            self@ == before@.insert(token, value),
            before@.contains_key(token),
            self.slots() == before.slots(),
            self.spec_len() == before.spec_len(),
    {
        let free = self.free@;
        assert forall|k: int| 0 <= k < free.len() implies #[trigger] self.chained(k) by {
            assert(before.chained(k));
        }
        assert forall|t: Token| #[trigger] self.vacant(t) implies free.contains(t) by {
            assert(before.vacant(t));
        }
        assert(self@ =~= before@.insert(token, value)) by {
            assert forall|t: Token| self.occupied(t) == before.occupied(t) by {}
        }
        assert(self@.dom() =~= before@.dom());
    }

    /// The last slot of the free list, if any slot is free.
    pub(crate) fn find_last_available(&self) -> (r: Option<Token>)
        requires
            self.wf(),
        ensures
            r == (if self.slots().free.len() > 0 {
                Some(self.slots().free.last())
            } else {
                None
            }),
    {
        match self.head {
            None => None,
            Some(head) => {
                let mut cur = head;
                let ghost mut i: int = 0;
                loop
                    invariant_except_break
                        self.wf(),
                        0 <= i < self.free@.len(),
                        cur == self.free@[i],
                    ensures
                        self.free@.len() > 0,
                        cur == self.free@.last(),
                    decreases self.free@.len() - i,
                {
                    proof {
                        assert(self.chained(i));
                    }
                    match &self.data[cur.slot() - 1] {
                        Cell::Nothing(Some(n)) => {
                            cur = *n;
                            proof {
                                i = i + 1;
                            }
                        },
                        Cell::Nothing(None) => {
                            break ;
                        },
                        Cell::Just(_) => {
                            return vstd::pervasive::unreached();
                        },
                    }
                }
                Some(cur)
            },
        }
    }

    /// Adds `additional` free slots and chains them behind the free list.
    /// The end of the free list is found by walking it, which takes as many
    /// steps as there are free slots.
    pub fn reserve(&mut self, additional: usize)
        requires
            old(self).wf(),
            additional >= 1,
            old(self).slots().capacity + additional <= usize::MAX,
        ensures
            final(self).wf(),
            final(self)@ == old(self)@,
            final(self).spec_len() == old(self).spec_len(),
            final(self).slots() == old(self).slots().grown(additional as nat),
    {
        let old_cap = self.data.len();
        let first = Token::from_index(old_cap + 1);
        let ghost before = *self;
        let ghost n = before.free@.len() as int;
        let ghost tail_at: int = if n > 0 {
            before.free@[n - 1].index - 1
        } else {
            -1
        };
        match self.find_last_available() {
            None => {
                self.head = Some(first);
            },
            Some(tail) => {
                proof {
                    assert(self.chained(n - 1));
                }
                self.data.set(tail.slot() - 1, Cell::Nothing(Some(first)));
            },
        }
        let mut k: usize = 0;
        while k < additional
            invariant
                k <= additional,
                old_cap + additional <= usize::MAX,
                old_cap == before.data.len(),
                first == (Token { index: (old_cap + 1) as usize }),
                0 <= tail_at < old_cap || (n == 0 && tail_at == -1),
                self.data.len() == old_cap + k,
                self.len == before.len,
                self.free@ == before.free@,
                self.head == (if n > 0 {
                    before.head
                } else {
                    Some(first)
                }),
                forall|j: int|
                    0 <= j < old_cap ==> #[trigger] self.data[j] == (if j == tail_at {
                        Cell::<T>::Nothing(Some(first))
                    } else {
                        before.data[j]
                    }),
                forall|j: int|
                    old_cap <= j < old_cap + k ==> #[trigger] self.data[j] == Cell::<T>::Nothing(
                        if j + 1 < old_cap + additional {
                            Some(Token { index: (j + 2) as usize })
                        } else {
                            None
                        },
                    ),
            decreases additional - k,
        {
            let next = if k + 1 < additional {
                Some(Token::from_index(old_cap + k + 2))
            } else {
                None
            };
            self.data.push(Cell::Nothing(next));
            k += 1;
        }
        proof {
            self.free@ = before.free@ + fresh_tokens(old_cap as nat, additional as nat);
            Self::lemma_grown(before, *self, additional as nat);
        }
    }

    /// New free cells behind the old ones, and the old tail linked to the
    /// first of them, make a well-formed pool with the same elements.
    proof fn lemma_grown(before: Self, after: Self, additional: nat)
        requires
            before.wf(),
            additional >= 1,
            before.data.len() + additional <= usize::MAX,
            after.data.len() == before.data.len() + additional,
            after.len == before.len,
            after.free@ == before.free@ + fresh_tokens(before.data.len() as nat, additional),
            after.head == (if before.free@.len() > 0 {
                before.head
            } else {
                Some(Token { index: (before.data.len() + 1) as usize })
            }),
            forall|j: int|
                0 <= j < before.data.len() ==> #[trigger] after.data[j] == (if before.free@.len() > 0
                    && j == before.free@.last().index - 1 {
                    Cell::<T>::Nothing(Some(Token { index: (before.data.len() + 1) as usize }))
                } else {
                    before.data[j]
                }),
            forall|j: int|
                before.data.len() <= j < after.data.len() ==> #[trigger] after.data[j] == Cell::<
                    T,
                >::Nothing(
                    if j + 1 < after.data.len() {
                        Some(Token { index: (j + 2) as usize })
                    } else {
                        None
                    },
                ),
        ensures
            after.wf(),
            after@ == before@,
    {
        let old_cap = before.data.len() as int;
        let n = before.free@.len() as int;
        let fresh = fresh_tokens(old_cap as nat, additional);
        let free = after.free@;
        let tail_at: int = if n > 0 {
            before.free@[n - 1].index - 1
        } else {
            -1
        };
        assert forall|i: int| 0 <= i < free.len() implies #[trigger] after.chained(i) by {
            if i < n {
                assert(free[i] == before.free@[i]);
                assert(before.chained(i));
                if i + 1 < n {
                    assert(free[i + 1] == before.free@[i + 1]);
                    assert(before.free@[i] != before.free@[n - 1]);
                } else {
                    assert(free[i + 1] == fresh[0]);
                }
            } else {
                assert(free[i] == fresh[i - n]);
                if i + 1 < free.len() {
                    assert(free[i + 1] == fresh[i + 1 - n]);
                }
            }
        }
        assert forall|i: int, j: int|
            0 <= i < free.len() && 0 <= j < free.len() && i != j implies free[i] != free[j] by {
            if i < n {
                assert(free[i] == before.free@[i]);
                assert(before.chained(i));
            } else {
                assert(free[i] == fresh[i - n]);
            }
            if j < n {
                assert(free[j] == before.free@[j]);
                assert(before.chained(j));
            } else {
                assert(free[j] == fresh[j - n]);
            }
        }
        assert forall|t: Token| #[trigger] after.vacant(t) implies free.contains(t) by {
            if t.index <= old_cap {
                if t.index - 1 == tail_at {
                    assert(free[n - 1] == t);
                } else {
                    assert(before.vacant(t));
                    let i = choose|i: int| 0 <= i < n && before.free@[i] == t;
                    assert(free[i] == t);
                }
            } else {
                let j = t.index - old_cap - 1;
                assert(fresh[j] == t);
                assert(free[n + j] == t);
            }
        }
        assert(after@ =~= before@) by {
            assert forall|t: Token| after.occupied(t) == before.occupied(t) by {
                if 1 <= t.index <= old_cap {
                    if t.index - 1 == tail_at {
                        assert(before.chained(n - 1));
                    }
                }
            }
        }
    }

    /// The slot that the next element will be put in. If no slot is free the
    /// pool grows first.
    pub fn head(&mut self) -> (token: Token)
        requires
            old(self).wf(),
            old(self).spec_len() < usize::MAX,
        ensures
            final(self).wf(),
            final(self)@ == old(self)@,
            final(self).spec_len() == old(self).spec_len(),
            final(self).slots() == old(self).slots().ready(),
            token == old(self).slots().next(),
    {
        match self.head {
            Some(head) => head,
            None => {
                let capacity = self.data.len();
                let room = usize::MAX - capacity;
                let additional = if capacity <= room {
                    capacity
                } else {
                    room
                };
                self.reserve(additional);
                match self.head {
                    Some(head) => head,
                    None => vstd::pervasive::unreached(),
                }
            },
        }
    }

    /// Puts `data` into the next free slot and returns the slot's token. A
    /// full pool grows first: it doubles, as far as slot numbers go.
    pub fn insert(&mut self, data: T) -> (token: Token)
        requires
            old(self).wf(),
            old(self).spec_len() < usize::MAX,
        ensures
            final(self).wf(),
            token == old(self).slots().next(),
            final(self).slots() == old(self).slots().taken(),
            !old(self)@.contains_key(token),
            final(self)@ == old(self)@.insert(token, data),
            final(self).spec_len() == old(self).spec_len() + 1,
    {
        let token = self.head();
        let ghost before = *self;
        proof {
            assert(self.chained(0));
        }
        let i = token.slot() - 1;
        let next = match &self.data[i] {
            Cell::Nothing(next) => *next,
            Cell::Just(_) => vstd::pervasive::unreached(),
        };
        self.head = next;
        self.len += 1;
        self.data.set(i, Cell::Just(data));
        proof {
            assert(before.free@[0] == token);
            assert(before.chained(0));
            self.free@ = before.free@.drop_first();
            let free = self.free@;
            assert forall|k: int| 0 <= k < free.len() implies #[trigger] self.chained(k) by {
                assert(free[k] == before.free@[k + 1]);
                assert(before.free@[k + 1] != before.free@[0]);
                assert(before.chained(k + 1));
                if k + 1 < free.len() {
                    assert(free[k + 1] == before.free@[k + 2]);
                }
            }
            assert forall|t: Token| #[trigger] self.vacant(t) implies free.contains(t) by {
                assert(before.vacant(t));
                let k = choose|k: int| 0 <= k < before.free@.len() && before.free@[k] == t;
                assert(free[k - 1] == t);
            }
            assert(self@ =~= before@.insert(token, data)) by {
                assert forall|t: Token| self.occupied(t) == (before.occupied(t) || t == token) by {}
            }
            assert(!before.occupied(token));
        }
        token
    }

    /// Takes the element that `token` addresses out of the pool. The slot
    /// becomes the head of the free list. Nothing happens if `token`
    /// addresses no element.
    pub fn remove(&mut self, token: Token) -> (r: Option<T>)
        requires
            old(self).wf(),
        ensures
            final(self).wf(),
            old(self)@.contains_key(token) ==> {
                &&& r == Some(old(self)@[token])
                &&& final(self)@ == old(self)@.remove(token)
                &&& final(self).slots() == old(self).slots().given(token)
                &&& final(self).spec_len() == old(self).spec_len() - 1
            },
            !old(self)@.contains_key(token) ==> {
                &&& r is None
                &&& final(self)@ == old(self)@
                &&& final(self).slots() == old(self).slots()
                &&& final(self).spec_len() == old(self).spec_len()
            },
    {
        let i = token.slot();
        if i == 0 || i > self.data.len() {
            return None;
        }
        if let Cell::Nothing(_) = &self.data[i - 1] {
            return None;
        }
        let ghost before = *self;
        let mut cell = Cell::Nothing(self.head);
        core::mem::swap(&mut cell, &mut self.data[i - 1]);
        proof {
            assert(before.occupied(token));
            assert(before@.dom().contains(token));
            if before@.dom().len() == 0 {
                assert(before@.dom() =~= Set::empty());
            }
        }
        self.head = Some(token);
        self.len -= 1;
        proof {
            self.free@ = Seq::empty().push(token) + before.free@;
            let free = self.free@;
            assert(free =~= seq![token] + before.free@);
            assert(free[0] == token);
            assert(!before.free@.contains(token)) by {
                if before.free@.contains(token) {
                    let k = choose|k: int| 0 <= k < before.free@.len() && before.free@[k] == token;
                    assert(before.chained(k));
                }
            }
            assert forall|k: int| 0 <= k < free.len() implies #[trigger] self.chained(k) by {
                if k > 0 {
                    assert(free[k] == before.free@[k - 1]);
                    assert(before.chained(k - 1));
                    if k + 1 < free.len() {
                        assert(free[k + 1] == before.free@[k]);
                    }
                } else {
                    if 1 < free.len() {
                        assert(free[1] == before.free@[0]);
                    }
                }
            }
            assert forall|a: int, b: int|
                0 <= a < free.len() && 0 <= b < free.len() && a != b implies free[a] != free[b] by {
                if a > 0 {
                    assert(free[a] == before.free@[a - 1]);
                }
                if b > 0 {
                    assert(free[b] == before.free@[b - 1]);
                }
            }
            assert forall|t: Token| #[trigger] self.vacant(t) implies free.contains(t) by {
                if t == token {
                    assert(free[0] == t);
                } else {
                    assert(before.vacant(t));
                    let k = choose|k: int| 0 <= k < before.free@.len() && before.free@[k] == t;
                    assert(free[k + 1] == t);
                }
            }
            assert(self@ =~= before@.remove(token)) by {
                assert forall|t: Token| self.occupied(t) == (before.occupied(t) && t != token) by {}
            }
        }
        match cell {
            Cell::Just(data) => Some(data),
            Cell::Nothing(_) => vstd::pervasive::unreached(),
        }
    }

    /// Puts `data` where `token` points: in place of the element there, which
    /// is returned, or else into the next free slot.
    pub fn set(&mut self, token: Token, data: T) -> (r: Option<T>)
        requires
            old(self).wf(),
            old(self)@.contains_key(token) || old(self).spec_len() < usize::MAX,
        ensures
            final(self).wf(),
            old(self)@.contains_key(token) ==> {
                &&& r == Some(old(self)@[token])
                &&& final(self)@ == old(self)@.insert(token, data)
                &&& final(self).slots() == old(self).slots()
                &&& final(self).spec_len() == old(self).spec_len()
            },
            !old(self)@.contains_key(token) ==> {
                &&& r is None
                &&& final(self)@ == old(self)@.insert(old(self).slots().next(), data)
                &&& final(self).slots() == old(self).slots().taken()
                &&& final(self).spec_len() == old(self).spec_len() + 1
            },
    {
        let out = self.remove(token);
        let ghost mid = *self;
        let put = self.insert(data);
        proof {
            if old(self)@.contains_key(token) {
                assert(mid.slots().free.drop_first() =~= old(self).slots().free);
                assert(final(self)@ =~= old(self)@.insert(token, data));
            }
        }
        out
    }
}

impl<T> Default for Allocator<T> {
    /// A pool of one free slot.
    fn default() -> (a: Self)
        ensures
            a.wf(),
            a@ == Map::<Token, T>::empty(),
            a.slots() == (Slots { free: seq![Token::at(1)], capacity: 1 }),
            a.spec_len() == 0,
    {
        Allocator::new()
    }
}

} // verus!
