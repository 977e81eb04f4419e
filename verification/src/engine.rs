//! The engine: one pass over the source, shared by all groups.
//!
//! The engine pulls from the source on behalf of the group that asks. The
//! group at the frontier is served straight from the source. When a later
//! group is asked for while the frontier group has elements left, these are
//! put aside in a buffer, from which the group is served afterwards.

use crate::key::{accepts_all, keys_of, lemma_stateless, state_after, KeyFunction};
use crate::runs::{
    lemma_next_run_starts_at, lemma_run_goes_on, lemma_run_start, lemma_run_start_at_least,
    lemma_run_start_monotone, run, run_start, starts_run,
};
use std::collections::VecDeque;
use vstd::prelude::*;
use vstd::std_specs::cmp::PartialEqSpec;
use vstd::std_specs::iter::IteratorSpec;

verus! {

/// The state of one pass over a source that is cut into groups.
///
/// The engine is described over the source sequence, which is what the source
/// had to give when the engine was made (`origin().remaining()`), and over the
/// keys of its elements. Group `c` is run number `c` of the source under these
/// keys. For each group the engine keeps count of how many of its elements
/// are gone (`taken`); what is left of the group (`owed`) it hands out in
/// order, one element for each step that the group asks for.
pub struct GroupInner<K, I: Iterator, F> {
    key: F,
    iter: I,
    current_key: Option<K>,
    current_elt: Option<I::Item>,
    /// Set once the source has reported its end.
    done: bool,
    /// Index of the group at the frontier: the one that is read from the source.
    top: usize,
    /// Least index of a group that may still have buffered elements.
    bot: usize,
    /// Index of the group of `buffer[0]`. The slots from `bufbot` to `bot` are
    /// empty and wait to be erased.
    bufbot: usize,
    /// Buffered groups, from `bufbot` on.
    buffer: Vec<VecDeque<I::Item>>,
    /// Greatest index of a group that was dropped; `usize::MAX` when none was.
    dropped_group: usize,
    /// The source as it was handed over.
    origin: Ghost<I>,
    /// The key function as it was handed over.
    first_key: Ghost<F>,
    /// How many elements have been pulled from the source.
    pulled: Ghost<nat>,
}

impl<K, I, F> GroupInner<K, I, F> where
    I: Iterator,
    F: KeyFunction<I::Item, Key = K>,
    K: PartialEq,
 {
    /// The source as it was when the engine was made. What it had to give
    /// then is the source sequence that the engine groups.
    pub closed spec fn origin(&self) -> I {
        self.origin@
    }

    /// The source as it is now.
    pub closed spec fn feed(&self) -> I {
        self.iter
    }

    /// The key function as it was when the engine was made.
    pub closed spec fn key_function(&self) -> F {
        self.first_key@
    }

    /// The key of every element of `source`: the key that the key function
    /// gives it when it is called on the elements in order.
    pub open spec fn keys(&self, source: Seq<I::Item>) -> Seq<K> {
        keys_of(self.key_function(), source)
    }

    /// How many elements have been pulled from the source.
    pub closed spec fn pulled(&self) -> nat {
        self.pulled@
    }

    /// The element pulled last is held back, not yet handed to its group.
    pub closed spec fn held(&self) -> bool {
        self.current_elt is Some
    }

    /// The source has reported its end.
    pub closed spec fn exhausted(&self) -> bool {
        self.done
    }

    /// The index of the group at the frontier: the group of the element pulled
    /// last.
    pub closed spec fn frontier(&self) -> nat {
        self.top as nat
    }

    /// Every group below this index has nothing left to give.
    pub closed spec fn reclaimed(&self) -> nat {
        self.bot as nat
    }

    /// The greatest index of a group that was dropped; `usize::MAX` when none
    /// was.
    pub closed spec fn dropped_mark(&self) -> usize {
        self.dropped_group
    }

    /// The index of the group that the first slot of the buffer stands for.
    pub closed spec fn base(&self) -> nat {
        self.bufbot as nat
    }

    /// How many slots the buffer has, the empty ones counted.
    pub closed spec fn slots(&self) -> nat {
        self.buffer.len() as nat
    }

    /// Slot `i` of the buffer holds the rest of its group and nothing else.
    spec fn slot_ok(&self, source: Seq<I::Item>, i: int) -> bool {
        let c = (self.bufbot + i) as nat;
        let whole = run(source, self.keys(source), c);
        let queue = self.buffer[i]@;
        &&& queue.len() <= whole.len()
        &&& queue == whole.skip(whole.len() - queue.len())
        &&& c < self.bot ==> queue.len() == 0
    }

    /// The source and the pulling of it: sizes, the key function's state and
    /// the place of the frontier.
    spec fn wf_source(&self, source: Seq<I::Item>) -> bool {
        let keys = self.keys(source);
        let pos = self.pulled@ as int;
        let top = self.top as nat;
        &&& K::obeys_eq_spec()
        &&& self.iter.obeys_prophetic_iter_laws()
        &&& self.iter.decrease() is Some
        &&& source.len() <= usize::MAX
        &&& accepts_all(self.first_key@, source)
        &&& pos <= source.len()
        &&& self.key == state_after(self.first_key@, source, self.pulled@)
        &&& forall|j: nat|
            j < self.pulled@ ==> (#[trigger] state_after(self.first_key@, source, j)).yields(
                &source[j as int],
                keys[j as int],
            )
        &&& run_start(keys, top) <= pos <= run_start(keys, top + 1)
        &&& pos == 0 ==> top == 0
        &&& pos > 0 ==> run_start(keys, top) < pos
        &&& self.done ==> pos == source.len()
    }

    /// The element and the key that are kept from the last pull.
    spec fn wf_lookahead(&self, source: Seq<I::Item>) -> bool {
        let keys = self.keys(source);
        let pos = self.pulled@ as int;
        &&& pos == 0 ==> self.current_key is None
        &&& self.current_elt matches Some(e) ==> pos > 0 && e == source[pos - 1] && !self.done
        &&& !self.done && pos > 0 ==> self.current_key == Some(keys[pos - 1])
    }

    /// The buffer: its bounds and what its slots hold.
    spec fn wf_buffer(&self, source: Seq<I::Item>) -> bool {
        let top = self.top as nat;
        &&& self.bufbot <= self.bot <= top + 1
        &&& self.bot == top + 1 ==> self.done
        &&& self.buffer.len() <= top + 1 - self.bufbot
        &&& self.buffer.len() == top + 1 - self.bufbot ==> self.done
        &&& self.buffer.len() == 0 ==> self.bufbot == self.bot
        &&& forall|i: int| 0 <= i < self.buffer.len() ==> self.slot_ok(source, i)
    }

    /// The engine is in a state that it can reach on `source`.
    pub closed spec fn wf(&self, source: Seq<I::Item>) -> bool {
        &&& self.wf_source(source)
        &&& self.wf_lookahead(source)
        &&& self.wf_buffer(source)
    }

    /// The engine is in a state that it can reach on `source`, and `rest` is
    /// what it has not pulled yet.
    pub open spec fn valid(&self, source: Seq<I::Item>, rest: Seq<I::Item>) -> bool {
        &&& self.wf(source)
        &&& rest == source.skip(self.pulled() as int)
    }

    /// What the buffer holds for group `c`.
    pub closed spec fn buffered(&self, c: nat) -> Seq<I::Item> {
        if self.bot <= c && c - self.bufbot < self.buffer.len() {
            self.buffer[c - self.bufbot]@
        } else {
            Seq::empty()
        }
    }

    /// Group `c` is served from the buffer: the frontier has passed it, or
    /// the source ended while it was put aside.
    pub open spec fn settled(&self, c: nat) -> bool {
        c < self.frontier() || c < self.reclaimed() || c - self.base() < self.slots()
    }

    /// How many elements of group `c` are gone from the engine: handed out,
    /// or thrown away because the group was dropped.
    pub closed spec fn taken(&self, source: Seq<I::Item>, c: nat) -> nat {
        let keys = self.keys(source);
        if self.settled(c) {
            (run(source, keys, c).len() - self.buffered(c).len()) as nat
        } else if c == self.top {
            (self.pulled@ - (if self.current_elt is Some {
                1int
            } else {
                0int
            }) - run_start(keys, c)) as nat
        } else {
            0
        }
    }

    /// What the engine still owes to group `c`.
    pub open spec fn owed(&self, source: Seq<I::Item>, c: nat) -> Seq<I::Item> {
        run(source, self.keys(source), c).skip(self.taken(source, c) as int)
    }

    /// The element that group `c` gets next, if it has one left.
    pub open spec fn next_of(&self, source: Seq<I::Item>, c: nat) -> Option<I::Item> {
        if self.owed(source, c).len() > 0 {
            Some(self.owed(source, c)[0])
        } else {
            None
        }
    }

    /// The client is the frontier group of a source that has not reported its
    /// end: it is served straight from the source.
    pub open spec fn serves_directly(&self, client: nat) -> bool {
        !self.exhausted() && client == self.frontier()
    }

    /// The client is the group after the frontier group, and the source has
    /// not reported its end: the source is walked up to the client's first
    /// element.
    pub open spec fn opens_next(&self, client: nat) -> bool {
        !self.exhausted() && client == self.frontier() + 1
    }

    /// How many elements have been pulled after a step for `client`.
    pub open spec fn pulled_after(&self, source: Seq<I::Item>, client: nat) -> nat {
        let start = run_start(self.keys(source), client);
        if self.serves_directly(client) {
            if !self.held() && self.pulled() < source.len() {
                self.pulled() + 1
            } else {
                self.pulled()
            }
        } else if self.opens_next(client) {
            if start < source.len() {
                (start + 1) as nat
            } else {
                source.len()
            }
        } else {
            self.pulled()
        }
    }

    /// Whether an element is held back after a step for `client`.
    pub open spec fn held_after(&self, source: Seq<I::Item>, client: nat) -> bool {
        if self.serves_directly(client) {
            !self.held() && starts_run(self.keys(source), self.pulled() as int)
        } else if self.opens_next(client) {
            false
        } else {
            self.held()
        }
    }

    /// Whether the source has reported its end after a step for `client`.
    pub open spec fn exhausted_after(&self, source: Seq<I::Item>, client: nat) -> bool {
        if self.serves_directly(client) {
            !self.held() && self.pulled() == source.len()
        } else if self.opens_next(client) {
            run_start(self.keys(source), client) == source.len()
        } else {
            self.exhausted()
        }
    }

    /// The frontier after a step for `client`.
    pub open spec fn frontier_after(&self, source: Seq<I::Item>, client: nat) -> nat {
        if self.serves_directly(client) && self.held_after(source, client) {
            self.frontier() + 1
        } else if self.opens_next(client) && !self.exhausted_after(source, client) {
            self.frontier() + 1
        } else {
            self.frontier()
        }
    }

    /// How many elements of group `c` are gone after a step for `client`.
    /// The client has one more gone if it had one left. The frontier group
    /// loses all that it had left if it was dropped and the step goes on to
    /// the group after it. Nothing else changes.
    pub open spec fn taken_after(&self, source: Seq<I::Item>, client: nat, c: nat) -> nat {
        if c == client {
            if self.next_of(source, client) is Some {
                self.taken(source, c) + 1
            } else {
                self.taken(source, c)
            }
        } else if self.opens_next(client) && c == self.frontier() && self.dropped_mark()
            == self.frontier() {
            run(source, self.keys(source), c).len()
        } else {
            self.taken(source, c)
        }
    }

    /// The client is served from the buffer: it is not reclaimed, and the
    /// frontier has passed it or it has a slot.
    pub open spec fn from_buffer(&self, client: nat) -> bool {
        &&& self.reclaimed() <= client
        &&& client < self.frontier() || (client == self.frontier() && self.slots() > self.frontier()
            - self.base())
    }

    /// The least index from `from` on of a group that has no slot in the
    /// buffer, or a slot that is not empty.
    pub open spec fn skip_empty(&self, from: nat) -> nat
        decreases self.base() + self.slots() - from,
    {
        if self.base() <= from && from - self.base() < self.slots() && self.buffered(from).len()
            == 0 {
            self.skip_empty(from + 1)
        } else {
            from
        }
    }

    /// A step for `client` finds the lowest group of the buffer empty.
    pub open spec fn finds_lowest_empty(&self, source: Seq<I::Item>, client: nat) -> bool {
        &&& self.from_buffer(client)
        &&& client == self.reclaimed()
        &&& self.next_of(source, client) is None
    }

    /// A step for `client` puts the frontier group into the buffer.
    pub open spec fn puts_aside(&self, client: nat) -> bool {
        self.opens_next(client) && self.dropped_mark() != self.frontier()
    }

    /// The lower bound of the groups that may have something left, after a
    /// step for `client`. Finding the lowest group empty moves it past that
    /// group and the empty ones that follow; putting a group into an empty
    /// buffer moves it up to that group.
    pub open spec fn reclaimed_after(&self, source: Seq<I::Item>, client: nat) -> nat {
        if self.finds_lowest_empty(source, client) {
            self.skip_empty(client + 1)
        } else if self.puts_aside(client) && self.slots() == 0 {
            self.frontier()
        } else {
            self.reclaimed()
        }
    }

    /// A step for `client` erases the empty slots at the front of the buffer:
    /// it has moved the lower bound, and the slots below it are at least half
    /// of the buffer.
    pub open spec fn erases(&self, source: Seq<I::Item>, client: nat) -> bool {
        &&& self.finds_lowest_empty(source, client)
        &&& self.reclaimed_after(source, client) - self.base() >= self.slots() / 2
    }

    /// The group of the buffer's first slot after a step for `client`.
    pub open spec fn base_after(&self, source: Seq<I::Item>, client: nat) -> nat {
        if self.erases(source, client) {
            self.reclaimed_after(source, client)
        } else if self.puts_aside(client) && self.slots() == 0 {
            self.frontier()
        } else {
            self.base()
        }
    }

    /// The number of slots of the buffer after a step for `client`.
    pub open spec fn slots_after(&self, source: Seq<I::Item>, client: nat) -> nat {
        if self.erases(source, client) {
            if self.reclaimed_after(source, client) - self.base() >= self.slots() {
                0
            } else {
                (self.slots() - (self.reclaimed_after(source, client) - self.base())) as nat
            }
        } else if self.puts_aside(client) {
            (self.frontier() + 1 - self.base_after(source, client)) as nat
        } else {
            self.slots()
        }
    }

    /// `next` is the engine after a step for `client` that returned `r`.
    pub open spec fn stepped(
        &self,
        next: &Self,
        source: Seq<I::Item>,
        client: nat,
        r: Option<I::Item>,
    ) -> bool {
        &&& r == self.next_of(source, client)
        &&& forall|c: nat| #[trigger]
            next.taken(source, c) == self.taken_after(source, client, c)
        &&& next.pulled() == self.pulled_after(source, client)
        &&& next.held() == self.held_after(source, client)
        &&& next.exhausted() == self.exhausted_after(source, client)
        &&& next.frontier() == self.frontier_after(source, client)
        &&& next.dropped_mark() == self.dropped_mark()
        &&& next.reclaimed() == self.reclaimed_after(source, client)
        &&& next.base() == self.base_after(source, client)
        &&& next.slots() == self.slots_after(source, client)
        &&& next.key_function() == self.key_function()
        &&& next.origin() == self.origin()
    }

    /// Every element has a key.
    pub proof fn lemma_keys(&self, source: Seq<I::Item>)
        ensures
            self.keys(source).len() == source.len(),
    {
    }

    /// The keys of the elements pulled so far are keys that the key function
    /// has returned for them.
    pub proof fn lemma_keys_seen(&self, source: Seq<I::Item>, j: nat)
        requires
            self.wf(source),
            j < self.pulled(),
        ensures
            state_after(self.key_function(), source, j).yields(
                &source[j as int],
                self.keys(source)[j as int],
            ),
    {
    }

    /// Where the engine stands in the source: the frontier group is the group
    /// of the element pulled last, and nothing is pulled from beyond it.
    pub proof fn lemma_position(&self, source: Seq<I::Item>)
        requires
            self.wf(source),
        ensures
            self.pulled() <= source.len() <= usize::MAX,
            self.frontier() < usize::MAX,
            self.reclaimed() <= self.frontier() + 1,
            self.pulled() == 0 ==> self.frontier() == 0 && !self.held(),
            self.pulled() > 0 ==> run_start(self.keys(source), self.frontier()) < self.pulled(),
            self.pulled() <= run_start(self.keys(source), self.frontier() + 1),
            self.exhausted() ==> self.pulled() == source.len() && !self.held(),
    {
        lemma_run_start_at_least(self.keys(source), self.top as nat);
    }

    /// The shape of the buffer: its slots stand for the groups from `base()`
    /// up to the frontier at most, the frontier group itself has a slot only
    /// once the source has ended, and the slots below `reclaimed()` are
    /// empty. What a slot holds is what its group is owed.
    pub proof fn lemma_buffer(&self, source: Seq<I::Item>, c: nat)
        requires
            self.wf(source),
        ensures
            self.base() <= self.reclaimed() <= self.frontier() + 1,
            self.reclaimed() == self.frontier() + 1 ==> self.exhausted(),
            self.base() + self.slots() <= self.frontier() + 1,
            self.base() + self.slots() == self.frontier() + 1 ==> self.exhausted(),
            self.slots() == 0 ==> self.base() == self.reclaimed(),
            self.buffered(c) == if self.settled(c) {
                self.owed(source, c)
            } else {
                Seq::empty()
            },
    {
        if self.bot <= c && c - self.bufbot < self.buffer.len() {
            assert(self.slot_ok(source, c - self.bufbot));
        }
        assert(self.buffered(c) =~= if self.settled(c) {
            self.owed(source, c)
        } else {
            Seq::empty()
        });
    }

    /// How much of each group is gone: never more than the group has, nothing
    /// of the groups beyond the frontier, and of the frontier group what was
    /// pulled of it, but for an element held back.
    pub proof fn lemma_taken(&self, source: Seq<I::Item>, c: nat)
        requires
            self.wf(source),
        ensures
            self.taken(source, c) <= run(source, self.keys(source), c).len(),
            c > self.frontier() ==> self.taken(source, c) == 0,
            c == self.frontier() && !self.exhausted() ==> self.taken(source, c) == self.pulled()
                - (if self.held() {
                1int
            } else {
                0int
            }) - run_start(self.keys(source), c),
            self.exhausted() && c > self.frontier() ==> run(source, self.keys(source), c).len()
                == 0,
    {
        let keys = self.keys(source);
        lemma_run_start(keys, c);
        lemma_run_start(keys, self.top as nat);
        if c > self.top {
            lemma_run_start_monotone(keys, self.top as nat + 1, c);
        }
        if self.settled(c) && self.bot <= c && c - self.bufbot < self.buffer.len() {
            assert(self.slot_ok(source, c - self.bufbot));
        }
    }

    /// Nothing carries over once a group is reclaimed: a group below
    /// `reclaimed()` has nothing left, so a step for it returns `None`.
    pub proof fn law_reclaimed_groups_are_spent(&self, source: Seq<I::Item>, c: nat)
        requires
            self.wf(source),
            c < self.reclaimed(),
        ensures
            self.taken(source, c) == run(source, self.keys(source), c).len(),
            self.owed(source, c).len() == 0,
            self.next_of(source, c) is None,
    {
    }

    /// The lower bound never falls: a group that was reclaimed stays
    /// reclaimed, whatever is asked for afterwards.
    pub proof fn law_reclaimed_only_grows(
        &self,
        next: &Self,
        source: Seq<I::Item>,
        client: nat,
        r: Option<I::Item>,
    )
        requires
            self.wf(source),
            self.stepped(next, source, client, r),
        ensures
            next.reclaimed() >= self.reclaimed(),
    {
        if self.finds_lowest_empty(source, client) {
            self.lemma_skipped(source, client + 1);
        }
    }

    /// Whether the frontier group gets an element from a source that has not
    /// reported its end: the one held back, or else the next of the source
    /// unless that one starts a new group.
    pub proof fn lemma_next_at_frontier(&self, source: Seq<I::Item>)
        requires
            self.wf(source),
            !self.exhausted(),
        ensures
            self.next_of(source, self.frontier()) == if self.held() {
                Some(source[self.pulled() - 1])
            } else if self.pulled() < source.len() && !starts_run(
                self.keys(source),
                self.pulled() as int,
            ) {
                Some(source[self.pulled() as int])
            } else {
                None
            },
    {
        let keys = self.keys(source);
        let top = self.top as nat;
        let pos = self.pulled@ as int;
        lemma_run_start(keys, top);
        if self.current_elt is None && pos < source.len() {
            if starts_run(keys, pos) {
                lemma_next_run_starts_at(keys, top, pos);
            } else {
                lemma_run_goes_on(keys, top, pos);
            }
        }
    }

    /// Order of consumption: a step for one group leaves what every other
    /// group is owed as it was, as long as no group is dropped before it is
    /// drained. The other group then gets the same next element, whether it
    /// asks before or after.
    pub proof fn law_step_leaves_others_alone(
        &self,
        next: &Self,
        source: Seq<I::Item>,
        client: nat,
        r: Option<I::Item>,
        other: nat,
    )
        requires
            self.wf(source),
            self.stepped(next, source, client, r),
            other != client,
            other == self.dropped_mark() ==> self.owed(source, other).len() == 0,
        ensures
            next.owed(source, other) == self.owed(source, other),
            next.next_of(source, other) == self.next_of(source, other),
    {
    }

    /// Dropping without consuming: a step throws away elements of the dropped
    /// group at most. What any other group is owed stays as it was.
    pub proof fn law_step_spares_groups_not_dropped(
        &self,
        next: &Self,
        source: Seq<I::Item>,
        client: nat,
        r: Option<I::Item>,
        other: nat,
    )
        requires
            self.wf(source),
            self.stepped(next, source, client, r),
            other != client,
            other != self.dropped_mark(),
        ensures
            next.owed(source, other) == self.owed(source, other),
            next.next_of(source, other) == self.next_of(source, other),
    {
    }

    /// What a step gives its client: the head of what the client was owed,
    /// which is then owed the rest.
    pub proof fn law_step_serves_in_order(
        &self,
        next: &Self,
        source: Seq<I::Item>,
        client: nat,
        r: Option<I::Item>,
    )
        requires
            self.wf(source),
            self.stepped(next, source, client, r),
        ensures
            r matches Some(e) ==> self.owed(source, client) == seq![e] + next.owed(source, client),
            r is None ==> self.owed(source, client).len() == 0 && next.owed(source, client).len()
                == 0,
    {
        self.lemma_taken(source, client);
    }

    /// Between `self` and `next` no group has received anything or lost
    /// anything: as after a call of `group_key` or `drop_group`, or after no
    /// call at all.
    pub open spec fn same_contents(&self, next: &Self, source: Seq<I::Item>) -> bool {
        &&& next.key_function() == self.key_function()
        &&& forall|c: nat| #[trigger] next.taken(source, c) == self.taken(source, c)
    }

    /// A history of steps: step number `i` took the engine from `before[i]`
    /// to `after[i]`, for the group `clients[i]` and with the result
    /// `results[i]`. Between two steps the engine was called for keys or
    /// drops at most.
    pub open spec fn history(
        before: Seq<Self>,
        after: Seq<Self>,
        source: Seq<I::Item>,
        clients: Seq<nat>,
        results: Seq<Option<I::Item>>,
    ) -> bool {
        &&& before.len() == clients.len()
        &&& after.len() == clients.len()
        &&& results.len() == clients.len()
        &&& forall|i: int| 0 <= i < clients.len() ==> (#[trigger] before[i]).wf(source)
        &&& forall|i: int|
            0 <= i < clients.len() ==> (#[trigger] before[i]).stepped(
                &after[i],
                source,
                clients[i],
                results[i],
            )
        &&& forall|i: int|
            0 <= i < clients.len() - 1 ==> (#[trigger] after[i]).same_contents(
                &before[i + 1],
                source,
            )
    }

    /// The elements that group `g` received in the first `n` steps of a
    /// history, in the order in which it received them.
    pub open spec fn received(
        clients: Seq<nat>,
        results: Seq<Option<I::Item>>,
        g: nat,
        n: nat,
    ) -> Seq<I::Item>
        decreases n,
    {
        if n == 0 {
            Seq::empty()
        } else {
            let earlier = Self::received(clients, results, g, (n - 1) as nat);
            if clients[n - 1] == g && results[n - 1] is Some {
                earlier.push(results[n - 1]->0)
            } else {
                earlier
            }
        }
    }

    /// Whatever the order in which the groups ask, a group receives what it
    /// was owed, from the front and in order: what it was owed at the start
    /// of a history is what it has received in it, followed by what it is
    /// still owed. This holds of every group that is not dropped before it
    /// is drained; the steps of the others, and their being dropped, do not
    /// disturb it.
    pub proof fn law_any_order_same_contents(
        before: Seq<Self>,
        after: Seq<Self>,
        source: Seq<I::Item>,
        clients: Seq<nat>,
        results: Seq<Option<I::Item>>,
        g: nat,
        n: nat,
    )
        requires
            Self::history(before, after, source, clients, results),
            0 < n <= clients.len(),
            forall|i: int|
                0 <= i < n && g == (#[trigger] before[i]).dropped_mark() ==> before[i].owed(
                    source,
                    g,
                ).len() == 0,
        ensures
            before[0].owed(source, g) == Self::received(clients, results, g, n) + after[n
                - 1].owed(source, g),
        decreases n,
    {
        let last = n - 1;
        let start = before[0].owed(source, g);
        let earlier = Self::received(clients, results, g, last as nat);
        let so_far = Self::received(clients, results, g, n);
        let here = before[last].owed(source, g);
        let rest = after[last].owed(source, g);
        // what came before the last step
        assert(start == earlier + here) by {
            if last > 0 {
                Self::law_any_order_same_contents(
                    before,
                    after,
                    source,
                    clients,
                    results,
                    g,
                    last as nat,
                );
                assert(after[last - 1].same_contents(&before[last], source));
            } else {
                assert(start =~= earlier + here);
            }
        }
        // the last step
        assert(before[last].wf(source));
        assert(before[last].stepped(&after[last], source, clients[last], results[last]));
        if clients[last] == g {
            before[last].law_step_serves_in_order(&after[last], source, g, results[last]);
            if results[last] is Some {
                assert(so_far == earlier.push(results[last]->0));
                assert(earlier + here =~= so_far + rest);
            } else {
                assert(here =~= rest);
            }
        } else {
            before[last].law_step_leaves_others_alone(
                &after[last],
                source,
                clients[last],
                results[last],
                g,
            );
        }
    }

    /// The slots stay in order as long as the buffer and its bounds stay as
    /// they are.
    proof fn lemma_same_slots(&self, before: &Self, source: Seq<I::Item>)
        requires
            self.buffer == before.buffer,
            self.bufbot == before.bufbot,
            self.bot == before.bot,
            self.first_key == before.first_key,
            forall|i: int| 0 <= i < before.buffer.len() ==> before.slot_ok(source, i),
        ensures
            forall|i: int| 0 <= i < self.buffer.len() ==> self.slot_ok(source, i),
    {
        assert forall|i: int| 0 <= i < self.buffer.len() implies self.slot_ok(source, i) by {
            assert(before.slot_ok(source, i));
        }
    }

    /// An engine that has pulled nothing yet.
    pub fn new(iter: I, key: F) -> (engine: Self)
        requires
            K::obeys_eq_spec(),
            iter.obeys_prophetic_iter_laws(),
            iter.decrease() is Some,
            iter.remaining().len() <= usize::MAX,
            accepts_all(key, iter.remaining()),
        ensures
            engine.origin() == iter,
            engine.feed() == iter,
            engine.key_function() == key,
            engine.valid(iter.remaining(), iter.remaining()),
            engine.pulled() == 0,
            !engine.held(),
            !engine.exhausted(),
            engine.frontier() == 0,
            engine.reclaimed() == 0,
            engine.dropped_mark() == usize::MAX,
            forall|c: nat| engine.taken(iter.remaining(), c) == 0,
    {
        let ghost origin = iter;
        let ghost first_key = key;
        let engine = GroupInner {
            key,
            iter,
            current_key: None,
            current_elt: None,
            done: false,
            top: 0,
            bot: 0,
            bufbot: 0,
            buffer: Vec::new(),
            dropped_group: usize::MAX,
            origin: Ghost(origin),
            first_key: Ghost(first_key),
            pulled: Ghost(0),
        };
        proof {
            let source = origin.remaining();
            lemma_run_start(engine.keys(source), 0);
            assert(source.skip(0) =~= source);
        }
        engine
    }

    /// Takes the next element from the source, and sets the flag `done` if
    /// there is none. Not to be called once `done` is set.
    fn next_element(&mut self) -> (r: Option<I::Item>)
        requires
            old(self).iter.obeys_prophetic_iter_laws(),
            old(self).iter.decrease() is Some,
        ensures
            final(self).iter.obeys_prophetic_iter_laws(),
            final(self).iter.decrease() is Some,
            old(self).iter.remaining().len() > 0 ==> decreases_to!(
                old(self).iter.decrease()->0 => final(self).iter.decrease()->0
            ),
            *final(self) == (GroupInner {
                iter: final(self).iter,
                done: final(self).done,
                ..*old(self)
            }),
            old(self).iter.remaining().len() > 0 ==> {
                &&& r == Some(old(self).iter.remaining()[0])
                &&& final(self).iter.remaining() == old(self).iter.remaining().drop_first()
                &&& final(self).done == old(self).done
            },
            old(self).iter.remaining().len() == 0 ==> {
                &&& r is None
                &&& final(self).iter.remaining() == old(self).iter.remaining()
                &&& final(self).done
            },
    {
        match self.iter.next() {
            None => {
                self.done = true;
                None
            },
            otherwise => otherwise,
        }
    }

    /// The immediate case: the frontier group asks, and nothing is buffered.
    fn step_current(&mut self) -> (r: Option<I::Item>)
        requires
            old(self).valid(old(self).origin().remaining(), old(self).feed().remaining()),
            !old(self).exhausted(),
        ensures
            final(self).valid(old(self).origin().remaining(), final(self).feed().remaining()),
            old(self).stepped(
                final(self),
                old(self).origin().remaining(),
                old(self).frontier(),
                r,
            ),
    {
        let ghost source = self.origin@.remaining();
        let ghost keys = self.keys(source);
        let ghost pos = self.pulled@ as int;
        let ghost top = self.top as nat;
        proof {
            lemma_run_start(keys, top);
        }
        let held = self.current_elt.take();
        if held.is_some() {
            proof {
                self.lemma_same_slots(old(self), source);
            }
            return held;
        }
        match self.next_element() {
            None => {
                proof {
                    self.lemma_same_slots(old(self), source);
                    assert forall|c: nat| #[trigger]
                        self.taken(source, c) == old(self).taken_after(source, top, c) by {}
                }
                None
            },
            Some(elt) => {
                proof {
                    assert(source.skip(pos).drop_first() =~= source.skip(pos + 1));
                    lemma_run_start_at_least(keys, top);
                    lemma_run_start(keys, top + 1);
                }
                let key = self.key.call_mut(&elt);
                proof {
                    self.pulled@ = self.pulled@ + 1;
                }
                match self.current_key.take() {
                    None => {},
                    Some(old_key) => if old_key != key {
                        proof {
                            lemma_next_run_starts_at(keys, top, pos);
                        }
                        self.current_key = Some(key);
                        self.current_elt = Some(elt);
                        self.top += 1;
                        proof {
                            self.lemma_same_slots(old(self), source);
                            assert forall|c: nat| #[trigger]
                                self.taken(source, c) == old(self).taken_after(source, top, c) by {}
                        }
                        return None;
                    },
                }
                self.current_key = Some(key);
                proof {
                    self.lemma_same_slots(old(self), source);
                    assert forall|c: nat| #[trigger]
                        self.taken(source, c) == old(self).taken_after(source, top, c) by {}
                }
                Some(elt)
            },
        }
    }

    /// The key of the element pulled last, which is the key of the frontier
    /// group when that element is the group's first. To have the next key at
    /// hand, one more element is pulled and held back.
    ///
    /// To be called right after the first element of group `client` was handed
    /// out.
    pub fn group_key(&mut self, client: usize) -> (key: K)
        requires
            old(self).valid(old(self).origin().remaining(), old(self).feed().remaining()),
            !old(self).exhausted(),
            !old(self).held(),
            old(self).pulled() > 0,
            client == old(self).frontier(),
        ensures
            final(self).valid(old(self).origin().remaining(), final(self).feed().remaining()),
            final(self).origin() == old(self).origin(),
            final(self).key_function() == old(self).key_function(),
            key == old(self).keys(old(self).origin().remaining())[old(self).pulled() - 1],
            old(self).taken(old(self).origin().remaining(), client as nat) == 1 ==> key == old(
                self,
            ).keys(old(self).origin().remaining())[run_start(
                old(self).keys(old(self).origin().remaining()),
                client as nat,
            )],
            forall|c: nat| #[trigger]
                final(self).taken(old(self).origin().remaining(), c) == old(self).taken(
                    old(self).origin().remaining(),
                    c,
                ),
            final(self).pulled() == if old(self).pulled() < old(self).origin().remaining().len() {
                old(self).pulled() + 1
            } else {
                old(self).pulled()
            },
            final(self).held() == (old(self).pulled() < old(self).origin().remaining().len()),
            final(self).exhausted() == (old(self).pulled() == old(self).origin().remaining().len()),
            final(self).frontier() == if starts_run(
                old(self).keys(old(self).origin().remaining()),
                old(self).pulled() as int,
            ) {
                old(self).frontier() + 1
            } else {
                old(self).frontier()
            },
            final(self).dropped_mark() == old(self).dropped_mark(),
            final(self).reclaimed() == old(self).reclaimed(),
            final(self).base() == old(self).base(),
            final(self).slots() == old(self).slots(),
    {
        let ghost source = self.origin@.remaining();
        let ghost keys = self.keys(source);
        let ghost pos = self.pulled@ as int;
        let ghost top = self.top as nat;
        let old_key = self.current_key.take().unwrap();
        match self.next_element() {
            None => {
                proof {
                    self.lemma_same_slots(old(self), source);
                    assert forall|c: nat| #[trigger]
                        self.taken(source, c) == old(self).taken(source, c) by {}
                }
            },
            Some(elt) => {
                proof {
                    assert(source.skip(pos).drop_first() =~= source.skip(pos + 1));
                    lemma_run_start_at_least(keys, top);
                    lemma_run_start(keys, top + 1);
                }
                let key = self.key.call_mut(&elt);
                proof {
                    self.pulled@ = self.pulled@ + 1;
                }
                if old_key != key {
                    proof {
                        lemma_next_run_starts_at(keys, top, pos);
                    }
                    self.top += 1;
                } else {
                    proof {
                        lemma_run_goes_on(keys, top, pos);
                    }
                }
                self.current_key = Some(key);
                self.current_elt = Some(elt);
                proof {
                    self.lemma_same_slots(old(self), source);
                }
            },
        }
        old_key
    }

    /// Appends the frontier group to the buffer. The slots between the last
    /// one and the frontier are filled with empty queues first; while the
    /// buffer is empty, its lower bounds are moved up instead.
    fn push_next_group(&mut self, group: VecDeque<I::Item>)
        requires
            ({
                let source = old(self).origin@.remaining();
                let whole = run(source, old(self).keys(source), old(self).top as nat);
                &&& old(self).bufbot <= old(self).bot <= old(self).top
                &&& old(self).buffer.len() <= old(self).top - old(self).bufbot
                &&& old(self).buffer.len() == 0 ==> old(self).bufbot == old(self).bot
                &&& forall|i: int|
                    0 <= i < old(self).buffer.len() ==> old(self).slot_ok(source, i)
                &&& group@.len() <= whole.len()
                &&& group@ == whole.skip(whole.len() - group@.len())
            }),
        ensures
            *final(self) == (GroupInner {
                bufbot: final(self).bufbot,
                bot: final(self).bot,
                buffer: final(self).buffer,
                ..*old(self)
            }),
            final(self).bufbot <= final(self).bot <= old(self).top,
            final(self).bot >= old(self).bot,
            final(self).buffer.len() == old(self).top + 1 - final(self).bufbot,
            forall|i: int|
                0 <= i < final(self).buffer.len() ==> final(self).slot_ok(
                    old(self).origin@.remaining(),
                    i,
                ),
            final(self).buffered(old(self).top as nat) == group@,
            forall|c: nat| c < old(self).top ==> final(self).buffered(c) == old(self).buffered(c),
            old(self).buffer.len() == 0 ==> final(self).bufbot == old(self).top && final(self).bot
                == old(self).top,
            old(self).buffer.len() > 0 ==> final(self).bufbot == old(self).bufbot
                && final(self).bot == old(self).bot,
    {
        let ghost source = self.origin@.remaining();
        while self.top - self.bufbot > self.buffer.len()
            invariant
                old(self).buffer.len() == 0 ==> self.buffer.len() == 0,
                old(self).buffer.len() > 0 ==> self.buffer.len() > 0
                    && self.bufbot == old(self).bufbot && self.bot == old(self).bot,
                *self == (GroupInner {
                    bufbot: self.bufbot,
                    bot: self.bot,
                    buffer: self.buffer,
                    ..*old(self)
                }),
                source == self.origin@.remaining(),
                self.bufbot <= self.bot <= self.top,
                self.bot >= old(self).bot,
                self.buffer.len() <= self.top - self.bufbot,
                self.buffer.len() == 0 ==> self.bufbot == self.bot,
                forall|i: int| 0 <= i < self.buffer.len() ==> self.slot_ok(source, i),
                forall|c: nat| c < self.top ==> self.buffered(c) == old(self).buffered(c),
            decreases self.top - self.bufbot - self.buffer.len(),
        {
            let ghost before = *self;
            if self.buffer.is_empty() {
                self.bufbot += 1;
                self.bot += 1;
            } else {
                self.buffer.push(VecDeque::new());
                proof {
                    let last = self.buffer.len() - 1;
                    assert forall|i: int| 0 <= i < self.buffer.len() implies self.slot_ok(
                        source,
                        i,
                    ) by {
                        if i < last {
                            assert(before.slot_ok(source, i));
                        } else {
                            let c = (self.bufbot + i) as nat;
                            let whole = run(source, self.keys(source), c);
                            assert(self.buffer[i]@ =~= whole.skip(whole.len() as int));
                        }
                    }
                }
            }
        }
        let ghost before = *self;
        self.buffer.push(group);
        proof {
            let last = self.buffer.len() - 1;
            assert forall|i: int| 0 <= i < self.buffer.len() implies self.slot_ok(source, i) by {
                if i < last {
                    assert(before.slot_ok(source, i));
                }
            }
            assert forall|c: nat| c < self.top implies self.buffered(c) == old(self).buffered(
                c,
            ) by {}
        }
    }

    /// `walked` is the engine on its way through the frontier group, or at the
    /// end of the way: only the pulling of the source has gone on since
    /// `self`, and nothing is held back.
    spec fn walking_to(&self, walked: &Self) -> bool {
        *walked == (GroupInner {
            key: walked.key,
            iter: walked.iter,
            current_key: walked.current_key,
            done: walked.done,
            pulled: walked.pulled,
            current_elt: None,
            ..*self
        })
    }

    /// What was put aside on the way from position `from` to position `to`:
    /// the elements in between, unless the frontier group was dropped.
    spec fn aside(&self, source: Seq<I::Item>, from: int, to: int) -> Seq<I::Item> {
        if self.top != self.dropped_group {
            source.subrange(from, to)
        } else {
            Seq::empty()
        }
    }

    /// The first element that the frontier group has not got yet.
    spec fn unserved_from(&self) -> int {
        self.pulled@ - if self.current_elt is Some {
            1int
        } else {
            0int
        }
    }

    /// `walked` is the engine at the end of its way through the frontier
    /// group, with `group` put aside: at the end of the source, or with
    /// `first`, the first element of the next group, in hand.
    spec fn walked_to(
        &self,
        walked: &Self,
        source: Seq<I::Item>,
        first: Option<I::Item>,
        group: Seq<I::Item>,
    ) -> bool {
        let keys = self.keys(source);
        let pos = walked.pulled@ as int;
        &&& self.walking_to(walked)
        &&& walked.iter.obeys_prophetic_iter_laws()
        &&& walked.iter.decrease() is Some
        &&& match first {
            None => {
                &&& walked.wf_source(source)
                &&& walked.wf_lookahead(source)
                &&& walked.done
                &&& group == self.aside(source, self.unserved_from(), source.len() as int)
            },
            Some(e) => {
                &&& !walked.done
                &&& pos - 1 == run_start(keys, self.top as nat + 1)
                &&& self.unserved_from() <= pos - 1
                &&& pos <= source.len()
                &&& e == source[pos - 1]
                &&& walked.key == state_after(self.first_key@, source, walked.pulled@)
                &&& forall|j: nat|
                    j < walked.pulled@ ==> (#[trigger] state_after(
                        self.first_key@,
                        source,
                        j,
                    )).yields(&source[j as int], keys[j as int])
                &&& walked.current_key == Some(keys[pos - 1])
                &&& group == self.aside(source, self.unserved_from(), pos - 1)
            },
        }
    }

    /// What was put aside is what the frontier group had left.
    proof fn lemma_walked(
        &self,
        walked: &Self,
        source: Seq<I::Item>,
        first: Option<I::Item>,
        group: Seq<I::Item>,
    )
        requires
            self.wf(source),
            !self.done,
            self.walked_to(walked, source, first, group),
        ensures
            self.top < usize::MAX,
            first is Some ==> self.top + 1 < usize::MAX,
            walked.bufbot <= walked.bot <= walked.top,
            walked.buffer.len() <= walked.top - walked.bufbot,
            walked.buffer.len() == 0 ==> walked.bufbot == walked.bot,
            forall|i: int| 0 <= i < walked.buffer.len() ==> walked.slot_ok(source, i),
            self.top != self.dropped_group ==> {
                let whole = run(source, self.keys(source), self.top as nat);
                &&& group.len() <= whole.len()
                &&& group == whole.skip(whole.len() - group.len())
                &&& group == self.owed(source, self.top as nat)
            },
    {
        let keys = self.keys(source);
        let top = self.top as nat;
        self.lemma_position(source);
        lemma_run_start(keys, top);
        lemma_run_start(keys, top + 1);
        lemma_run_start_at_least(keys, top + 1);
        walked.lemma_same_slots(self, source);
        if self.top != self.dropped_group {
            let whole = run(source, keys, top);
            assert(group =~= whole.skip(self.unserved_from() - run_start(keys, top)));
        }
    }

    /// `pushed` is the engine after what was put aside went into the buffer,
    /// if it was to go there.
    spec fn pushed_to(&self, pushed: &Self, source: Seq<I::Item>, group: Seq<I::Item>) -> bool {
        if self.top != self.dropped_group {
            &&& *pushed == (GroupInner {
                bufbot: pushed.bufbot,
                bot: pushed.bot,
                buffer: pushed.buffer,
                ..*self
            })
            &&& pushed.bufbot <= pushed.bot <= self.top
            &&& pushed.buffer.len() == self.top + 1 - pushed.bufbot
            &&& forall|i: int| 0 <= i < pushed.buffer.len() ==> pushed.slot_ok(source, i)
            &&& pushed.buffered(self.top as nat) == group
            &&& forall|c: nat| c < self.top ==> pushed.buffered(c) == self.buffered(c)
            &&& self.buffer.len() == 0 ==> pushed.bufbot == self.top && pushed.bot == self.top
            &&& self.buffer.len() > 0 ==> pushed.bufbot == self.bufbot && pushed.bot == self.bot
        } else {
            *pushed == *self
        }
    }

    /// Putting the frontier group aside and moving on to the next group is a
    /// step for that next group.
    proof fn lemma_put_aside(
        &self,
        walked: &Self,
        pushed: &Self,
        after: &Self,
        source: Seq<I::Item>,
        first: Option<I::Item>,
        group: Seq<I::Item>,
    )
        requires
            self.wf(source),
            !self.done,
            self.walked_to(walked, source, first, group),
            walked.pushed_to(pushed, source, group),
            *after == (GroupInner {
                top: if first is Some {
                    (self.top + 1) as usize
                } else {
                    self.top
                },
                ..*pushed
            }),
        ensures
            after.wf(source),
            self.stepped(after, source, self.top as nat + 1, first),
    {
        let keys = self.keys(source);
        let top = self.top as nat;
        self.lemma_walked(walked, source, first, group);
        lemma_run_start(keys, top);
        lemma_run_start(keys, top + 1);
        lemma_run_start_at_least(keys, top + 1);
        assert(after.wf_source(source));
        assert(after.wf_lookahead(source));
        assert forall|i: int| 0 <= i < after.buffer.len() implies after.slot_ok(source, i) by {
            assert(pushed.slot_ok(source, i));
        }
        assert(after.wf_buffer(source));
        assert(first == self.next_of(source, top + 1));
        assert forall|c: nat| #[trigger]
            after.taken(source, c) == self.taken_after(source, top + 1, c) by {
            if c < top {
                assert(after.buffered(c) == pushed.buffered(c));
                assert(pushed.buffered(c) == self.buffered(c));
            } else if c == top {
                assert(after.buffered(c) == pushed.buffered(c));
            }
        }
    }

    /// A later group is asked for: walks through the rest of the frontier
    /// group up to the first element of the next group, and buffers what it
    /// passes, unless the frontier group was dropped.
    fn step_buffering(&mut self, client: usize) -> (r: Option<I::Item>)
        requires
            old(self).valid(old(self).origin().remaining(), old(self).feed().remaining()),
            !old(self).exhausted(),
            client == old(self).frontier() + 1,
        ensures
            final(self).valid(old(self).origin().remaining(), final(self).feed().remaining()),
            old(self).stepped(final(self), old(self).origin().remaining(), client as nat, r),
    {
        let ghost source = self.origin@.remaining();
        let ghost keys = self.keys(source);
        let ghost top = self.top as nat;
        let ghost from = self.unserved_from();
        proof {
            lemma_run_start(keys, top);
        }
        let mut group: VecDeque<I::Item> = VecDeque::new();
        match self.current_elt.take() {
            Some(elt) => {
                if self.top != self.dropped_group {
                    group.push_back(elt);
                }
            },
            None => {},
        }
        let mut first_elt: Option<I::Item> = None;  // first element of the next group
        proof {
            assert(group@ =~= old(self).aside(source, from, self.pulled@ as int));
        }
        loop
            invariant_except_break
                self.wf_source(source),
                self.wf_lookahead(source),
                !self.done,
                first_elt is None,
                group@ == old(self).aside(source, from, self.pulled@ as int),
            invariant
                source == self.origin@.remaining(),
                keys == self.keys(source),
                top == self.top,
                from == old(self).unserved_from(),
                old(self).walking_to(self),
                self.iter.remaining() == source.skip(self.pulled@ as int),
                self.iter.obeys_prophetic_iter_laws(),
                self.iter.decrease() is Some,
                run_start(keys, top) <= from <= self.pulled@ <= source.len(),
            ensures
                old(self).walked_to(self, source, first_elt, group@),
            decreases self.iter.decrease()->0,
        {
            let ghost pos = self.pulled@ as int;
            match self.next_element() {
                None => {
                    break ;
                },
                Some(elt) => {
                    proof {
                        assert(source.skip(pos).drop_first() =~= source.skip(pos + 1));
                        lemma_run_start(keys, top);
                    }
                    let key = self.key.call_mut(&elt);
                    proof {
                        self.pulled@ = self.pulled@ + 1;
                    }
                    match self.current_key.take() {
                        None => {},
                        Some(old_key) => if old_key != key {
                            proof {
                                lemma_next_run_starts_at(keys, top, pos);
                            }
                            self.current_key = Some(key);
                            first_elt = Some(elt);
                            break ;
                        },
                    }
                    self.current_key = Some(key);
                    if self.top != self.dropped_group {
                        group.push_back(elt);
                    }
                    proof {
                        lemma_run_goes_on(keys, top, pos);
                        assert(group@ =~= old(self).aside(source, from, pos + 1));
                    }
                },
            }
        }
        let ghost walked = *self;
        let ghost put_aside = group@;
        proof {
            old(self).lemma_walked(&walked, source, first_elt, put_aside);
        }
        if self.top != self.dropped_group {
            self.push_next_group(group);
        }
        let ghost pushed = *self;
        if first_elt.is_some() {
            self.top += 1;
        }
        proof {
            old(self).lemma_put_aside(&walked, &pushed, self, source, first_elt, put_aside);
        }
        first_elt
    }

    /// Skipping empty slots goes by the lengths of what is buffered alone.
    proof fn lemma_skip_empty_same(&self, other: &Self, from: nat)
        requires
            self.bufbot == other.bufbot,
            self.buffer.len() == other.buffer.len(),
            forall|c: nat| c >= from ==> self.buffered(c).len() == other.buffered(c).len(),
        ensures
            self.skip_empty(from) == other.skip_empty(from),
        decreases self.bufbot + self.buffer.len() - from,
    {
        if self.bufbot <= from && from - self.bufbot < self.buffer.len() && self.buffered(
            from,
        ).len() == 0 {
            self.lemma_skip_empty_same(other, from + 1);
        }
    }

    /// Erases the first `count` slots of the buffer, or all of them if there
    /// are fewer.
    fn erase_front(buffer: &mut Vec<VecDeque<I::Item>>, count: usize)
        ensures
            count >= old(buffer).len() ==> final(buffer)@ == Seq::<VecDeque<I::Item>>::empty(),
            count < old(buffer).len() ==> final(buffer)@ == old(buffer)@.subrange(
                count as int,
                old(buffer).len() as int,
            ),
    {
        if count >= buffer.len() {
            buffer.clear();
        } else {
            let rest = buffer.split_off(count);
            *buffer = rest;
        }
    }

    /// `after` is the engine after the head of the queue of group `client`
    /// was taken out as `elt`.
    spec fn popped_to(&self, after: &Self, client: nat, elt: Option<I::Item>) -> bool {
        let i = client - self.bufbot;
        &&& *after == (GroupInner { buffer: after.buffer, ..*self })
        &&& after.buffer.len() == self.buffer.len()
        &&& forall|j: int|
            0 <= j < self.buffer.len() && j != i ==> after.buffer[j] == self.buffer[j]
        &&& if 0 <= i < self.buffer.len() {
            match elt {
                Some(x) => {
                    &&& self.buffer[i]@.len() > 0
                    &&& x == self.buffer[i]@[0]
                    &&& after.buffer[i]@ == self.buffer[i]@.subrange(
                        1,
                        self.buffer[i]@.len() as int,
                    )
                },
                None => self.buffer[i]@.len() == 0 && after.buffer[i]@ == self.buffer[i]@,
            }
        } else {
            elt is None
        }
    }

    /// Taking the head of a queue serves its group, and nothing else changes.
    proof fn lemma_popped(
        &self,
        after: &Self,
        source: Seq<I::Item>,
        client: nat,
        elt: Option<I::Item>,
    )
        requires
            self.wf(source),
            self.bufbot <= client,
            self.bot <= client,
            self.settled(client),
            self.popped_to(after, client, elt),
        ensures
            after.wf(source),
            elt == self.next_of(source, client),
            elt is None ==> after.buffered(client).len() == 0,
            after.settled(client),
            forall|c: nat| #[trigger] after.taken(source, c) == self.taken_after(source, client, c),
            forall|c: nat| after.buffered(c).len() == self.buffered(c).len() - if c == client
                && elt is Some {
                1int
            } else {
                0int
            },
            !(elt is None && client == self.bot) ==> self.stepped(after, source, client, elt),
    {
        let keys = self.keys(source);
        let i = client - self.bufbot;
        assert forall|j: int| 0 <= j < after.buffer.len() implies after.slot_ok(source, j) by {
            assert(self.slot_ok(source, j));
            if j == i && elt is Some {
                let whole = run(source, keys, client);
                let queue = self.buffer[j]@;
                assert(after.buffer[j]@ =~= whole.skip(whole.len() - (queue.len() - 1)));
            }
        }
        if i < self.buffer.len() {
            assert(self.slot_ok(source, i));
        }
    }

    /// `after` is the engine after the lower bound was moved up to `bound`,
    /// and the empty slots at the front of the buffer were erased if they
    /// were at least half of it.
    spec fn reclaimed_to(&self, after: &Self, bound: nat) -> bool {
        let nclear = bound - self.bufbot;
        let len = self.buffer.len();
        &&& *after == (GroupInner {
            bot: after.bot,
            bufbot: after.bufbot,
            buffer: after.buffer,
            ..*self
        })
        &&& after.bot == bound
        &&& if nclear >= len / 2 {
            &&& after.bufbot == bound
            &&& after.buffer@ == if nclear >= len {
                Seq::<VecDeque<I::Item>>::empty()
            } else {
                self.buffer@.subrange(nclear, len as int)
            }
        } else {
            &&& after.bufbot == self.bufbot
            &&& after.buffer == self.buffer
        }
    }

    /// Moving the lower bound past empty groups, and erasing their slots,
    /// changes nothing of what the groups are owed.
    proof fn lemma_reclaimed(&self, after: &Self, source: Seq<I::Item>, client: nat)
        requires
            self.wf(source),
            self.bufbot <= client,
            self.bot == client,
            self.settled(client),
            self.buffered(client).len() == 0,
            self.reclaimed_to(after, self.skip_empty(client + 1)),
        ensures
            after.wf(source),
            forall|c: nat| #[trigger] after.taken(source, c) == self.taken(source, c),
            after.reclaimed() == self.skip_empty(client + 1),
            after.reclaimed() > client,
    {
        let bound = self.skip_empty(client + 1);
        self.lemma_skipped(source, client + 1);
        let nclear = bound - self.bufbot;
        assert forall|i: int| 0 <= i < after.buffer.len() implies after.slot_ok(source, i) by {
            if after.bufbot == self.bufbot {
                assert(self.slot_ok(source, i));
                let c = (self.bufbot + i) as nat;
                if self.bot <= c < bound {
                    assert(self.buffered(c) == self.buffer[i]@);
                }
            } else {
                assert(self.slot_ok(source, i + nclear));
            }
        }
    }

    /// Skipping from at or below the frontier stops at the frontier or just
    /// above it, and passes only groups that have an empty slot.
    proof fn lemma_skipped(&self, source: Seq<I::Item>, from: nat)
        requires
            self.wf(source),
            self.bufbot <= from <= self.top + 1,
            from == self.top + 1 ==> self.done,
        ensures
            from <= self.skip_empty(from) <= self.top + 1,
            self.skip_empty(from) == self.top + 1 ==> self.done,
            self.skip_empty(from) == from || self.skip_empty(from) <= self.bufbot
                + self.buffer.len(),
            forall|c: nat|
                from <= c < self.skip_empty(from) ==> (#[trigger] self.buffered(c)).len() == 0,
        decreases self.bufbot + self.buffer.len() - from,
    {
        if self.bufbot <= from && from - self.bufbot < self.buffer.len() && self.buffered(
            from,
        ).len() == 0 {
            self.lemma_skipped(source, from + 1);
        }
    }

    /// Serves a group from the buffer. If that finds the lowest buffered group
    /// empty, the lower bound moves up past it and past the empty groups that
    /// follow, and the empty slots are erased once they make up half of the
    /// buffer.
    fn lookup_buffer(&mut self, client: usize) -> (r: Option<I::Item>)
        requires
            old(self).valid(old(self).origin().remaining(), old(self).feed().remaining()),
            old(self).bufbot <= client,
            old(self).settled(client as nat),
        ensures
            final(self).valid(old(self).origin().remaining(), final(self).feed().remaining()),
            old(self).stepped(final(self), old(self).origin().remaining(), client as nat, r),
    {
        let ghost source = self.origin@.remaining();
        let ghost top = self.top as nat;
        proof {
            self.lemma_position(source);
        }
        // a group without a slot of its own has nothing buffered
        let bufidx = client - self.bufbot;
        if client < self.bot {
            return None;
        }
        let elt = if bufidx < self.buffer.len() {
            self.buffer[bufidx].pop_front()
        } else {
            None
        };
        let ghost popped = *self;
        proof {
            old(self).lemma_popped(&popped, source, client as nat, elt);
        }
        if elt.is_none() && client == self.bot {
            // the lowest group is empty: move the lower bound up
            self.bot += 1;
            // and on past the empty queues that follow
            while self.bot - self.bufbot < self.buffer.len() && self.buffer[self.bot
                - self.bufbot].len() == 0
                invariant
                    *self == (GroupInner { bot: self.bot, ..popped }),
                    popped.bot <= client < self.bot <= top + 1,
                    self.bufbot <= client,
                    top == self.top,
                    top < usize::MAX,
                    self.buffer.len() <= top + 1 - self.bufbot,
                    popped.skip_empty(self.bot as nat) == popped.skip_empty((client + 1) as nat),
                decreases self.buffer.len() - (self.bot - self.bufbot),
            {
                self.bot += 1;
            }
            // the slots below the lower bound are unused: erase them once
            // they are at least half of the buffer
            let nclear = self.bot - self.bufbot;
            if nclear > 0 && nclear >= self.buffer.len() / 2 {
                Self::erase_front(&mut self.buffer, nclear);
                self.bufbot = self.bot;
            }
            proof {
                popped.lemma_reclaimed(self, source, client as nat);
                popped.lemma_skip_empty_same(old(self), (client + 1) as nat);
            }
        }
        elt
    }

    /// Hands out the next element of group `client`, or `None` if the group
    /// has none left.
    ///
    /// A group at or below the frontier is served whenever it asks. The group
    /// after the frontier may ask while the source has not reported its end;
    /// once it has, any index may ask and gets `None`.
    pub fn step(&mut self, client: usize) -> (r: Option<I::Item>)
        requires
            old(self).valid(old(self).origin().remaining(), old(self).feed().remaining()),
            client <= old(self).frontier() + 1 || old(self).exhausted(),
        ensures
            final(self).valid(old(self).origin().remaining(), final(self).feed().remaining()),
            old(self).stepped(final(self), old(self).origin().remaining(), client as nat, r),
            client < old(self).reclaimed() ==> r is None && *final(self) == *old(self),
    {
        let ghost source = self.origin@.remaining();
        let ghost keys = self.keys(source);
        if client < self.bot {
            None
        } else if client < self.top || (client == self.top && self.buffer.len() > self.top
            - self.bufbot) {
            self.lookup_buffer(client)
        } else if self.done {
            proof {
                let top = self.top as nat;
                if client > top {
                    lemma_run_start_monotone(keys, top + 1, client as nat);
                }
                lemma_run_start(keys, client as nat);
            }
            None
        } else if self.top == client {
            self.step_current()
        } else {
            self.step_buffering(client)
        }
    }

    /// Records that group `client` was dropped. Only the greatest index is
    /// kept: the frontier group alone can still be spared the buffering.
    pub fn drop_group(&mut self, client: usize)
        ensures
            final(self).dropped_mark() == if old(self).dropped_mark() == usize::MAX || client > old(
                self,
            ).dropped_mark() {
                client
            } else {
                old(self).dropped_mark()
            },
            final(self).origin() == old(self).origin(),
            final(self).feed() == old(self).feed(),
            final(self).key_function() == old(self).key_function(),
            final(self).pulled() == old(self).pulled(),
            final(self).held() == old(self).held(),
            final(self).exhausted() == old(self).exhausted(),
            final(self).frontier() == old(self).frontier(),
            final(self).reclaimed() == old(self).reclaimed(),
            final(self).base() == old(self).base(),
            final(self).slots() == old(self).slots(),
            forall|source: Seq<I::Item>| old(self).wf(source) ==> #[trigger] final(self).wf(source),
            forall|source: Seq<I::Item>, c: nat| #[trigger]
                final(self).taken(source, c) == old(self).taken(source, c),
    {
        // only the greatest index matters
        if self.dropped_group == usize::MAX || client > self.dropped_group {
            self.dropped_group = client;
        }
        proof {
            assert forall|source: Seq<I::Item>| old(self).wf(source) implies #[trigger] self.wf(
                source,
            ) by {
                self.lemma_same_slots(old(self), source);
            }
        }
    }
}

/// Where the key function is a plain function or closure, the key of an
/// element that was pulled is a key that the function has returned for it:
/// the function's postcondition holds of it.
pub proof fn lemma_closure_keys_seen<K, I, F>(
    engine: &GroupInner<K, I, F>,
    source: Seq<I::Item>,
    j: int,
) where I: Iterator, F: Fn(&I::Item) -> K, K: PartialEq
    requires
        engine.wf(source),
        0 <= j < engine.pulled(),
    ensures
        call_ensures(engine.key_function(), (&source[j],), engine.keys(source)[j]),
{
    lemma_stateless(engine.key_function(), source, j as nat);
}

} // verus!
