//! The containers and the handles that read from them.
//!
//! A container owns the engine and the counter of groups opened so far. A
//! cursor opens the groups one after the other; each open group is read
//! through a handle that holds the group's index and nothing of the
//! container. Every call that reads takes the container by exclusive
//! reference, so any number of handles can be alive at once.

use crate::engine::GroupInner;
use crate::key::{
    closure_accepts, lemma_chunk_index_accepts, lemma_closure_accepts, ChunkIndex, KeyFunction,
};
use crate::runs::{lemma_run_start, run, run_start, starts_run};
use vstd::prelude::*;
use vstd::std_specs::cmp::PartialEqSpec;
use vstd::std_specs::iter::IteratorSpec;

verus! {

/// A source that is being grouped: the engine and the count of the groups
/// opened so far.
///
/// As long as each group is read to its end, or dropped, before the next one
/// is opened, nothing is buffered. Elements are put aside only for groups
/// that are still open when a later group is opened.
///
/// The groups are opened through a [`Groups`] cursor, and read through
/// [`Group`] handles.
pub struct GroupByLazy<K, I: Iterator, F> {
    inner: GroupInner<K, I, F>,
    // the index of the group that is opened next; all cursors share it
    index: usize,
}

/// A cursor that opens the groups of a [`GroupByLazy`], one after the other.
pub struct Groups {}

/// A handle for the elements of a single group.
pub struct Group<I: Iterator> {
    index: usize,
    first: Option<I::Item>,
}

impl<K, I, F> GroupByLazy<K, I, F> where
    I: Iterator,
    F: KeyFunction<I::Item, Key = K>,
    K: PartialEq,
 {
    /// The engine that does the grouping.
    pub closed spec fn engine(&self) -> GroupInner<K, I, F> {
        self.inner
    }

    /// How many groups have been asked for; the index that the next group
    /// gets.
    pub closed spec fn opened(&self) -> nat {
        self.index as nat
    }

    /// The source as it was when the container was made.
    pub open spec fn origin(&self) -> I {
        self.engine().origin()
    }

    /// The source as it is now.
    pub open spec fn feed(&self) -> I {
        self.engine().feed()
    }

    /// The key of every element of `source`.
    pub open spec fn keys(&self, source: Seq<I::Item>) -> Seq<K> {
        self.engine().keys(source)
    }

    /// Group number `c` of `source`.
    pub open spec fn group(&self, source: Seq<I::Item>, c: nat) -> Seq<I::Item> {
        run(source, self.keys(source), c)
    }

    /// The groups are opened in step with the frontier: the next group to be
    /// opened is the frontier group, untouched, or the one after it.
    pub closed spec fn in_step(&self, source: Seq<I::Item>) -> bool {
        let e = self.inner;
        if e.exhausted() {
            self.index > e.frontier()
        } else {
            &&& e.frontier() <= self.index <= e.frontier() + 1
            &&& self.index == e.frontier() ==> e.taken(source, e.frontier()) == 0
        }
    }

    /// The container is in a state that it can reach on `source`: the engine
    /// is, and the groups are opened in step with the frontier.
    pub open spec fn wf(&self, source: Seq<I::Item>) -> bool {
        &&& self.engine().wf(source)
        &&& self.in_step(source)
    }

    /// The container is in a state that it can reach on `source`, and `rest`
    /// is what it has not pulled yet.
    pub open spec fn valid(&self, source: Seq<I::Item>, rest: Seq<I::Item>) -> bool {
        &&& self.wf(source)
        &&& rest == source.skip(self.engine().pulled() as int)
    }

    /// In a valid container the groups that are not opened yet are untouched.
    pub proof fn lemma_valid(&self, source: Seq<I::Item>)
        requires
            self.wf(source),
        ensures
            forall|c: nat| c >= self.opened() ==> #[trigger] self.engine().taken(source, c) == 0,
            !self.engine().exhausted() ==> self.opened() <= self.engine().frontier() + 1,
    {
        assert forall|c: nat| c >= self.opened() implies #[trigger] self.engine().taken(
            source,
            c,
        ) == 0 by {
            self.inner.lemma_taken(source, c);
        }
    }

    /// `next` is the container after the next group was asked for, and
    /// `first` what the engine gave for it: the group's first element, if
    /// there is such a group.
    pub open spec fn opens(
        &self,
        next: &Self,
        source: Seq<I::Item>,
        first: Option<I::Item>,
    ) -> bool {
        let i = self.opened();
        &&& next.opened() == i + 1
        &&& first == if self.group(source, i).len() > 0 {
            Some(self.group(source, i)[0])
        } else {
            None
        }
        &&& self.engine().stepped(&next.engine(), source, i, first)
    }

    /// Asks for the next group: takes the next index and has the engine step
    /// for it.
    fn open(&mut self) -> (r: Option<Group<I>>)
        requires
            old(self).valid(old(self).origin().remaining(), old(self).feed().remaining()),
            old(self).opened() < usize::MAX,
        ensures
            final(self).valid(old(self).origin().remaining(), final(self).feed().remaining()),
            final(self).origin() == old(self).origin(),
            old(self).opens(
                final(self),
                old(self).origin().remaining(),
                match r {
                    Some(group) => group.first(),
                    None => None,
                },
            ),
            r matches Some(group) ==> {
                &&& group.id() == old(self).opened()
                &&& group.first() is Some
                &&& !final(self).engine().exhausted()
                &&& !final(self).engine().held()
                &&& final(self).engine().pulled() > 0
                &&& final(self).engine().frontier() == old(self).opened()
                &&& final(self).engine().taken(
                    old(self).origin().remaining(),
                    old(self).opened(),
                ) == 1
            },
    {
        let ghost source = self.inner.origin().remaining();
        proof {
            self.inner.lemma_taken(source, self.index as nat);
            lemma_run_start(self.keys(source), self.index as nat);
        }
        let index = self.index;
        self.index = index + 1;
        match self.inner.step(index) {
            Some(elt) => {
                proof {
                    self.inner.lemma_taken(source, self.inner.frontier());
                }
                Some(Group { index: index, first: Some(elt) })
            },
            None => None,
        }
    }

    /// Hands out the next element of group `client`, one of the groups that
    /// were opened.
    pub fn step(&mut self, client: usize) -> (r: Option<I::Item>)
        requires
            old(self).valid(old(self).origin().remaining(), old(self).feed().remaining()),
            client < old(self).opened(),
        ensures
            final(self).valid(old(self).origin().remaining(), final(self).feed().remaining()),
            final(self).origin() == old(self).origin(),
            final(self).opened() == old(self).opened(),
            old(self).engine().stepped(
                &final(self).engine(),
                old(self).origin().remaining(),
                client as nat,
                r,
            ),
    {
        let ghost source = self.inner.origin().remaining();
        proof {
            self.inner.lemma_position(source);
        }
        let r = self.inner.step(client);
        proof {
            self.inner.lemma_taken(source, self.inner.frontier());
        }
        r
    }

    /// Records that the handle of group `client` is gone.
    pub fn drop_group(&mut self, client: usize)
        ensures
            final(self).engine().dropped_mark() == if old(self).engine().dropped_mark()
                == usize::MAX || client > old(self).engine().dropped_mark() {
                client
            } else {
                old(self).engine().dropped_mark()
            },
            final(self).origin() == old(self).origin(),
            final(self).feed() == old(self).feed(),
            final(self).opened() == old(self).opened(),
            final(self).engine().key_function() == old(self).engine().key_function(),
            final(self).engine().pulled() == old(self).engine().pulled(),
            final(self).engine().held() == old(self).engine().held(),
            final(self).engine().exhausted() == old(self).engine().exhausted(),
            final(self).engine().frontier() == old(self).engine().frontier(),
            final(self).engine().reclaimed() == old(self).engine().reclaimed(),
            final(self).engine().base() == old(self).engine().base(),
            final(self).engine().slots() == old(self).engine().slots(),
            forall|source: Seq<I::Item>| old(self).wf(source) ==> #[trigger] final(self).wf(source),
            forall|source: Seq<I::Item>, c: nat| #[trigger]
                final(self).engine().taken(source, c) == old(self).engine().taken(source, c),
    {
        self.inner.drop_group(client)
    }

    /// A cursor over the groups. All cursors of one container share its
    /// counter: each group is opened once, whichever cursor asks.
    pub fn into_iter(&self) -> Groups {
        Groups {  }
    }
}

/// Groups the elements of `iter` by the key that `f` gives them: each group
/// is a run of consecutive elements whose keys compare equal, each to the one
/// before.
///
/// The source must come to an end, stay ended, and be no longer than
/// `usize::MAX`. The key function must accept every element of the source,
/// and its postcondition must admit one key only for each of them; the keys
/// are compared with an `==` that has a specification. Nothing is pulled from
/// the source before the first group is asked for.
pub fn new<K, I, F>(iter: I, f: F) -> (groups: GroupByLazy<K, I, F>) where
    I: Iterator,
    F: Fn(&I::Item) -> K,
    K: PartialEq,

    requires
        K::obeys_eq_spec(),
        iter.obeys_prophetic_iter_laws(),
        iter.decrease() is Some,
        iter.remaining().len() <= usize::MAX,
        closure_accepts(f, iter.remaining()),
    ensures
        groups.origin() == iter,
        groups.feed() == iter,
        groups.engine().key_function() == f,
        groups.valid(iter.remaining(), iter.remaining()),
        groups.opened() == 0,
        groups.engine().pulled() == 0,
        !groups.engine().held(),
        !groups.engine().exhausted(),
        groups.engine().frontier() == 0,
        groups.engine().reclaimed() == 0,
        groups.engine().dropped_mark() == usize::MAX,
        forall|c: nat| groups.engine().taken(iter.remaining(), c) == 0,
{
    proof {
        lemma_closure_accepts(f, iter.remaining());
    }
    GroupByLazy { inner: GroupInner::new(iter, f), index: 0 }
}

impl Groups {
    /// Opens the next group and returns its key with a handle for its
    /// elements; `None` when the source has no further group.
    pub fn next<K, I, F>(&mut self, parent: &mut GroupByLazy<K, I, F>) -> (r: Option<
        (K, Group<I>),
    >) where I: Iterator, F: KeyFunction<I::Item, Key = K>, K: PartialEq
        requires
            old(parent).valid(old(parent).origin().remaining(), old(parent).feed().remaining()),
            old(parent).opened() < usize::MAX,
        ensures
            final(parent).valid(
                old(parent).origin().remaining(),
                final(parent).feed().remaining(),
            ),
            final(parent).origin() == old(parent).origin(),
            final(parent).opened() == old(parent).opened() + 1,
            final(parent).engine().key_function() == old(parent).engine().key_function(),
            final(parent).engine().dropped_mark() == old(parent).engine().dropped_mark(),
            r is Some <==> old(parent).group(
                old(parent).origin().remaining(),
                old(parent).opened(),
            ).len() > 0,
            r matches Some((key, group)) ==> {
                let source = old(parent).origin().remaining();
                let i = old(parent).opened();
                &&& key == old(parent).keys(source)[run_start(old(parent).keys(source), i)]
                &&& group.id() == i
                &&& group.first() == Some(old(parent).group(source, i)[0])
                &&& group.remaining(final(parent), source) == old(parent).group(source, i)
            },
            forall|c: nat| #[trigger]
                final(parent).engine().taken(old(parent).origin().remaining(), c) == old(
                    parent,
                ).engine().taken_after(
                    old(parent).origin().remaining(),
                    old(parent).opened(),
                    c,
                ),
            final(parent).engine().reclaimed() == old(parent).engine().reclaimed_after(
                old(parent).origin().remaining(),
                old(parent).opened(),
            ),
            final(parent).engine().base() == old(parent).engine().base_after(
                old(parent).origin().remaining(),
                old(parent).opened(),
            ),
            final(parent).engine().slots() == old(parent).engine().slots_after(
                old(parent).origin().remaining(),
                old(parent).opened(),
            ),
            r is None ==> {
                let source = old(parent).origin().remaining();
                let i = old(parent).opened();
                &&& final(parent).engine().pulled() == old(parent).engine().pulled_after(source, i)
                &&& final(parent).engine().held() == old(parent).engine().held_after(source, i)
                &&& final(parent).engine().exhausted() == old(parent).engine().exhausted_after(
                    source,
                    i,
                )
                &&& final(parent).engine().frontier() == old(parent).engine().frontier_after(
                    source,
                    i,
                )
            },
            r is Some ==> {
                let source = old(parent).origin().remaining();
                let i = old(parent).opened();
                let stepped = old(parent).engine().pulled_after(source, i);
                &&& final(parent).engine().pulled() == if stepped < source.len() {
                    stepped + 1
                } else {
                    stepped
                }
                &&& final(parent).engine().held() == (stepped < source.len())
                &&& final(parent).engine().exhausted() == (stepped == source.len())
                &&& final(parent).engine().frontier() == if starts_run(
                    old(parent).keys(source),
                    stepped as int,
                ) {
                    i + 1
                } else {
                    i
                }
            },
    {
        let ghost source = parent.origin().remaining();
        let ghost i = parent.opened();
        match parent.open() {
            Some(group) => {
                let ghost opened = *parent;
                let key = parent.inner.group_key(group.index);
                proof {
                    parent.inner.lemma_taken(source, parent.inner.frontier());
                    opened.inner.lemma_taken(source, i);
                }
                Some((key, group))
            },
            None => None,
        }
    }
}

impl<I: Iterator> Group<I> {
    /// The index of the group.
    pub closed spec fn id(&self) -> nat {
        self.index as nat
    }

    /// The group's first element, as long as the handle has not handed it
    /// out.
    pub closed spec fn first(&self) -> Option<I::Item> {
        self.first
    }

    /// What the handle has still to give: the first element, if it is still
    /// there, and then what the engine owes to the group.
    pub open spec fn remaining<K, F>(
        &self,
        parent: &GroupByLazy<K, I, F>,
        source: Seq<I::Item>,
    ) -> Seq<I::Item> where F: KeyFunction<I::Item, Key = K>, K: PartialEq {
        (match self.first() {
            Some(e) => seq![e],
            None => Seq::empty(),
        }) + parent.engine().owed(source, self.id())
    }

    /// The next element of the group, or `None` when the group has ended.
    pub fn next<K, F>(&mut self, parent: &mut GroupByLazy<K, I, F>) -> (r: Option<I::Item>) where
        F: KeyFunction<I::Item, Key = K>,
        K: PartialEq,

        requires
            old(parent).valid(old(parent).origin().remaining(), old(parent).feed().remaining()),
            old(self).id() < old(parent).opened(),
        ensures
            final(parent).valid(
                old(parent).origin().remaining(),
                final(parent).feed().remaining(),
            ),
            final(parent).origin() == old(parent).origin(),
            final(parent).opened() == old(parent).opened(),
            final(self).id() == old(self).id(),
            final(self).first() is None,
            old(self).first() is Some ==> r == old(self).first() && *final(parent) == *old(parent),
            old(self).first() is None ==> old(parent).engine().stepped(
                &final(parent).engine(),
                old(parent).origin().remaining(),
                old(self).id(),
                r,
            ),
            r matches Some(e) ==> old(self).remaining(old(parent), old(parent).origin().remaining())
                == seq![e] + final(self).remaining(
                final(parent),
                old(parent).origin().remaining(),
            ),
            r is None ==> old(self).remaining(old(parent), old(parent).origin().remaining()).len()
                == 0,
    {
        let ghost source = parent.origin().remaining();
        let first = self.first.take();
        if first.is_some() {
            return first;
        }
        let r = parent.step(self.index);
        proof {
            old(parent).inner.law_step_serves_in_order(
                &parent.inner,
                source,
                self.index as nat,
                r,
            );
        }
        r
    }

    /// Gives the handle up, and tells the container so: what it has not
    /// buffered of this group yet, it need not buffer.
    pub fn drop<K, F>(self, parent: &mut GroupByLazy<K, I, F>) where
        F: KeyFunction<I::Item, Key = K>,
        K: PartialEq,

        ensures
            final(parent).engine().dropped_mark() == if old(parent).engine().dropped_mark()
                == usize::MAX || self.id() > old(parent).engine().dropped_mark() {
                self.id() as usize
            } else {
                old(parent).engine().dropped_mark()
            },
            final(parent).origin() == old(parent).origin(),
            final(parent).feed() == old(parent).feed(),
            final(parent).opened() == old(parent).opened(),
            final(parent).engine().key_function() == old(parent).engine().key_function(),
            final(parent).engine().pulled() == old(parent).engine().pulled(),
            final(parent).engine().held() == old(parent).engine().held(),
            final(parent).engine().exhausted() == old(parent).engine().exhausted(),
            final(parent).engine().frontier() == old(parent).engine().frontier(),
            final(parent).engine().reclaimed() == old(parent).engine().reclaimed(),
            final(parent).engine().base() == old(parent).engine().base(),
            final(parent).engine().slots() == old(parent).engine().slots(),
            forall|source: Seq<I::Item>|
                old(parent).wf(source) ==> #[trigger] final(parent).wf(source),
            forall|source: Seq<I::Item>, c: nat| #[trigger]
                final(parent).engine().taken(source, c) == old(parent).engine().taken(source, c),
    {
        parent.drop_group(self.index);
    }
}

/// A source that is being cut into chunks of a fixed size.
///
/// Chunking is grouping by a counter of elements, and `ChunksLazy` behaves
/// like [`GroupByLazy`]: elements are put aside only for chunks that are
/// still open when a later chunk is opened.
///
/// The chunks are opened through a [`Chunks`] cursor, and read through
/// [`Chunk`] handles.
pub struct ChunksLazy<I: Iterator> {
    groups: GroupByLazy<usize, I, ChunkIndex>,
}

/// A cursor that opens the chunks of a [`ChunksLazy`], one after the other.
pub struct Chunks {}

/// A handle for the elements of a single chunk.
pub struct Chunk<I: Iterator> {
    group: Group<I>,
}

impl<I: Iterator> ChunksLazy<I> {
    /// The grouping that makes the chunks.
    pub closed spec fn grouping(&self) -> GroupByLazy<usize, I, ChunkIndex> {
        self.groups
    }

    /// Hands out the next element of chunk `client`, one of the chunks that
    /// were opened.
    pub fn step(&mut self, client: usize) -> (r: Option<I::Item>)
        requires
            old(self).grouping().valid(
                old(self).grouping().origin().remaining(),
                old(self).grouping().feed().remaining(),
            ),
            client < old(self).grouping().opened(),
        ensures
            final(self).grouping().valid(
                old(self).grouping().origin().remaining(),
                final(self).grouping().feed().remaining(),
            ),
            final(self).grouping().origin() == old(self).grouping().origin(),
            final(self).grouping().opened() == old(self).grouping().opened(),
            old(self).grouping().engine().stepped(
                &final(self).grouping().engine(),
                old(self).grouping().origin().remaining(),
                client as nat,
                r,
            ),
    {
        self.groups.step(client)
    }

    /// Records that the handle of chunk `client` is gone.
    pub fn drop_group(&mut self, client: usize)
        ensures
            final(self).grouping().engine().dropped_mark() == if old(
                self,
            ).grouping().engine().dropped_mark() == usize::MAX || client > old(
                self,
            ).grouping().engine().dropped_mark() {
                client
            } else {
                old(self).grouping().engine().dropped_mark()
            },
            final(self).grouping().origin() == old(self).grouping().origin(),
            final(self).grouping().feed() == old(self).grouping().feed(),
            final(self).grouping().opened() == old(self).grouping().opened(),
            final(self).grouping().engine().key_function() == old(
                self,
            ).grouping().engine().key_function(),
            final(self).grouping().engine().pulled() == old(self).grouping().engine().pulled(),
            final(self).grouping().engine().held() == old(self).grouping().engine().held(),
            final(self).grouping().engine().exhausted() == old(
                self,
            ).grouping().engine().exhausted(),
            final(self).grouping().engine().frontier() == old(self).grouping().engine().frontier(),
            final(self).grouping().engine().reclaimed() == old(
                self,
            ).grouping().engine().reclaimed(),
            final(self).grouping().engine().base() == old(self).grouping().engine().base(),
            final(self).grouping().engine().slots() == old(self).grouping().engine().slots(),
            forall|source: Seq<I::Item>|
                old(self).grouping().wf(source) ==> #[trigger] final(self).grouping().wf(source),
            forall|source: Seq<I::Item>, c: nat| #[trigger]
                final(self).grouping().engine().taken(source, c) == old(
                    self,
                ).grouping().engine().taken(source, c),
    {
        self.groups.drop_group(client)
    }

    /// A cursor over the chunks. All cursors of one container share its
    /// counter: each chunk is opened once, whichever cursor asks.
    pub fn into_iter(&self) -> Chunks {
        Chunks {  }
    }
}

/// Cuts the elements of `iter` into chunks of `size` elements each; the last
/// chunk holds what is left. A `size` of zero makes one chunk of everything.
///
/// The source must come to an end, stay ended, and be no longer than
/// `usize::MAX`. Nothing is pulled from it before the first chunk is asked
/// for.
pub fn new_chunks<I>(iter: I, size: usize) -> (chunks: ChunksLazy<I>) where I: Iterator
    requires
        iter.obeys_prophetic_iter_laws(),
        iter.decrease() is Some,
        iter.remaining().len() <= usize::MAX,
    ensures
        chunks.grouping().origin() == iter,
        chunks.grouping().feed() == iter,
        chunks.grouping().engine().key_function() == ChunkIndex::fresh(size),
        chunks.grouping().valid(iter.remaining(), iter.remaining()),
        chunks.grouping().opened() == 0,
        chunks.grouping().engine().pulled() == 0,
        !chunks.grouping().engine().held(),
        !chunks.grouping().engine().exhausted(),
        chunks.grouping().engine().frontier() == 0,
        chunks.grouping().engine().reclaimed() == 0,
        chunks.grouping().engine().dropped_mark() == usize::MAX,
        forall|c: nat| chunks.grouping().engine().taken(iter.remaining(), c) == 0,
{
    proof {
        lemma_chunk_index_accepts(size, iter.remaining());
    }
    ChunksLazy {
        groups: GroupByLazy { inner: GroupInner::new(iter, ChunkIndex::new(size)), index: 0 },
    }
}

impl Chunks {
    /// Opens the next chunk and returns a handle for its elements; `None`
    /// when the source has no further chunk.
    pub fn next<I: Iterator>(&mut self, parent: &mut ChunksLazy<I>) -> (r: Option<Chunk<I>>)
        requires
            old(parent).grouping().valid(
                old(parent).grouping().origin().remaining(),
                old(parent).grouping().feed().remaining(),
            ),
            old(parent).grouping().opened() < usize::MAX,
        ensures
            final(parent).grouping().valid(
                old(parent).grouping().origin().remaining(),
                final(parent).grouping().feed().remaining(),
            ),
            final(parent).grouping().origin() == old(parent).grouping().origin(),
            old(parent).grouping().opens(
                &final(parent).grouping(),
                old(parent).grouping().origin().remaining(),
                match r {
                    Some(chunk) => chunk.first(),
                    None => None,
                },
            ),
            r is Some <==> old(parent).grouping().group(
                old(parent).grouping().origin().remaining(),
                old(parent).grouping().opened(),
            ).len() > 0,
            r matches Some(chunk) ==> {
                let source = old(parent).grouping().origin().remaining();
                let i = old(parent).grouping().opened();
                &&& chunk.id() == i
                &&& chunk.first() == Some(old(parent).grouping().group(source, i)[0])
                &&& chunk.remaining(final(parent), source) == old(parent).grouping().group(
                    source,
                    i,
                )
            },
    {
        match parent.groups.open() {
            Some(group) => Some(Chunk { group }),
            None => None,
        }
    }
}

impl<I: Iterator> Chunk<I> {
    /// The index of the chunk.
    pub closed spec fn id(&self) -> nat {
        self.group.id()
    }

    /// The chunk's first element, as long as the handle has not handed it
    /// out.
    pub closed spec fn first(&self) -> Option<I::Item> {
        self.group.first()
    }

    /// What the handle has still to give: the first element, if it is still
    /// there, and then what the engine owes to the chunk.
    pub open spec fn remaining(&self, parent: &ChunksLazy<I>, source: Seq<I::Item>) -> Seq<
        I::Item,
    > {
        (match self.first() {
            Some(e) => seq![e],
            None => Seq::empty(),
        }) + parent.grouping().engine().owed(source, self.id())
    }

    /// The next element of the chunk, or `None` when the chunk has ended.
    pub fn next(&mut self, parent: &mut ChunksLazy<I>) -> (r: Option<I::Item>)
        requires
            old(parent).grouping().valid(
                old(parent).grouping().origin().remaining(),
                old(parent).grouping().feed().remaining(),
            ),
            old(self).id() < old(parent).grouping().opened(),
        ensures
            final(parent).grouping().valid(
                old(parent).grouping().origin().remaining(),
                final(parent).grouping().feed().remaining(),
            ),
            final(parent).grouping().origin() == old(parent).grouping().origin(),
            final(parent).grouping().opened() == old(parent).grouping().opened(),
            final(self).id() == old(self).id(),
            final(self).first() is None,
            old(self).first() is Some ==> r == old(self).first() && *final(parent) == *old(parent),
            old(self).first() is None ==> old(parent).grouping().engine().stepped(
                &final(parent).grouping().engine(),
                old(parent).grouping().origin().remaining(),
                old(self).id(),
                r,
            ),
            r matches Some(e) ==> old(self).remaining(
                old(parent),
                old(parent).grouping().origin().remaining(),
            ) == seq![e] + final(self).remaining(
                final(parent),
                old(parent).grouping().origin().remaining(),
            ),
            r is None ==> old(self).remaining(
                old(parent),
                old(parent).grouping().origin().remaining(),
            ).len() == 0,
    {
        self.group.next(&mut parent.groups)
    }

    /// Gives the handle up, and tells the container so: what it has not
    /// buffered of this chunk yet, it need not buffer.
    pub fn drop(self, parent: &mut ChunksLazy<I>)
        ensures
            final(parent).grouping().engine().dropped_mark() == if old(
                parent,
            ).grouping().engine().dropped_mark() == usize::MAX || self.id() > old(
                parent,
            ).grouping().engine().dropped_mark() {
                self.id() as usize
            } else {
                old(parent).grouping().engine().dropped_mark()
            },
            final(parent).grouping().origin() == old(parent).grouping().origin(),
            final(parent).grouping().feed() == old(parent).grouping().feed(),
            final(parent).grouping().opened() == old(parent).grouping().opened(),
            final(parent).grouping().engine().key_function() == old(
                parent,
            ).grouping().engine().key_function(),
            final(parent).grouping().engine().pulled() == old(parent).grouping().engine().pulled(),
            final(parent).grouping().engine().held() == old(parent).grouping().engine().held(),
            final(parent).grouping().engine().exhausted() == old(
                parent,
            ).grouping().engine().exhausted(),
            final(parent).grouping().engine().frontier() == old(
                parent,
            ).grouping().engine().frontier(),
            final(parent).grouping().engine().reclaimed() == old(
                parent,
            ).grouping().engine().reclaimed(),
            final(parent).grouping().engine().base() == old(parent).grouping().engine().base(),
            final(parent).grouping().engine().slots() == old(parent).grouping().engine().slots(),
            forall|source: Seq<I::Item>|
                old(parent).grouping().wf(source) ==> #[trigger] final(parent).grouping().wf(
                    source,
                ),
            forall|source: Seq<I::Item>, c: nat| #[trigger]
                final(parent).grouping().engine().taken(source, c) == old(
                    parent,
                ).grouping().engine().taken(source, c),
    {
        self.group.drop(&mut parent.groups);
    }
}

} // verus!
