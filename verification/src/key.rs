//! Key functions: what decides where one group ends and the next begins.

use crate::runs::{lemma_run_start, run, run_start, starts_run};
use vstd::arithmetic::div_mod::{
    lemma_fundamental_div_mod, lemma_fundamental_div_mod_converse, lemma_mod_pos_bound,
};
use vstd::prelude::*;

verus! {

/// A function from a borrowed element to a key, which may keep state between
/// calls.
///
/// The spec functions describe one call: whether it may be made, the key it
/// returns, what the function itself promises of that key, and the state that
/// the call leaves.
pub trait KeyFunction<A>: Sized {
    type Key;

    /// The next call may be made with `arg`.
    spec fn accepts(&self, arg: &A) -> bool;

    /// The key that the next call returns for `arg`.
    spec fn key_for(&self, arg: &A) -> Self::Key;

    /// The next call, made with `arg`, may return `key`: what the function
    /// itself promises of its result.
    spec fn yields(&self, arg: &A, key: Self::Key) -> bool;

    /// The function after it was called with `arg`.
    spec fn advanced(&self, arg: &A) -> Self;

    /// Gives the key of `arg`.
    fn call_mut(&mut self, arg: &A) -> (key: Self::Key)
        requires
            old(self).accepts(arg),
        ensures
            key == old(self).key_for(arg),
            old(self).yields(arg, key),
            *final(self) == old(self).advanced(arg),
    ;
}

/// The key function after it was called on the first `n` elements of
/// `source`, in order.
pub open spec fn state_after<A, F: KeyFunction<A>>(f: F, source: Seq<A>, n: nat) -> F
    decreases n,
{
    if n == 0 {
        f
    } else {
        state_after(f, source, (n - 1) as nat).advanced(&source[n - 1])
    }
}

/// The key that `f` gives to the element at position `j`, when it is called on
/// the elements of `source` in order.
pub open spec fn key_at<A, F: KeyFunction<A>>(f: F, source: Seq<A>, j: int) -> F::Key {
    state_after(f, source, j as nat).key_for(&source[j])
}

/// The keys that `f` gives to the elements of `source`, called on them in
/// order.
pub open spec fn keys_of<A, F: KeyFunction<A>>(f: F, source: Seq<A>) -> Seq<F::Key> {
    Seq::new(source.len(), |j: int| key_at(f, source, j))
}

/// `f` can be called on every element of `source`, in order.
pub open spec fn accepts_all<A, F: KeyFunction<A>>(f: F, source: Seq<A>) -> bool {
    forall|j: nat|
        j < source.len() ==> (#[trigger] state_after(f, source, j)).accepts(&source[j as int])
}

/// A plain function or closure is a key function without state. It can be
/// called on an element if its precondition holds there and its postcondition
/// admits one key only.
impl<A, K, F: Fn(&A) -> K> KeyFunction<A> for F {
    type Key = K;

    open spec fn accepts(&self, arg: &A) -> bool {
        &&& call_requires(*self, (arg,))
        &&& forall|k1: K, k2: K|
            call_ensures(*self, (arg,), k1) && call_ensures(*self, (arg,), k2) ==> k1 == k2
    }

    open spec fn key_for(&self, arg: &A) -> K {
        choose|k: K| call_ensures(*self, (arg,), k)
    }

    open spec fn yields(&self, arg: &A, key: K) -> bool {
        call_ensures(*self, (arg,), key)
    }

    open spec fn advanced(&self, arg: &A) -> Self {
        *self
    }

    fn call_mut(&mut self, arg: &A) -> (key: K) {
        (*self)(arg)
    }
}

/// A key function that no call changes stays as it is, however many elements
/// it is called on.
pub proof fn lemma_stateless<A, F: KeyFunction<A>>(f: F, source: Seq<A>, n: nat)
    requires
        forall|x: &A| #[trigger] f.advanced(x) == f,
    ensures
        state_after(f, source, n) == f,
    decreases n,
{
    if n > 0 {
        lemma_stateless(f, source, (n - 1) as nat);
    }
}

/// The function `f` can be called on every element of `source`, and its
/// postcondition admits one key only for each of them.
pub open spec fn closure_accepts<A, K, F: Fn(&A) -> K>(f: F, source: Seq<A>) -> bool {
    &&& forall|j: int| 0 <= j < source.len() ==> #[trigger] call_requires(f, (&source[j],))
    &&& forall|j: int, k1: K, k2: K|
        0 <= j < source.len() && #[trigger] call_ensures(f, (&source[j],), k1)
            && #[trigger] call_ensures(f, (&source[j],), k2) ==> k1 == k2
}

/// A plain function or closure that accepts the elements of `source` is a key
/// function that can be called on every one of them.
pub proof fn lemma_closure_accepts<A, K, F: Fn(&A) -> K>(f: F, source: Seq<A>)
    requires
        closure_accepts(f, source),
    ensures
        accepts_all(f, source),
{
    assert forall|j: nat| j < source.len() implies (#[trigger] state_after(
        f,
        source,
        j,
    )).accepts(&source[j as int]) by {
        lemma_stateless(f, source, j);
        assert(call_requires(f, (&source[j as int],)));
    }
}

/// The key function of fixed-size chunking: it ignores the element and counts
/// calls, giving the same key to `size` calls in a row.
pub struct ChunkIndex {
    size: usize,
    index: usize,
    key: usize,
}

impl ChunkIndex {
    /// The counter before its first call.
    pub closed spec fn fresh(size: usize) -> Self {
        ChunkIndex { size, index: 0, key: 0 }
    }

    /// The counter after `n >= 1` calls, for a chunk size of at least one: the
    /// last call was number `index` of chunk `key`.
    spec fn counted(&self, size: usize, n: nat) -> bool {
        &&& self.size == size
        &&& 1 <= self.index <= size
        &&& self.key * size + self.index == n
    }

    /// The counter after `n >= 1` calls, for a chunk size of zero.
    spec fn unbounded(&self, n: nat) -> bool {
        &&& self.size == 0
        &&& self.index == n
        &&& self.key == 1
    }

    /// A counter for chunks of `size` elements, before its first call.
    pub fn new(size: usize) -> (counter: Self)
        ensures
            counter == Self::fresh(size),
    {
        ChunkIndex { size: size, index: 0, key: 0 }
    }
}

impl<A> KeyFunction<A> for ChunkIndex {
    type Key = usize;

    closed spec fn accepts(&self, arg: &A) -> bool {
        if self.index == self.size {
            self.key < usize::MAX
        } else {
            self.index < usize::MAX
        }
    }

    closed spec fn key_for(&self, arg: &A) -> usize {
        if self.index == self.size {
            (self.key + 1) as usize
        } else {
            self.key
        }
    }

    closed spec fn yields(&self, arg: &A, key: usize) -> bool {
        key == <Self as KeyFunction<A>>::key_for(self, arg)
    }

    closed spec fn advanced(&self, arg: &A) -> Self {
        if self.index == self.size {
            ChunkIndex { size: self.size, index: 1, key: (self.key + 1) as usize }
        } else {
            ChunkIndex { size: self.size, index: (self.index + 1) as usize, key: self.key }
        }
    }

    fn call_mut(&mut self, _arg: &A) -> (key: usize) {
        if self.index == self.size {
            self.key += 1;
            self.index = 0;
        }
        self.index += 1;
        self.key
    }
}

/// The key of position `j` under chunking by `size`: the number of the window
/// of `size` positions that holds `j`. A size of zero makes one chunk of
/// everything, under the key one.
pub open spec fn chunk_key(size: nat, j: nat) -> nat {
    if size == 0 {
        1
    } else {
        j / size
    }
}

/// The smaller of two numbers.
pub open spec fn least(a: int, b: int) -> int {
    if a <= b {
        a
    } else {
        b
    }
}

impl ChunkIndex {
    /// What the counter holds after `n` calls.
    proof fn lemma_state<A>(size: usize, source: Seq<A>, n: nat)
        requires
            n <= source.len() <= usize::MAX,
        ensures
            n == 0 ==> state_after::<A, ChunkIndex>(Self::fresh(size), source, n) == Self::fresh(
                size,
            ),
            n > 0 && size > 0 ==> state_after::<A, ChunkIndex>(
                Self::fresh(size),
                source,
                n,
            ).counted(size, n),
            n > 0 && size == 0 ==> state_after::<A, ChunkIndex>(
                Self::fresh(size),
                source,
                n,
            ).unbounded(n),
        decreases n,
    {
        if n > 0 {
            let m = (n - 1) as nat;
            Self::lemma_state(size, source, m);
            let before = state_after::<A, ChunkIndex>(Self::fresh(size), source, m);
            let after = state_after::<A, ChunkIndex>(Self::fresh(size), source, n);
            assert(after == before.advanced(&source[n - 1]));
            let k = before.key as int;
            let d = size as int;
            if size > 0 && m > 0 {
                assert(k <= k * d) by (nonlinear_arith)
                    requires
                        k >= 0,
                        d >= 1,
                ;
                assert((k + 1) * d == k * d + d) by (nonlinear_arith);
            } else if size > 0 {
                assert(k * d == 0) by (nonlinear_arith)
                    requires
                        k == 0,
                ;
            }
        }
    }
}

/// The counter of chunks can be called on every element of a source that is
/// no longer than `usize::MAX`.
pub proof fn lemma_chunk_index_accepts<A>(size: usize, source: Seq<A>)
    requires
        source.len() <= usize::MAX,
    ensures
        accepts_all(ChunkIndex::fresh(size), source),
{
    assert forall|j: nat| j < source.len() implies (#[trigger] state_after(
        ChunkIndex::fresh(size),
        source,
        j,
    )).accepts(&source[j as int]) by {
        ChunkIndex::lemma_state(size, source, j);
        let st = state_after::<A, ChunkIndex>(ChunkIndex::fresh(size), source, j);
        if j > 0 && size > 0 {
            let k = st.key as int;
            let d = size as int;
            assert(k <= k * d) by (nonlinear_arith)
                requires
                    k >= 0,
                    d >= 1,
            ;
        }
    }
}

/// Under chunking by `size`, the element at position `j` gets the number of
/// its window as its key.
pub proof fn law_chunk_keys<A>(size: usize, source: Seq<A>, j: int)
    requires
        source.len() <= usize::MAX,
        0 <= j < source.len(),
    ensures
        keys_of(ChunkIndex::fresh(size), source)[j] == chunk_key(size as nat, j as nat),
{
    ChunkIndex::lemma_state(size, source, j as nat);
    let st = state_after::<A, ChunkIndex>(ChunkIndex::fresh(size), source, j as nat);
    if size > 0 {
        let d = size as int;
        if j == 0 {
            lemma_fundamental_div_mod_converse(0, d, 0, 0);
        } else {
            let k = st.key as int;
            let i = st.index as int;
            assert(k <= k * d) by (nonlinear_arith)
                requires
                    k >= 0,
                    d >= 1,
            ;
            if i == d {
                assert((k + 1) * d == k * d + d) by (nonlinear_arith);
                lemma_fundamental_div_mod_converse(j, d, k + 1, 0);
            } else {
                lemma_fundamental_div_mod_converse(j, d, k, i);
            }
        }
    }
}

/// Under chunking by `size`, a new run starts exactly at the positive
/// multiples of `size`.
proof fn lemma_chunk_run_starts<A>(size: usize, source: Seq<A>, q: int)
    requires
        size > 0,
        source.len() <= usize::MAX,
        0 < q < source.len(),
    ensures
        starts_run(keys_of(ChunkIndex::fresh(size), source), q) <==> q % (size as int) == 0,
{
    let d = size as int;
    law_chunk_keys(size, source, q);
    law_chunk_keys(size, source, q - 1);
    lemma_fundamental_div_mod(q, d);
    lemma_fundamental_div_mod(q - 1, d);
    lemma_mod_pos_bound(q, d);
    lemma_mod_pos_bound(q - 1, d);
    let a = q / d;
    let b = (q - 1) / d;
    assert(d * a - d * b == d * (a - b)) by (nonlinear_arith);
    if a == b {
        assert(q % d != 0);
    } else {
        assert(a - b >= 1 || a - b <= -1);
        assert(d * (a - b) >= d || d * (a - b) <= -d) by (nonlinear_arith)
            requires
                d >= 1,
                a - b >= 1 || a - b <= -1,
        ;
        assert(q % d == 0);
    }
}

/// Where the chunks start: chunk `c` starts at position `c * size`, or at the
/// end of the source if that is less.
pub proof fn lemma_chunk_start<A>(size: usize, source: Seq<A>, c: nat)
    requires
        size > 0,
        source.len() <= usize::MAX,
    ensures
        run_start(keys_of(ChunkIndex::fresh(size), source), c) == least(
            c * size,
            source.len() as int,
        ),
    decreases c,
{
    let keys = keys_of(ChunkIndex::fresh(size), source);
    let d = size as int;
    let len = source.len() as int;
    assert(keys.len() == len);
    if c == 0 {
        assert(c * d == 0) by (nonlinear_arith)
            requires
                c == 0,
        ;
    } else {
        let b = (c - 1) as nat;
        lemma_chunk_start(size, source, b);
        lemma_run_start(keys, b);
        let from = run_start(keys, b);
        let to = run_start(keys, c);
        assert(c * d == b * d + d) by (nonlinear_arith)
            requires
                c == b + 1,
        ;
        assert(b * d >= 0) by (nonlinear_arith)
            requires
                b >= 0,
                d >= 1,
        ;
        if from < len {
            lemma_fundamental_div_mod_converse(c * d, d, c as int, 0);
            if c * d < len && c * d < to {
                // a run would start inside run `b`
                lemma_chunk_run_starts(size, source, c * d);
            }
            if to < len {
                lemma_chunk_run_starts(size, source, to);
                lemma_fundamental_div_mod(to, d);
                let t = to / d;
                assert(t > b) by (nonlinear_arith)
                    requires
                        to == d * t,
                        to > b * d,
                        d >= 1,
                ;
                assert(d * t >= b * d + d) by (nonlinear_arith)
                    requires
                        t >= b + 1,
                        d >= 1,
                ;
                assert(to == c * d);
            } else {
                assert(c * d >= len);
            }
        } else {
            assert(to == len);
        }
    }
}

/// Under chunking by `size`, chunk `c` is the window of `size` positions from
/// `c * size` on, cut off at the end of the source.
pub proof fn law_chunks_are_windows<A>(size: usize, source: Seq<A>, c: nat)
    requires
        size > 0,
        source.len() <= usize::MAX,
    ensures
        run(source, keys_of(ChunkIndex::fresh(size), source), c) == source.subrange(
            least(c * size, source.len() as int),
            least((c + 1) * size, source.len() as int),
        ),
{
    lemma_chunk_start(size, source, c);
    lemma_chunk_start(size, source, c + 1);
}

/// Under chunking by zero, the whole source is one chunk.
pub proof fn law_chunk_size_zero<A>(source: Seq<A>)
    requires
        source.len() <= usize::MAX,
    ensures
        run(source, keys_of(ChunkIndex::fresh(0), source), 0) == source,
        forall|c: nat|
            c > 0 ==> (#[trigger] run(source, keys_of(ChunkIndex::fresh(0), source), c)).len()
                == 0,
{
    let keys = keys_of(ChunkIndex::fresh(0), source);
    lemma_run_start(keys, 0);
    let end = run_start(keys, 1);
    if end < source.len() {
        law_chunk_keys(0, source, end);
        law_chunk_keys(0, source, end - 1);
    }
    assert(run(source, keys, 0) =~= source);
    assert forall|c: nat| c > 0 implies (#[trigger] run(source, keys, c)).len() == 0 by {
        crate::runs::lemma_run_start_monotone(keys, 1, c);
        lemma_run_start(keys, c);
    }
}

} // verus!
