//! The mathematical model: how a sequence of keys splits a source into runs.
//!
//! A run is a maximal stretch of consecutive positions in which every key
//! compares equal to the key just before it.

use vstd::prelude::*;
use vstd::std_specs::cmp::PartialEqSpec;

verus! {

/// A new run starts at position `j`: the key there differs from the one before.
pub open spec fn starts_run<K: PartialEq>(keys: Seq<K>, j: int) -> bool {
    0 < j < keys.len() && !keys[j - 1].eq_spec(&keys[j])
}

/// The end (exclusive) of the run that holds position `p`.
pub open spec fn run_end<K: PartialEq>(keys: Seq<K>, p: int) -> int
    decreases keys.len() - p,
{
    if p + 1 >= keys.len() {
        keys.len() as int
    } else if starts_run(keys, p + 1) {
        p + 1
    } else {
        run_end(keys, p + 1)
    }
}

/// The position at which run number `c` starts; the length of `keys` when
/// there is no such run.
pub open spec fn run_start<K: PartialEq>(keys: Seq<K>, c: nat) -> int
    decreases c,
{
    if c == 0 {
        0
    } else {
        let prev = run_start(keys, (c - 1) as nat);
        if 0 <= prev < keys.len() {
            run_end(keys, prev)
        } else {
            keys.len() as int
        }
    }
}

/// The elements of run number `c`, in source order; empty when there is no
/// such run.
pub open spec fn run<T, K: PartialEq>(source: Seq<T>, keys: Seq<K>, c: nat) -> Seq<T> {
    source.subrange(run_start(keys, c), run_start(keys, c + 1))
}

/// The number of the run that holds position `j`: how many runs start at or
/// before `j`, not counting the first.
pub open spec fn run_of<K: PartialEq>(keys: Seq<K>, j: int) -> nat
    decreases j,
{
    if j <= 0 {
        0
    } else {
        run_of(keys, j - 1) + if starts_run(keys, j) { 1nat } else { 0nat }
    }
}

/// How many runs there are.
pub open spec fn run_count<K: PartialEq>(keys: Seq<K>) -> nat {
    if keys.len() == 0 {
        0
    } else {
        run_of(keys, keys.len() - 1) + 1
    }
}

/// All runs, in the order in which they occur in the source.
pub open spec fn runs<T, K: PartialEq>(source: Seq<T>, keys: Seq<K>) -> Seq<Seq<T>> {
    Seq::new(run_count(keys), |c: int| run(source, keys, c as nat))
}

/// The run of `p` ends after `p`, at the next start of a run or at the end of
/// the keys, and no run starts in between.
pub proof fn lemma_run_end<K: PartialEq>(keys: Seq<K>, p: int)
    requires
        0 <= p < keys.len(),
    ensures
        p < run_end(keys, p) <= keys.len(),
        run_end(keys, p) == keys.len() || starts_run(keys, run_end(keys, p)),
        forall|q: int| p < q < run_end(keys, p) ==> !starts_run(keys, q),
    decreases keys.len() - p,
{
    if p + 1 < keys.len() && !starts_run(keys, p + 1) {
        lemma_run_end(keys, p + 1);
    }
}

/// Where runs start: within the keys, in increasing order, each at a change
/// of key, with no change of key inside a run.
pub proof fn lemma_run_start<K: PartialEq>(keys: Seq<K>, c: nat)
    ensures
        0 <= run_start(keys, c) <= run_start(keys, c + 1) <= keys.len(),
        run_start(keys, c) < keys.len() ==> run_start(keys, c) < run_start(keys, c + 1),
        c > 0 ==> run_start(keys, c) == keys.len() || starts_run(keys, run_start(keys, c)),
        run_start(keys, c + 1) == keys.len() || starts_run(keys, run_start(keys, c + 1)),
        forall|q: int|
            run_start(keys, c) < q < run_start(keys, c + 1) ==> !starts_run(keys, q),
    decreases c,
{
    if c > 0 {
        lemma_run_start(keys, (c - 1) as nat);
    }
    let here = run_start(keys, c);
    if here < keys.len() {
        lemma_run_end(keys, here);
    }
}

/// Later runs start later.
pub proof fn lemma_run_start_monotone<K: PartialEq>(keys: Seq<K>, a: nat, b: nat)
    requires
        a <= b,
    ensures
        run_start(keys, a) <= run_start(keys, b),
    decreases b,
{
    if a < b {
        lemma_run_start_monotone(keys, a, (b - 1) as nat);
        lemma_run_start(keys, (b - 1) as nat);
    }
}

/// Every run before the last position is non-empty, so run `c` cannot start
/// before position `c`.
pub proof fn lemma_run_start_at_least<K: PartialEq>(keys: Seq<K>, c: nat)
    ensures
        run_start(keys, c) >= c || run_start(keys, c) == keys.len(),
    decreases c,
{
    if c > 0 {
        lemma_run_start_at_least(keys, (c - 1) as nat);
        lemma_run_start(keys, (c - 1) as nat);
    }
}

/// The first change of key after the start of run `c` is where run `c + 1`
/// starts.
pub proof fn lemma_next_run_starts_at<K: PartialEq>(keys: Seq<K>, c: nat, q: int)
    requires
        run_start(keys, c) < q <= run_start(keys, c + 1),
        starts_run(keys, q),
    ensures
        run_start(keys, c + 1) == q,
{
    lemma_run_start(keys, c);
}

/// A position at which no run starts, reached from inside run `c`, is still
/// inside run `c`.
pub proof fn lemma_run_goes_on<K: PartialEq>(keys: Seq<K>, c: nat, q: int)
    requires
        run_start(keys, c) <= q <= run_start(keys, c + 1),
        q < keys.len(),
        q == 0 || !starts_run(keys, q),
        c == 0 || run_start(keys, c) < q,
    ensures
        q < run_start(keys, c + 1),
{
    lemma_run_start(keys, c);
}

/// Position `j` lies in the run that `run_of` gives for it.
pub proof fn lemma_run_of_position<K: PartialEq>(keys: Seq<K>, j: int)
    requires
        0 <= j < keys.len(),
    ensures
        run_start(keys, run_of(keys, j)) <= j < run_start(keys, run_of(keys, j) + 1),
    decreases j,
{
    if j == 0 {
        lemma_run_start(keys, 0);
    } else {
        lemma_run_of_position(keys, j - 1);
        let c = run_of(keys, j - 1);
        lemma_run_start(keys, c);
        lemma_run_start(keys, c + 1);
        if starts_run(keys, j) {
            lemma_next_run_starts_at(keys, c, j);
        }
    }
}

/// A position lies in exactly one run: the bounds of a run determine
/// `run_of`.
pub proof fn lemma_run_of_unique<K: PartialEq>(keys: Seq<K>, c: nat, j: int)
    requires
        run_start(keys, c) <= j < run_start(keys, c + 1),
    ensures
        run_of(keys, j) == c,
{
    lemma_run_start(keys, c);
    lemma_run_of_position(keys, j);
    let d = run_of(keys, j);
    if d < c {
        lemma_run_start_monotone(keys, d + 1, c);
    } else if d > c {
        lemma_run_start_monotone(keys, c + 1, d);
    }
}

/// The runs cover the keys: the run after the last one starts at the end, and
/// every run before that is non-empty.
pub proof fn lemma_run_count<K: PartialEq>(keys: Seq<K>)
    ensures
        run_start(keys, run_count(keys)) == keys.len(),
        forall|c: nat| c < run_count(keys) ==> run_start(keys, c) < keys.len(),
        forall|c: nat| c >= run_count(keys) ==> run_start(keys, c) == keys.len(),
{
    let n = run_count(keys);
    if keys.len() == 0 {
        assert forall|c: nat| c >= n implies run_start(keys, c) == keys.len() by {
            lemma_run_start(keys, c);
        }
    } else {
        let last = keys.len() - 1;
        lemma_run_of_position(keys, last);
        lemma_run_start(keys, run_of(keys, last));
        lemma_run_start(keys, n);
        assert forall|c: nat| c < n implies run_start(keys, c) < keys.len() by {
            lemma_run_start_monotone(keys, c, (n - 1) as nat);
        }
        assert forall|c: nat| c >= n implies run_start(keys, c) == keys.len() by {
            lemma_run_start_monotone(keys, n, c);
            lemma_run_start(keys, c);
        }
    }
}

/// Partitioning: two neighbouring positions lie in the same run if and only
/// if their keys compare equal, and otherwise the later one opens the next
/// run.
pub proof fn law_neighbours_share_run_iff_keys_equal<K: PartialEq>(keys: Seq<K>, j: int)
    requires
        0 < j < keys.len(),
    ensures
        run_of(keys, j) == run_of(keys, j - 1) <==> keys[j - 1].eq_spec(&keys[j]),
        !keys[j - 1].eq_spec(&keys[j]) ==> run_of(keys, j) == run_of(keys, j - 1) + 1
            && run_start(keys, run_of(keys, j)) == j,
        run_start(keys, run_of(keys, j)) <= j < run_start(keys, run_of(keys, j) + 1),
{
    lemma_run_of_position(keys, j);
    lemma_run_of_position(keys, j - 1);
    if starts_run(keys, j) {
        lemma_next_run_starts_at(keys, run_of(keys, j - 1), j);
        lemma_run_start(keys, run_of(keys, j - 1));
    }
}

/// The first `n` runs, laid end to end, are the source up to the start of run
/// `n`.
pub proof fn lemma_runs_prefix<T, K: PartialEq>(source: Seq<T>, keys: Seq<K>, n: nat)
    requires
        source.len() == keys.len(),
    ensures
        Seq::new(n, |c: int| run(source, keys, c as nat)).flatten() =~= source.subrange(
            0,
            run_start(keys, n),
        ),
    decreases n,
{
    let all = Seq::new(n, |c: int| run(source, keys, c as nat));
    lemma_run_start(keys, n);
    if n == 0 {
        assert(all =~= Seq::<Seq<T>>::empty());
    } else {
        let m = (n - 1) as nat;
        let before = Seq::new(m, |c: int| run(source, keys, c as nat));
        lemma_runs_prefix(source, keys, m);
        lemma_run_start(keys, m);
        assert(all =~= before.push(run(source, keys, m)));
        before.lemma_flatten_push(run(source, keys, m));
    }
}

/// Completeness: the runs, laid end to end in the order in which they occur,
/// are the source: nothing is lost, repeated or moved.
pub proof fn law_runs_make_up_source<T, K: PartialEq>(source: Seq<T>, keys: Seq<K>)
    requires
        source.len() == keys.len(),
    ensures
        runs(source, keys).flatten() == source,
{
    lemma_runs_prefix(source, keys, run_count(keys));
    lemma_run_count(keys);
    assert(source.subrange(0, source.len() as int) =~= source);
}

} // verus!
