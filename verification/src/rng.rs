//! Deterministic seeded pseudo-random generation and index sampling.
//!
//! The clustering engine uses randomness in exactly one place: drawing `k`
//! distinct point indices for the initial centers.  The generator here is a
//! 64-bit mix sequence (a splitmix design) whose whole behaviour is a spec
//! function of the seed, so a fixed seed gives the same sampled indices on
//! every run; sampling without replacement is a partial Fisher-Yates shuffle
//! over the index range.

use vstd::prelude::*;

verus! {

/// State increment applied on every draw.
pub const STEP_INC: u64 = 0x9E37_79B9_7F4A_7C15;

/// First multiplier of the output mix.
pub const MIX_MUL_A: u64 = 0xBF58_476D_1CE4_E5B9;

/// Second multiplier of the output mix.
pub const MIX_MUL_B: u64 = 0x94D0_49BB_1331_11EB;

/// The generator state after one draw from state `s`.
pub open spec fn spec_step(s: u64) -> u64 {
    vstd::wrapping::u64_specs::wrapping_add(s, STEP_INC)
}

/// The output mix applied to a stepped state.
pub open spec fn spec_mix(z: u64) -> u64 {
    let z1 = vstd::wrapping::u64_specs::wrapping_mul(z ^ (z >> 30), MIX_MUL_A);
    let z2 = vstd::wrapping::u64_specs::wrapping_mul(z1 ^ (z1 >> 27), MIX_MUL_B);
    z2 ^ (z2 >> 31)
}

/// The value drawn from state `s`.
pub open spec fn spec_draw(s: u64) -> u64 {
    spec_mix(spec_step(s))
}

/// The identity permutation of `0 .. n`.
pub open spec fn spec_iota(n: nat) -> Seq<usize> {
    Seq::new(n, |t: int| t as usize)
}

/// Partial Fisher-Yates shuffle: starting at position `i`, swap each of the
/// positions `i .. k` with a drawn position at or after it, advancing the
/// generator state once per position.  Returns the permuted sequence and the
/// final generator state.
pub open spec fn spec_shuffle(idx: Seq<usize>, i: nat, k: nat, st: u64) -> (Seq<usize>, u64)
    decreases k - i,
{
    let n = idx.len();
    if i >= k || i >= n {
        (idx, st)
    } else {
        let j = i + spec_draw(st) % ((n - i) as u64);
        let a = idx[i as int];
        let b = idx[j as int];
        let swapped = idx.update(i as int, b).update(j as int, a);
        spec_shuffle(swapped, i + 1, k, spec_step(st))
    }
}

/// `k` distinct indices drawn from `0 .. n` starting at state `st`, together
/// with the generator state after the draws.
pub open spec fn spec_sample(n: nat, k: nat, st: u64) -> (Seq<usize>, u64) {
    let p = spec_shuffle(spec_iota(n), 0, k, st);
    (p.0.take(k as int), p.1)
}

/// The partial shuffle keeps the length and permutes: values stay in range
/// and stay pairwise distinct.
pub proof fn lemma_shuffle_permutes(idx: Seq<usize>, i: nat, k: nat, st: u64)
    requires
        idx.len() <= usize::MAX,
        forall|a: int| 0 <= a < idx.len() ==> (#[trigger] idx[a] as int) < idx.len(),
        forall|a: int, b: int| 0 <= a < b < idx.len() ==> idx[a] != idx[b],
    ensures
        spec_shuffle(idx, i, k, st).0.len() == idx.len(),
        forall|a: int|
            0 <= a < idx.len() ==> (#[trigger] spec_shuffle(idx, i, k, st).0[a] as int) < idx.len(),
        forall|a: int, b: int|
            0 <= a < b < idx.len() ==> spec_shuffle(idx, i, k, st).0[a] != spec_shuffle(
                idx,
                i,
                k,
                st,
            ).0[b],
    decreases k - i,
{
    let n = idx.len();
    if i >= k || i >= n {
    } else {
        let j = i + spec_draw(st) % ((n - i) as u64);
        let a = idx[i as int];
        let b = idx[j as int];
        let swapped = idx.update(i as int, b).update(j as int, a);
        assert((n - i) as u64 == n - i);
        assert(spec_draw(st) % ((n - i) as u64) < n - i);
        assert(0 <= j < n);
        assert(swapped.len() == n);
        assert(forall|t: int| 0 <= t < n ==> (#[trigger] swapped[t] as int) < n);
        assert(forall|t: int, u: int| 0 <= t < u < n ==> swapped[t] != swapped[u]);
        lemma_shuffle_permutes(swapped, i + 1, k, spec_step(st));
    }
}

/// The sampled indices are `k` pairwise-distinct values below `n`.
pub proof fn lemma_sample_permutes(n: nat, k: nat, st: u64)
    requires
        k <= n <= usize::MAX,
    ensures
        spec_sample(n, k, st).0.len() == k,
        forall|a: int| 0 <= a < k ==> (#[trigger] spec_sample(n, k, st).0[a] as int) < n,
        forall|a: int, b: int|
            0 <= a < b < k ==> spec_sample(n, k, st).0[a] != spec_sample(n, k, st).0[b],
{
    let base = spec_iota(n);
    assert(forall|a: int| 0 <= a < n ==> (#[trigger] base[a] as int) < n);
    assert(forall|a: int, b: int| 0 <= a < b < n ==> base[a] != base[b]);
    lemma_shuffle_permutes(base, 0, k, st);
}

/// Pigeonhole: a sequence of `n` pairwise-distinct values below `n` takes
/// every value below `n` somewhere.
pub proof fn lemma_distinct_full_is_surjective(s: Seq<usize>, n: nat, j: int)
    requires
        s.len() == n,
        forall|a: int| 0 <= a < n ==> (#[trigger] s[a] as int) < n,
        forall|a: int, b: int| 0 <= a < b < n ==> s[a] != s[b],
        0 <= j < n,
    ensures
        exists|c: int| 0 <= c < n && #[trigger] s[c] as int == j,
{
    let t = s.map_values(|x: usize| x as int);
    assert(t.no_duplicates());
    t.unique_seq_to_set();
    vstd::set_lib::lemma_int_range(0, n as int);
    let range = vstd::set_lib::set_int_range(0, n as int);
    assert forall|v: int| t.to_set().contains(v) implies range.contains(v) by {
        let w = choose|w: int| 0 <= w < t.len() && t[w] == v;
        assert(t[w] == v);
    }
    if !(exists|c: int| 0 <= c < n && #[trigger] s[c] as int == j) {
        assert forall|c: int| 0 <= c < t.len() implies t[c] != j by {
            assert(s[c] as int != j);
        }
        assert(!t.to_set().contains(j));
        t.to_set().lemma_subset_not_in_lt(range, j);
        assert(false);
    }
}

/// Deterministic seeded pseudo-random generator.
pub struct SeededRng {
    state: u64,
}

impl SeededRng {
    /// The current generator state.
    pub closed spec fn state_spec(self) -> u64 {
        self.state
    }

    /// A generator whose state is the seed itself.
    pub fn new(seed: u64) -> (r: Self)
        ensures
            r.state_spec() == seed,
    {
        SeededRng { state: seed }
    }

    /// Draw the next value of the mix sequence.
    pub fn next_value(&mut self) -> (r: u64)
        ensures
            final(self).state_spec() == spec_step(old(self).state_spec()),
            r == spec_draw(old(self).state_spec()),
    {
        self.state = self.state.wrapping_add(STEP_INC);
        let z: u64 = self.state;
        let z1: u64 = (z ^ (z >> 30)).wrapping_mul(MIX_MUL_A);
        let z2: u64 = (z1 ^ (z1 >> 27)).wrapping_mul(MIX_MUL_B);
        z2 ^ (z2 >> 31)
    }

    /// Draw a value below `bound`.
    pub fn next_below(&mut self, bound: u64) -> (r: u64)
        requires
            bound > 0,
        ensures
            final(self).state_spec() == spec_step(old(self).state_spec()),
            r == spec_draw(old(self).state_spec()) % bound,
            r < bound,
    {
        self.next_value() % bound
    }

    /// Draw `k` distinct indices from `0 .. n` without replacement, by a
    /// partial Fisher-Yates shuffle of the index range.  The result is a
    /// function of the generator state alone: equal seeds give equal samples.
    pub fn sample_indices(&mut self, n: usize, k: usize) -> (r: Vec<usize>)
        requires
            k <= n,
        ensures
            r@ == spec_sample(n as nat, k as nat, old(self).state_spec()).0,
            final(self).state_spec() == spec_sample(n as nat, k as nat, old(self).state_spec()).1,
            r@.len() == k,
            forall|a: int| 0 <= a < k ==> (r@[a] as int) < n,
            forall|a: int, b: int| 0 <= a < b < k ==> r@[a] != r@[b],
    {
        let mut idx: Vec<usize> = Vec::new();
        let mut v: usize = 0;
        while v < n
            invariant
                v <= n,
                idx@.len() == v,
                forall|t: int| 0 <= t < v ==> idx@[t] == t as usize,
            decreases n - v,
        {
            idx.push(v);
            v = v + 1;
        }
        proof {
            assert(idx@ =~= spec_iota(n as nat));
        }

        let ghost st0: u64 = self.state_spec();
        let mut i: usize = 0;
        while i < k
            invariant
                i <= k,
                k <= n,
                idx@.len() == n,
                spec_shuffle(spec_iota(n as nat), 0, k as nat, st0) == spec_shuffle(
                    idx@,
                    i as nat,
                    k as nat,
                    self.state_spec(),
                ),
                forall|a: int| 0 <= a < n ==> (idx@[a] as int) < n,
                forall|a: int, b: int| 0 <= a < b < n ==> idx@[a] != idx@[b],
            decreases k - i,
        {
            let ghost pre: Seq<usize> = idx@;
            let ghost st_pre: u64 = self.state_spec();
            let d = self.next_below((n - i) as u64);
            let j = i + (d as usize);
            let a = idx[i];
            let b = idx[j];
            idx.set(i, b);
            idx.set(j, a);
            proof {
                assert(idx@ == pre.update(i as int, b).update(j as int, a));
                assert(spec_shuffle(pre, i as nat, k as nat, st_pre) == spec_shuffle(
                    idx@,
                    (i + 1) as nat,
                    k as nat,
                    self.state_spec(),
                ));
            }
            i = i + 1;
        }

        let mut out: Vec<usize> = Vec::new();
        let mut c: usize = 0;
        while c < k
            invariant
                c <= k,
                k <= n,
                idx@.len() == n,
                out@ == idx@.take(c as int),
            decreases k - c,
        {
            out.push(idx[c]);
            proof {
                assert(out@ =~= idx@.take(c + 1));
            }
            c = c + 1;
        }
        proof {
            assert(spec_shuffle(idx@, k as nat, k as nat, self.state_spec()) == (
                idx@,
                self.state_spec(),
            ));
        }
        out
    }
}

} // verus!
