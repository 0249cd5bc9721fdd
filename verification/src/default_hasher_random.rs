use vstd::prelude::*;

verus! {

use crate::solver::foreseen_run;
use crate::solver::SolverRandomState;
use crate::solver::Standing;
use std::collections::hash_map::DefaultHasher;
use std::hash::Hasher;
use vstd::bytes::spec_u64_to_le_bytes;
use vstd::bytes::u64_to_le_bytes;
use vstd::std_specs::hash::DefaultHasherAdditionalSpecFns;

/// What a hasher has been fed after one more choice was asked of a source
/// with this seed: the seed, mixed with the hash so far, as eight bytes.
pub open spec fn fed(seed: u64, written: Seq<Seq<u8>>) -> Seq<Seq<u8>> {
    written.push(spec_u64_to_le_bytes(seed ^ DefaultHasher::spec_finish(written)))
}

/// A hash brought into the range below `max`, keeping its proportion.
pub open spec fn scaled(hash: u64, max: usize) -> int {
    (hash * max) / 0x1_0000_0000_0000_0000
}

/// The choice that a source with this seed and this past makes below `max`.
pub open spec fn choice_of(seed: u64, written: Seq<Seq<u8>>, max: usize) -> int {
    scaled(DefaultHasher::spec_finish(fed(seed, written)), max)
}

/// A scaled hash lies below `max`.
pub proof fn lemma_scaled_in_range(hash: u64, max: usize)
    requires
        max > 0,
    ensures
        0 <= scaled(hash, max) < max,
{
    assert(hash * max < 0x1_0000_0000_0000_0000 * max) by (nonlinear_arith)
        requires
            hash < 0x1_0000_0000_0000_0000,
            max > 0,
    ;
    assert(0 <= hash * max) by (nonlinear_arith)
        requires
            hash >= 0,
            max > 0,
    ;
    assert((hash * max) / 0x1_0000_0000_0000_0000 < max) by (nonlinear_arith)
        requires
            0 <= hash * max < 0x1_0000_0000_0000_0000 * max,
    ;
    assert(0 <= (hash * max) / 0x1_0000_0000_0000_0000) by (nonlinear_arith)
        requires
            0 <= hash * max,
    ;
}

/// The choices that a source with this seed and this past makes when it is
/// asked for a choice below each of `ranges` in turn.
pub open spec fn choices_of(seed: u64, written: Seq<Seq<u8>>, ranges: Seq<usize>) -> Seq<int>
    decreases ranges.len(),
{
    if ranges.len() == 0 {
        Seq::empty()
    } else {
        seq![choice_of(seed, written, ranges[0])] + choices_of(
            seed,
            fed(seed, written),
            ranges.skip(1),
        )
    }
}

/// Every choice lies in the range that was asked for.
pub proof fn lemma_choices_in_range(seed: u64, written: Seq<Seq<u8>>, ranges: Seq<usize>)
    requires
        forall|i: int| 0 <= i < ranges.len() ==> ranges[i] > 0,
    ensures
        choices_of(seed, written, ranges).len() == ranges.len(),
        forall|i: int|
            0 <= i < ranges.len() ==> 0 <= #[trigger] choices_of(seed, written, ranges)[i]
                < ranges[i],
    decreases ranges.len(),
{
    if ranges.len() > 0 {
        lemma_choices_in_range(seed, fed(seed, written), ranges.skip(1));
        lemma_scaled_in_range(DefaultHasher::spec_finish(fed(seed, written)), ranges[0]);
        let rest = choices_of(seed, fed(seed, written), ranges.skip(1));
        let all = choices_of(seed, written, ranges);
        assert forall|i: int| 0 <= i < ranges.len() implies 0 <= #[trigger] all[i] < ranges[i] by {
            if i > 0 {
                assert(all[i] == rest[i - 1]);
                assert(ranges.skip(1)[i - 1] == ranges[i]);
            }
        }
    }
}

/// Two sources with the same seed and the same past make the same choices
/// when they are asked the same questions in the same order, and every
/// choice lies in the range that was asked for.
pub proof fn lemma_same_seed_same_choices(
    first: HashRandom,
    second: HashRandom,
    ranges: Seq<usize>,
)
    requires
        first.seed() == second.seed(),
        first.written() == second.written(),
        forall|i: int| 0 <= i < ranges.len() ==> ranges[i] > 0,
    ensures
        choices_of(first.seed(), first.written(), ranges) == choices_of(
            second.seed(),
            second.written(),
            ranges,
        ),
        choices_of(first.seed(), first.written(), ranges).len() == ranges.len(),
        forall|i: int|
            0 <= i < ranges.len() ==> 0 <= #[trigger] choices_of(
                first.seed(),
                first.written(),
                ranges,
            )[i] < ranges[i],
{
    lemma_choices_in_range(first.seed(), first.written(), ranges);
}

/// Two sources with the same seed and the same past bring solving from the
/// same standing to the same end, and are left with the same memory.
pub proof fn lemma_same_seed_same_outcome(
    standing: Standing,
    now: u64,
    first: HashRandom,
    second: HashRandom,
)
    requires
        first.seed() == second.seed(),
        first.written() == second.written(),
    ensures
        HashRandom::deterministic(),
        foreseen_run::<HashRandom>(standing, now, first.memory()) == foreseen_run::<HashRandom>(
            standing,
            now,
            second.memory(),
        ),
{
}

/// What a hash source remembers: its seed and what its hasher has been
/// fed.
pub struct HashMemory {
    pub seed: u64,
    pub written: Seq<Seq<u8>>,
}

/// A source of choices that depend on nothing but a seed and the choices
/// asked before.
pub struct HashRandom {
    seed: u64,
    hasher: DefaultHasher,
    drawn: Ghost<Seq<usize>>,
}

impl HashRandom {
    pub closed spec fn seed(&self) -> u64 {
        self.seed
    }

    /// What the hasher inside has been fed so far.
    pub closed spec fn written(&self) -> Seq<Seq<u8>> {
        self.hasher@
    }

    /// A source with the given seed that has not been asked yet.
    pub fn new(seed: u64) -> (source: Self)
        ensures
            source.seed() == seed,
            source.written() == Seq::<Seq<u8>>::empty(),
            source.drawn() == Seq::<usize>::empty(),
    {
        Self { seed, hasher: DefaultHasher::new(), drawn: Ghost(Seq::empty()) }
    }
}

impl SolverRandomState for HashRandom {
    type Memory = HashMemory;

    closed spec fn drawn(&self) -> Seq<usize> {
        self.drawn@
    }

    open spec fn memory(&self) -> HashMemory {
        HashMemory { seed: self.seed(), written: self.written() }
    }

    open spec fn deterministic() -> bool {
        true
    }

    open spec fn foreseen(memory: HashMemory, max: usize) -> (usize, HashMemory) {
        (
            choice_of(memory.seed, memory.written, max) as usize,
            HashMemory { seed: memory.seed, written: fed(memory.seed, memory.written) },
        )
    }

    /// Feeds the hasher the seed mixed with its hash so far, and brings
    /// the new hash into the range below `max`.
    fn next_in_range(&mut self, max: usize) -> (index: usize)
        ensures
            index == choice_of(old(self).seed(), old(self).written(), max),
            final(self).seed() == old(self).seed(),
            final(self).written() == fed(old(self).seed(), old(self).written()),
    {
        let mixed: u64 = self.seed ^ self.hasher.finish();
        let bytes = u64_to_le_bytes(mixed);
        self.hasher.write(bytes.as_slice());
        let hash: u64 = self.hasher.finish();
        proof {
            lemma_scaled_in_range(hash, max);
            assert(hash * max <= u128::MAX) by (nonlinear_arith)
                requires
                    hash <= 0xffff_ffff_ffff_ffff,
                    max <= 0xffff_ffff_ffff_ffff,
            ;
        }
        let wide: u128 = (hash as u128) * (max as u128);
        assert(wide >> 64 == wide / 0x1_0000_0000_0000_0000) by (bit_vector);
        let index: usize = (wide >> 64) as usize;
        self.drawn = Ghost(self.drawn@.push(index));
        index
    }
}

} // verus!
