use vstd::prelude::*;

verus! {

use crate::solver::SolverRandomState;

/// `godot::global::randi_range`: a random whole number that the engine
/// picks between `from` and `to`, both included. The engine documents this
/// for numbers of 32 bits, so no other are passed. It answers only inside
/// a running engine.
#[verifier::external_body]
fn randi_range(from: i64, to: i64) -> (picked: i64)
    requires
        -0x8000_0000 <= from <= to <= 0x7fff_ffff,
    ensures
        from <= picked <= to,
{
    godot::global::randi_range(from, to)
}

/// The engine's own source of random numbers.
pub struct GodotRandom {
    drawn: Ghost<Seq<usize>>,
}

impl GodotRandom {
    /// A source that has not been asked yet.
    pub fn new() -> (source: Self)
        ensures
            source.drawn() == Seq::<usize>::empty(),
    {
        Self { drawn: Ghost(Seq::empty()) }
    }
}

impl SolverRandomState for GodotRandom {
    type Memory = ();

    closed spec fn drawn(&self) -> Seq<usize> {
        self.drawn@
    }

    open spec fn memory(&self) -> () {
        ()
    }

    /// The engine's choices are a matter of chance.
    open spec fn deterministic() -> bool {
        false
    }

    open spec fn foreseen(memory: (), max: usize) -> (usize, ()) {
        (0, ())
    }

    /// Picks an index below `max`, and none above the largest number of 32
    /// bits, which is as far as the engine's numbers reach.
    fn next_in_range(&mut self, max: usize) -> (index: usize)
        ensures
            index <= 0x7fff_ffff,
    {
        let top: i64 = if max > 0x7fff_ffff {
            0x7fff_ffff
        } else {
            max as i64 - 1
        };
        let index: usize = randi_range(0, top) as usize;
        self.drawn = Ghost(self.drawn@.push(index));
        index
    }
}

} // verus!
