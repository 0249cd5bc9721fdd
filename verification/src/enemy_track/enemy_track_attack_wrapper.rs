use vstd::prelude::*;

verus! {

use crate::attack::Attack;

/// An attack together with the place it has in its track.
#[derive(Debug)]
pub struct EnemyTrackAttack {
    index: usize,
    attack: Attack,
}

impl EnemyTrackAttack {
    pub closed spec fn index(&self) -> usize {
        self.index
    }

    pub closed spec fn attack(&self) -> Attack {
        self.attack
    }

    pub fn new(attack: Attack, index: usize) -> (wrapped: Self)
        ensures
            wrapped.attack() == attack,
            wrapped.index() == index,
    {
        Self { index, attack }
    }

    pub fn get_attack(&self) -> (attack: &Attack)
        ensures
            *attack == self.attack(),
    {
        &self.attack
    }

    pub fn get_index(&self) -> (index: usize)
        ensures
            index == self.index(),
    {
        self.index
    }

    /// The place of the attack and the start frame that puts its first
    /// effect on `request_frame`, where there is such a start.
    pub fn start_frame_and_index(&self, request_frame: u64, first_actionable: u64) -> (found:
        Option<(usize, u64)>)
        ensures
            found == match self.attack().start_frame_for(request_frame, first_actionable) {
                Some(start) => Some((self.index(), start)),
                None => None,
            },
    {
        match self.attack.get_start_frame(request_frame, first_actionable) {
            Some(start) => Some((self.index, start)),
            None => None,
        }
    }
}

} // verus!
