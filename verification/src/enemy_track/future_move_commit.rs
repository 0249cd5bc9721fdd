use vstd::prelude::*;

verus! {

use crate::enemy_track::complement_attack_request::follows;
use crate::enemy_track::complement_attack_request::request_offset::RequestOffset;
use crate::enemy_track::complement_attack_request::ComplementAttackRequest;
use crate::enemy_track::EnemyTrack;

/// One attack of a track, scheduled to start at an absolute frame.
#[derive(Debug)]
pub struct FutureMoveCommit {
    pub start_frame: u64,
    pub move_index: usize,
}

impl FutureMoveCommit {
    /// The commit as given. Whether a track takes it is settled when it
    /// is committed.
    pub fn new(attack_index: usize, start_frame: u64) -> (commit: Self)
        ensures
            commit == (FutureMoveCommit { start_frame, move_index: attack_index }),
    {
        Self { start_frame, move_index: attack_index }
    }

    /// The commit, unless it would start before `first_actionable`.
    pub fn try_create(attack_index: usize, start_frame: u64, first_actionable: u64) -> (made:
        Option<Self>)
        ensures
            made == if start_frame >= first_actionable {
                Some(FutureMoveCommit { start_frame, move_index: attack_index })
            } else {
                None
            },
    {
        if start_frame < first_actionable {
            return None;
        }
        Some(Self::new(attack_index, start_frame))
    }

    pub fn get_start_frame(&self) -> (start: u64)
        ensures
            start == self.start_frame,
    {
        self.start_frame
    }

    pub fn get_index(&self) -> (index: usize)
        ensures
            index == self.move_index,
    {
        self.move_index
    }

    /// The frames at which the committed attack takes effect, in order.
    pub fn get_active_frames(&self, parent_track: &EnemyTrack) -> (frames: Vec<u64>)
        requires
            parent_track.wf(),
            parent_track@.fits(*self),
        ensures
            frames@ == parent_track@.effect_frames_of(*self),
    {
        proof {
            parent_track@.lemma_fits(*self);
        }
        parent_track.get_attack(self.move_index).get_active_frames(self.start_frame)
    }

    /// The frames at which the committed attack asks for an effect of
    /// another track, in order.
    pub fn get_request_frames(&self, parent_track: &EnemyTrack) -> (frames: Vec<u64>)
        requires
            parent_track.wf(),
            parent_track@.fits(*self),
        ensures
            frames@ == parent_track@.demand_frames_of(*self),
    {
        proof {
            parent_track@.lemma_fits(*self);
        }
        crate::attack::shift_all(
            parent_track.get_attack(self.move_index).active_request_frames(),
            self.start_frame,
        )
    }

    /// The duration of the committed attack.
    pub fn get_full_duration(&self, parent_track: &EnemyTrack) -> (duration: u64)
        requires
            self.move_index < parent_track@.attacks.len(),
        ensures
            duration == parent_track@.attacks[self.move_index as int].duration(),
    {
        parent_track.get_attack(self.move_index).get_full_duration()
    }

    /// The first frame at which the committed attack is over.
    pub fn get_end_frame(&self, parent_track: &EnemyTrack) -> (end: u64)
        requires
            parent_track@.fits(*self),
        ensures
            end == parent_track@.end_frame_of(*self),
    {
        self.get_full_duration(parent_track) + self.start_frame
    }

    /// Whether the effects of the committed attack that come after its
    /// first are met by `request`, when the first lies on the frame at
    /// `offset`. Each of them that comes before the horizon must land on an
    /// unclaimed frame after `offset`, in order.
    pub fn can_meet_request_followup(
        &self,
        parent_track: &EnemyTrack,
        request: &ComplementAttackRequest,
        offset: &RequestOffset,
    ) -> (met: bool)
        requires
            parent_track.wf(),
            parent_track@.fits(*self),
            request.wf(),
        ensures
            met == request@.meets_followup(offset@, parent_track@.effect_frames_of(*self)),
    {
        let pool = request.iter_skip_start(offset);
        let effects = self.get_active_frames(parent_track);
        let horizon: u64 = request.claim_end_time();
        if effects.len() <= 1 {
            return true;
        }
        let ghost goal = request@.meets_followup(offset@, parent_track@.effect_frames_of(*self));
        let mut k: usize = 0;
        let mut j: usize = 1;
        assert(pool@.skip(0) =~= pool@);
        while j < effects.len()
            invariant
                1 <= j <= effects@.len(),
                k <= pool@.len(),
                goal == request@.meets_followup(offset@, parent_track@.effect_frames_of(*self)),
                follows(pool@.skip(k as int), effects@.skip(j as int), horizon) == goal,
            decreases effects@.len() - j,
        {
            let active: u64 = effects[j];
            if active >= horizon {
                return true;
            }
            while k < pool.len() && pool[k] < active
                invariant
                    k <= pool@.len(),
                    j < effects@.len(),
                    active == effects@[j as int],
                    active < horizon,
                    follows(pool@.skip(k as int), effects@.skip(j as int), horizon) == goal,
                decreases pool@.len() - k,
            {
                assert(pool@.skip(k as int).skip(1) =~= pool@.skip(k + 1));
                k += 1;
            }
            if k >= pool.len() || pool[k] != active {
                return false;
            }
            assert(pool@.skip(k as int).skip(1) =~= pool@.skip(k + 1));
            assert(effects@.skip(j as int).skip(1) =~= effects@.skip(j + 1));
            k += 1;
            j += 1;
        }
        true
    }
}

} // verus!
