use vstd::prelude::*;

verus! {

use crate::enemy_track::complement_attack_request::ComplementAttackRequest;

/// Every element is no larger than each element after it.
pub open spec fn is_ascending(s: Seq<u64>) -> bool {
    forall|i: int, j: int| 0 <= i <= j < s.len() ==> s[i] <= s[j]
}

/// What a list of frame offsets must satisfy to belong to an attack of the
/// given duration: ascending order, and every offset inside the attack.
pub open spec fn offsets_valid(duration: u64, s: Seq<u64>) -> bool {
    &&& is_ascending(s)
    &&& forall|i: int| 0 <= i < s.len() ==> s[i] < duration
}

/// The offsets moved to absolute frames by a start frame.
pub open spec fn shifted(offsets: Seq<u64>, start: u64) -> Seq<u64> {
    Seq::new(offsets.len(), |i: int| (offsets[i] + start) as u64)
}

/// No offset leaves the range of a frame counter when moved by `start`.
pub open spec fn shift_fits(offsets: Seq<u64>, start: u64) -> bool {
    forall|i: int| 0 <= i < offsets.len() ==> offsets[i] + start <= u64::MAX
}

/// One schedulable action: how long it lasts, the frames inside it at which
/// it takes effect, and the frames inside it at which it asks other tracks
/// for an effect.
#[derive(Debug)]
pub struct Attack {
    duration: u64,
    active: Vec<u64>,
    active_request_frames: Vec<u64>,
}

/// Whether the offsets are in order and lie inside the duration.
fn check_offsets(duration: u64, offsets: &Vec<u64>) -> (ok: bool)
    ensures
        ok == offsets_valid(duration, offsets@),
{
    let mut i: usize = 0;
    while i < offsets.len()
        invariant
            i <= offsets.len(),
            offsets_valid(duration, offsets@.take(i as int)),
        decreases offsets.len() - i,
    {
        if offsets[i] >= duration {
            return false;
        }
        if i > 0 && offsets[i - 1] > offsets[i] {
            return false;
        }
        proof {
            let before = offsets@.take(i as int);
            let after = offsets@.take(i + 1);
            assert forall|a: int, b: int| 0 <= a <= b < after.len() implies after[a] <= after[b] by {
                if b < i {
                    assert(before[a] <= before[b]);
                } else if a < i {
                    assert(before[a] <= before[i - 1]);
                }
            }
            assert forall|a: int| 0 <= a < after.len() implies after[a] < duration by {
                if a < i {
                    assert(before[a] < duration);
                }
            }
        }
        i += 1;
    }
    assert(offsets@.take(i as int) =~= offsets@);
    true
}

impl Attack {
    pub closed spec fn duration(&self) -> u64 {
        self.duration
    }

    /// Offsets from the start at which the attack takes effect.
    pub closed spec fn effect_offsets(&self) -> Seq<u64> {
        self.active@
    }

    /// Offsets from the start at which the attack asks for an effect of
    /// another track.
    pub closed spec fn demand_offsets(&self) -> Seq<u64> {
        self.active_request_frames@
    }

    /// Both offset lists are ascending and lie inside the attack.
    pub open spec fn wf(&self) -> bool {
        &&& offsets_valid(self.duration(), self.effect_offsets())
        &&& offsets_valid(self.duration(), self.demand_offsets())
    }

    /// The start frame that puts the first effect exactly on
    /// `request_frame`. There is none where the attack has no effect, or
    /// where it would then have to start before `first_actionable`.
    pub open spec fn start_frame_for(&self, request_frame: u64, first_actionable: u64) -> Option<
        u64,
    > {
        if self.effect_offsets().len() > 0 && self.effect_offsets()[0] + first_actionable
            <= request_frame {
            Some((request_frame - self.effect_offsets()[0]) as u64)
        } else {
            None
        }
    }

    /// An attack of the given duration and offsets. There is none where
    /// a list of offsets is out of order or holds an offset that does not
    /// lie inside the duration.
    pub fn new(duration: u64, active: Vec<u64>, request_frames: Vec<u64>) -> (made: Option<Self>)
        ensures
            made.is_some() <==> offsets_valid(duration, active@) && offsets_valid(
                duration,
                request_frames@,
            ),
            made matches Some(a) ==> {
                &&& a.wf()
                &&& a.duration() == duration
                &&& a.effect_offsets() == active@
                &&& a.demand_offsets() == request_frames@
            },
    {
        if !check_offsets(duration, &active) {
            return None;
        }
        if !check_offsets(duration, &request_frames) {
            return None;
        }
        Some(Self { duration, active, active_request_frames: request_frames })
    }

    /// An attack of the given duration and offsets, for a caller who
    /// knows them to be valid.
    pub fn new_expect(duration: u64, active: Vec<u64>, request_frames: Vec<u64>) -> (a: Self)
        requires
            offsets_valid(duration, active@),
            offsets_valid(duration, request_frames@),
        ensures
            a.wf(),
            a.duration() == duration,
            a.effect_offsets() == active@,
            a.demand_offsets() == request_frames@,
    {
        Self { duration, active, active_request_frames: request_frames }
    }

    pub fn get_full_duration(&self) -> (d: u64)
        ensures
            d == self.duration(),
    {
        self.duration
    }

    /// The start frame that puts the first effect exactly on
    /// `request_frame`, unless the attack has no effect or would have to
    /// start before `first_actionable`.
    pub fn get_start_frame(&self, request_frame: u64, first_actionable: u64) -> (start: Option<u64>)
        ensures
            start == self.start_frame_for(request_frame, first_actionable),
    {
        if self.active.len() == 0 {
            return None;
        }
        let first_active: u64 = self.active[0];
        if first_active <= request_frame && first_actionable <= request_frame - first_active {
            Some(request_frame - first_active)
        } else {
            None
        }
    }

    /// The offsets at which the attack asks for an effect of another
    /// track.
    pub fn active_request_frames(&self) -> (frames: &Vec<u64>)
        ensures
            frames@ == self.demand_offsets(),
    {
        &self.active_request_frames
    }

    /// The effect frames of the attack when it starts at `start`, in order.
    pub fn get_active_frames(&self, start: u64) -> (frames: Vec<u64>)
        requires
            shift_fits(self.effect_offsets(), start),
        ensures
            frames@ == shifted(self.effect_offsets(), start),
            self.wf() ==> is_ascending(frames@),
    {
        proof {
            lemma_shifted_ascending(self.effect_offsets(), start);
        }
        shift_all(&self.active, start)
    }

    /// The request that the attack leaves when it starts at `start`: its
    /// demand frames, to be met until the attack is over. There is none
    /// where the attack asks for nothing.
    pub fn to_request(&self, start: u64) -> (made: Option<ComplementAttackRequest>)
        requires
            self.wf(),
            start + self.duration() <= u64::MAX,
        ensures
            made.is_some() <==> self.demand_offsets().len() > 0,
            made matches Some(request) ==> request.wf() && request@
                == ComplementAttackRequest::made_from(
                self.demand_offsets(),
                self.duration(),
                start,
            ),
    {
        ComplementAttackRequest::new(self.active_request_frames.as_slice(), self.duration, start)
    }

    /// Frames between the last effect and the end of the attack, if it has
    /// an effect.
    pub fn get_end_frame(&self) -> (rest: Option<u64>)
        requires
            self.wf(),
        ensures
            rest == if self.effect_offsets().len() > 0 {
                Some((self.duration() - self.effect_offsets().last()) as u64)
            } else {
                None
            },
    {
        let n: usize = self.active.len();
        if n == 0 {
            None
        } else {
            Some(self.duration - self.active[n - 1])
        }
    }

    /// Frames between the last effect and the end of the attack; the whole
    /// duration for an attack without effect.
    pub fn get_cooldown(&self) -> (rest: u64)
        requires
            self.wf(),
        ensures
            rest == if self.effect_offsets().len() > 0 {
                self.duration() - self.effect_offsets().last()
            } else {
                self.duration() as int
            },
    {
        match self.get_end_frame() {
            Some(rest) => rest,
            None => self.duration,
        }
    }
}

/// A start frame found for a target puts the first effect of the attack
/// exactly on the target, and that effect comes no earlier than the floor.
pub proof fn lemma_start_frame_round_trip(attack: Attack, target: u64, floor: u64)
    ensures
        attack.start_frame_for(target, floor) matches Some(start) ==> {
            &&& shifted(attack.effect_offsets(), start)[0] == target
            &&& start + attack.effect_offsets()[0] >= floor
            &&& start >= floor
        },
{
}

/// Offsets in ascending order stay so when they are moved by a start frame
/// that takes none of them out of range.
pub proof fn lemma_shifted_ascending(offsets: Seq<u64>, start: u64)
    requires
        shift_fits(offsets, start),
    ensures
        is_ascending(offsets) ==> is_ascending(shifted(offsets, start)),
{
    if is_ascending(offsets) {
        let moved = shifted(offsets, start);
        assert forall|i: int, j: int| 0 <= i <= j < moved.len() implies moved[i] <= moved[j] by {
            assert(offsets[i] <= offsets[j]);
        }
    }
}

/// Adds `start` to every offset.
pub fn shift_all(offsets: &Vec<u64>, start: u64) -> (frames: Vec<u64>)
    requires
        shift_fits(offsets@, start),
    ensures
        frames@ == shifted(offsets@, start),
{
    let mut frames: Vec<u64> = Vec::new();
    let mut i: usize = 0;
    while i < offsets.len()
        invariant
            i <= offsets.len(),
            shift_fits(offsets@, start),
            frames@ == shifted(offsets@.take(i as int), start),
        decreases offsets.len() - i,
    {
        frames.push(offsets[i] + start);
        i += 1;
        assert(frames@ =~= shifted(offsets@.take(i as int), start));
    }
    assert(offsets@.take(i as int) =~= offsets@);
    frames
}

} // verus!
