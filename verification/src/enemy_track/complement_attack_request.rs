use vstd::prelude::*;

pub mod request_offset;
pub mod request_restore_point;

verus! {

use crate::attack::shift_fits;
use crate::attack::shifted;
use crate::enemy_track::future_move_commit::FutureMoveCommit;
use crate::enemy_track::EnemyTrack;
use self::request_offset::RequestOffset;
use self::request_restore_point::RequestRestorePoint;

/// What a request holds: its demand frames in the order they were added,
/// which of them are claimed, the cursor, and the frame from which on an
/// effect need not be matched.
pub struct RequestView {
    pub frames: Seq<u64>,
    pub claimed: Seq<bool>,
    pub cursor: int,
    pub horizon: u64,
}

impl RequestView {
    /// There is at least one frame, each frame has its flag, and the cursor
    /// points at a frame.
    pub open spec fn wf(self) -> bool {
        &&& self.frames.len() == self.claimed.len()
        &&& 0 <= self.cursor < self.frames.len()
    }

    /// The request with its cursor moved forward to the first unclaimed
    /// frame at or after it, or to the last frame where every such frame
    /// is claimed.
    pub open spec fn advanced(self) -> RequestView {
        RequestView {
            cursor: if self.first_unclaimed_from(self.cursor) < self.frames.len() {
                self.first_unclaimed_from(self.cursor)
            } else {
                self.frames.len() - 1
            },
            ..self
        }
    }

    /// The frame at `offset`, unless it is claimed or there is none.
    pub open spec fn unclaimed_frame_at(self, offset: int) -> Option<u64> {
        if 0 <= offset < self.frames.len() && !self.claimed[offset] {
            Some(self.frames[offset])
        } else {
            None
        }
    }

    /// The least position from `from` on whose frame is unclaimed; the
    /// number of frames if there is none.
    pub open spec fn first_unclaimed_from(self, from: int) -> int
        decreases self.frames.len() - from,
    {
        if from >= self.frames.len() {
            self.frames.len() as int
        } else if from >= 0 && !self.claimed[from] {
            from
        } else {
            self.first_unclaimed_from(from + 1)
        }
    }

    /// The unclaimed frames at the positions from `from` on, in order.
    pub open spec fn unclaimed_from(self, from: int) -> Seq<u64>
        decreases self.frames.len() - from,
    {
        if from >= self.frames.len() {
            Seq::empty()
        } else if from >= 0 && !self.claimed[from] {
            seq![self.frames[from]] + self.unclaimed_from(from + 1)
        } else {
            self.unclaimed_from(from + 1)
        }
    }

    /// The position that follows `offset` in a walk over the unclaimed
    /// frames, if there is one.
    pub open spec fn skip_from(self, offset: int) -> Option<int> {
        if self.first_unclaimed_from(offset + 1) < self.frames.len() {
            Some(self.first_unclaimed_from(offset + 1))
        } else {
            None
        }
    }

    /// Whether an attack with these effect frames, the first of which lies
    /// on the frame at `offset`, is met by the unclaimed frames after
    /// `offset` for the rest of its effects.
    pub open spec fn meets_followup(self, offset: int, effects: Seq<u64>) -> bool {
        effects.len() <= 1 || follows(self.unclaimed_from(offset + 1), effects.skip(1), self.horizon)
    }

    /// The flags after the effect frames before the horizon have been
    /// looked up one after another, each from the place where the one
    /// before it was found, and the flag of each frame that was found has
    /// been set to `flag`.
    pub open spec fn marked_effects(self, from: int, effects: Seq<u64>, flag: bool) -> Seq<bool>
        decreases effects.len(),
    {
        if effects.len() == 0 || effects[0] >= self.horizon {
            self.claimed
        } else {
            let at = first_equal(self.frames, from, effects[0]);
            let marked = if at < self.frames.len() {
                self.claimed.update(at, flag)
            } else {
                self.claimed
            };
            (RequestView { claimed: marked, ..self }).marked_effects(at, effects.skip(1), flag)
        }
    }

    /// The claims after the effect frames of an attack have claimed the
    /// frames they land on, looked up from `from` on.
    pub open spec fn claim_effects(self, from: int, effects: Seq<u64>) -> Seq<bool> {
        self.marked_effects(from, effects, true)
    }

    /// A frame that a committed attack leaves open: one before the horizon
    /// that is a demand frame of that attack itself.
    pub open spec fn kept_open(self, own: Seq<u64>, frame: u64) -> bool {
        frame < self.horizon && own.contains(frame)
    }

    /// The claims after an attack from `start` to `end` has swept the
    /// frames it covers: from the first frame at or after `start` up to
    /// the next frame at or after `end`, every frame is claimed but those
    /// that the attack leaves open.
    pub open spec fn swept(self, start: u64, end: u64, own: Seq<u64>) -> Seq<bool> {
        let lo = first_at_least(self.frames, 0, start);
        let hi = first_at_least(self.frames, lo, end);
        Seq::new(
            self.claimed.len(),
            |i: int|
                if lo <= i < hi && !self.kept_open(own, self.frames[i]) {
                    true
                } else {
                    self.claimed[i]
                },
        )
    }

    /// The request after an attack has been committed against it. `start`
    /// and `end` bound the attack, `effects` are its effect frames and `own`
    /// its demand frames. Effects are claimed, covered frames are swept,
    /// the attack's demand frames at or after the old horizon join the
    /// request unclaimed, and the horizon moves out to `end`.
    pub open spec fn after_commit(self, start: u64, end: u64, effects: Seq<u64>, own: Seq<u64>)
        -> RequestView {
        let marked = RequestView { claimed: self.claim_effects(self.cursor, effects), ..self };
        let added = own.filter(at_or_after(self.horizon));
        RequestView {
            frames: self.frames + added,
            claimed: marked.swept(start, end, own) + Seq::new(added.len(), |i: int| false),
            cursor: self.cursor,
            horizon: if end > self.horizon {
                end
            } else {
                self.horizon
            },
        }
    }
}

/// The least position from `from` on whose frame equals `value`; the number
/// of frames if there is none.
pub open spec fn first_equal(frames: Seq<u64>, from: int, value: u64) -> int
    decreases frames.len() - from,
{
    if from >= frames.len() {
        frames.len() as int
    } else if from >= 0 && frames[from] == value {
        from
    } else {
        first_equal(frames, from + 1, value)
    }
}

/// The least position from `from` on whose frame is `bound` or later; the
/// number of frames if there is none.
pub open spec fn first_at_least(frames: Seq<u64>, from: int, bound: u64) -> int
    decreases frames.len() - from,
{
    if from >= frames.len() {
        frames.len() as int
    } else if from >= 0 && frames[from] >= bound {
        from
    } else {
        first_at_least(frames, from + 1, bound)
    }
}

/// The place to which a cursor goes back from `from`: in front of the
/// unclaimed frames that lie directly before it.
pub open spec fn back_over_unclaimed(claimed: Seq<bool>, from: int) -> int
    decreases from,
{
    if from <= 0 {
        0
    } else if claimed[from - 1] {
        from
    } else {
        back_over_unclaimed(claimed, from - 1)
    }
}

/// Whether the effect frames can be laid on the frames of `pool` in order.
/// An effect at or after the horizon ends the matter well. Any other
/// effect must equal a frame of the pool; frames before that one are
/// passed over, and a later frame met first ends the matter badly.
pub open spec fn follows(pool: Seq<u64>, effects: Seq<u64>, horizon: u64) -> bool
    decreases pool.len() + effects.len(),
{
    if effects.len() == 0 {
        true
    } else if effects[0] >= horizon {
        true
    } else if pool.len() == 0 {
        false
    } else if pool[0] > effects[0] {
        false
    } else if pool[0] == effects[0] {
        follows(pool.skip(1), effects.skip(1), horizon)
    } else {
        follows(pool.skip(1), effects, horizon)
    }
}

/// The test that picks the frames at or after a horizon.
pub open spec fn at_or_after(horizon: u64) -> spec_fn(u64) -> bool {
    |frame: u64| frame >= horizon
}

/// `first_equal` names the least position from `from` on whose frame equals
/// `value`, and the number of frames exactly when there is none.
pub proof fn lemma_first_equal(frames: Seq<u64>, from: int, value: u64)
    requires
        0 <= from <= frames.len(),
    ensures
        from <= first_equal(frames, from, value) <= frames.len(),
        first_equal(frames, from, value) < frames.len() ==> frames[first_equal(
            frames,
            from,
            value,
        )] == value,
        forall|i: int| from <= i < first_equal(frames, from, value) ==> frames[i] != value,
    decreases frames.len() - from,
{
    if from < frames.len() && frames[from] != value {
        lemma_first_equal(frames, from + 1, value);
    }
}

/// Marking effect frames adds and removes no flag.
pub proof fn lemma_marked_effects_len(
    view: RequestView,
    from: int,
    effects: Seq<u64>,
    flag: bool,
)
    requires
        view.frames.len() == view.claimed.len(),
        0 <= from <= view.frames.len(),
    ensures
        view.marked_effects(from, effects, flag).len() == view.claimed.len(),
    decreases effects.len(),
{
    if effects.len() > 0 && effects[0] < view.horizon {
        let at = first_equal(view.frames, from, effects[0]);
        lemma_first_equal(view.frames, from, effects[0]);
        let marked = if at < view.frames.len() {
            view.claimed.update(at, flag)
        } else {
            view.claimed
        };
        lemma_marked_effects_len(
            RequestView { claimed: marked, ..view },
            at,
            effects.skip(1),
            flag,
        );
    }
}

/// A request stays well formed when an attack is committed against it and
/// when its cursor moves on; it loses no frame, and its horizon does not
/// move back.
pub proof fn lemma_after_commit_wf(
    view: RequestView,
    start: u64,
    end: u64,
    effects: Seq<u64>,
    own: Seq<u64>,
)
    requires
        view.wf(),
    ensures
        view.after_commit(start, end, effects, own).wf(),
        view.after_commit(start, end, effects, own).advanced().wf(),
        view.after_commit(start, end, effects, own).frames.len() >= view.frames.len(),
        view.after_commit(start, end, effects, own).horizon >= view.horizon,
{
    lemma_marked_effects_len(view, view.cursor, effects, true);
    let after = view.after_commit(start, end, effects, own);
    lemma_first_unclaimed(after, after.cursor);
}

/// `first_unclaimed_from` names the least unclaimed position at or after
/// `from`, and the number of frames exactly when every frame there is
/// claimed.
pub proof fn lemma_first_unclaimed(view: RequestView, from: int)
    requires
        0 <= from,
        view.frames.len() == view.claimed.len(),
    ensures
        from <= view.first_unclaimed_from(from) || view.first_unclaimed_from(from)
            == view.frames.len(),
        view.first_unclaimed_from(from) <= view.frames.len(),
        view.first_unclaimed_from(from) < view.frames.len() ==> !view.claimed[view.first_unclaimed_from(
            from,
        )],
        forall|i: int| from <= i < view.first_unclaimed_from(from) ==> view.claimed[i],
    decreases view.frames.len() - from,
{
    if from < view.frames.len() && view.claimed[from] {
        lemma_first_unclaimed(view, from + 1);
    }
}

/// The least position from `from` on whose frame equals `value`.
fn find_equal(frames: &Vec<u64>, from: usize, value: u64) -> (at: usize)
    requires
        from <= frames@.len(),
    ensures
        at == first_equal(frames@, from as int, value),
        from <= at <= frames@.len(),
{
    let mut at: usize = from;
    while at < frames.len() && frames[at] != value
        invariant
            from <= at <= frames@.len(),
            first_equal(frames@, at as int, value) == first_equal(frames@, from as int, value),
        decreases frames@.len() - at,
    {
        at += 1;
    }
    at
}

/// The least position from `from` on whose frame is `bound` or later.
fn find_at_least(frames: &Vec<u64>, from: usize, bound: u64) -> (at: usize)
    requires
        from <= frames@.len(),
    ensures
        at == first_at_least(frames@, from as int, bound),
        from <= at <= frames@.len(),
{
    let mut at: usize = from;
    while at < frames.len() && frames[at] < bound
        invariant
            from <= at <= frames@.len(),
            first_at_least(frames@, at as int, bound) == first_at_least(
                frames@,
                from as int,
                bound,
            ),
        decreases frames@.len() - at,
    {
        at += 1;
    }
    at
}

/// Whether `value` is among the frames.
fn holds_frame(frames: &Vec<u64>, value: u64) -> (found: bool)
    ensures
        found == frames@.contains(value),
{
    let mut i: usize = 0;
    while i < frames.len()
        invariant
            i <= frames@.len(),
            forall|k: int| 0 <= k < i ==> frames@[k] != value,
        decreases frames@.len() - i,
    {
        if frames[i] == value {
            return true;
        }
        i += 1;
    }
    false
}

/// The demand frames that one committed attack leaves for the other tracks
/// to meet. Frames are only ever added and marked as claimed, so a position
/// keeps its meaning for as long as the request lives.
#[derive(Debug)]
pub struct ComplementAttackRequest {
    request_frames: Vec<u64>,
    taken_requests: Vec<bool>,
    request_offset: usize,
    request_source_claim_end: u64,
}

impl View for ComplementAttackRequest {
    type V = RequestView;

    closed spec fn view(&self) -> RequestView {
        RequestView {
            frames: self.request_frames@,
            claimed: self.taken_requests@,
            cursor: self.request_offset as int,
            horizon: self.request_source_claim_end,
        }
    }
}

impl ComplementAttackRequest {
    /// There is at least one frame, each frame has its flag, and the cursor
    /// points at a frame.
    pub open spec fn wf(&self) -> bool {
        self@.wf()
    }

    /// The request that `new` makes of offsets that are not empty.
    pub open spec fn made_from(offsets: Seq<u64>, claim_end: u64, start_frame: u64) -> RequestView {
        RequestView {
            frames: shifted(offsets, start_frame),
            claimed: Seq::new(offsets.len(), |i: int| false),
            cursor: 0,
            horizon: (claim_end + start_frame) as u64,
        }
    }

    /// A request for the offsets `vec` of an attack that starts at
    /// `start_frame` and lasts `request_source_claim_end` frames. There is
    /// none where the attack asks for nothing.
    pub fn new(vec: &[u64], request_source_claim_end: u64, start_frame: u64) -> (made: Option<Self>)
        requires
            shift_fits(vec@, start_frame),
            request_source_claim_end + start_frame <= u64::MAX,
        ensures
            made.is_some() <==> vec@.len() > 0,
            made matches Some(request) ==> request.wf() && request@ == Self::made_from(
                vec@,
                request_source_claim_end,
                start_frame,
            ),
    {
        if vec.len() == 0 {
            return None;
        }
        let mut request_frames: Vec<u64> = Vec::new();
        let mut taken_requests: Vec<bool> = Vec::new();
        let mut i: usize = 0;
        while i < vec.len()
            invariant
                i <= vec.len(),
                shift_fits(vec@, start_frame),
                request_frames@ == shifted(vec@.take(i as int), start_frame),
                taken_requests@ == Seq::new(i as nat, |k: int| false),
            decreases vec.len() - i,
        {
            request_frames.push(vec[i] + start_frame);
            taken_requests.push(false);
            i += 1;
            assert(request_frames@ =~= shifted(vec@.take(i as int), start_frame));
            assert(taken_requests@ =~= Seq::new(i as nat, |k: int| false));
        }
        assert(vec@.take(i as int) =~= vec@);
        Some(
            Self {
                request_frames,
                taken_requests,
                request_offset: 0,
                request_source_claim_end: request_source_claim_end + start_frame,
            },
        )
    }

    /// The frame at `request_state`, unless it is claimed or there is none.
    pub fn first_req_frame(&self, request_state: &RequestOffset) -> (frame: Option<u64>)
        requires
            self.wf(),
        ensures
            frame == self@.unclaimed_frame_at(request_state@),
    {
        let at: usize = request_state.get();
        if at >= self.request_frames.len() || self.taken_requests[at] {
            return None;
        }
        Some(self.request_frames[at])
    }

    /// The unclaimed frames after `request_state`, in order.
    pub fn iter_skip_start(&self, request_state: &RequestOffset) -> (frames: Vec<u64>)
        requires
            self.wf(),
        ensures
            frames@ == self@.unclaimed_from(request_state@ + 1),
    {
        let mut frames: Vec<u64> = Vec::new();
        let at: usize = request_state.get();
        if at >= self.request_frames.len() {
            return frames;
        }
        let mut i: usize = at + 1;
        while i < self.request_frames.len()
            invariant
                self.wf(),
                at < i <= self.request_frames.len(),
                frames@ + self@.unclaimed_from(i as int) == self@.unclaimed_from(at + 1),
            decreases self.request_frames.len() - i,
        {
            if !self.taken_requests[i] {
                frames.push(self.request_frames[i]);
            }
            assert(frames@ + self@.unclaimed_from(i + 1) =~= self@.unclaimed_from(at + 1));
            i += 1;
        }
        assert(frames@ + self@.unclaimed_from(i as int) =~= frames@);
        frames
    }

    /// The frame from which on an effect need not be matched.
    pub fn claim_end_time(&self) -> (horizon: u64)
        ensures
            horizon == self@.horizon,
    {
        self.request_source_claim_end
    }

    /// The next position after `request_state` whose frame is unclaimed.
    pub fn skip(&self, request_state: RequestOffset) -> (next: Option<RequestOffset>)
        requires
            self.wf(),
        ensures
            next.is_some() == self@.skip_from(request_state@).is_some(),
            next matches Some(offset) ==> Some(offset@) == self@.skip_from(request_state@),
    {
        let at: usize = request_state.get();
        if at >= self.request_frames.len() {
            return None;
        }
        self.next_unclaimed(RequestOffset::new(at + 1))
    }

    /// The first position from `request_state` on whose frame is unclaimed.
    pub fn next_unclaimed(&self, request_state: RequestOffset) -> (next: Option<RequestOffset>)
        requires
            self.wf(),
        ensures
            next.is_some() == (self@.first_unclaimed_from(request_state@) < self@.frames.len()),
            next matches Some(offset) ==> offset@ == self@.first_unclaimed_from(request_state@),
    {
        let mut at: usize = request_state.get();
        while at < self.request_frames.len()
            invariant
                self.wf(),
                self@.first_unclaimed_from(at as int) == self@.first_unclaimed_from(
                    request_state@,
                ),
            decreases self.request_frames.len() - at,
        {
            if !self.taken_requests[at] {
                return Some(RequestOffset::new(at));
            }
            at += 1;
        }
        None
    }

    /// Looks up the effect frames before the horizon one after another and
    /// sets the flag of each frame that is found.
    fn mark_effects(&mut self, from: usize, effects: &Vec<u64>, flag: bool)
        requires
            old(self).wf(),
            from <= old(self)@.frames.len(),
        ensures
            final(self)@ == (RequestView {
                claimed: old(self)@.marked_effects(from as int, effects@, flag),
                ..old(self)@
            }),
            final(self).wf(),
    {
        let mut index: usize = from;
        let mut j: usize = 0;
        assert(effects@.skip(0) =~= effects@);
        while j < effects.len()
            invariant
                self.wf(),
                j <= effects@.len(),
                index <= self@.frames.len(),
                self@.frames == old(self)@.frames,
                self@.cursor == old(self)@.cursor,
                self@.horizon == old(self)@.horizon,
                self@.marked_effects(index as int, effects@.skip(j as int), flag) == old(
                    self,
                )@.marked_effects(from as int, effects@, flag),
            decreases effects@.len() - j,
        {
            let active: u64 = effects[j];
            if active >= self.request_source_claim_end {
                return ;
            }
            assert(effects@.skip(j as int).skip(1) =~= effects@.skip(j + 1));
            index = find_equal(&self.request_frames, index, active);
            if index < self.request_frames.len() {
                self.taken_requests.set(index, flag);
            }
            j += 1;
        }
    }

    /// Claims the frames that an attack from `start` to `end` covers, but
    /// those that it leaves open.
    fn sweep(&mut self, start: u64, end: u64, own: &Vec<u64>)
        requires
            old(self).wf(),
        ensures
            final(self)@ == (RequestView {
                claimed: old(self)@.swept(start, end, own@),
                ..old(self)@
            }),
            final(self).wf(),
    {
        let lo: usize = find_at_least(&self.request_frames, 0, start);
        let mut index: usize = lo;
        while index < self.request_frames.len() && self.request_frames[index] < end
            invariant
                self.wf(),
                lo <= index <= self@.frames.len(),
                self@.frames == old(self)@.frames,
                self@.cursor == old(self)@.cursor,
                self@.horizon == old(self)@.horizon,
                self@.claimed.len() == old(self)@.claimed.len(),
                first_at_least(self@.frames, index as int, end) == first_at_least(
                    self@.frames,
                    lo as int,
                    end,
                ),
                forall|i: int|
                    0 <= i < self@.claimed.len() ==> self@.claimed[i] == if lo <= i < index && !old(
                        self,
                    )@.kept_open(own@, self@.frames[i]) {
                        true
                    } else {
                        old(self)@.claimed[i]
                    },
            decreases self@.frames.len() - index,
        {
            let frame: u64 = self.request_frames[index];
            if !(frame < self.request_source_claim_end && holds_frame(own, frame)) {
                self.taken_requests.set(index, true);
            }
            index += 1;
        }
        assert(self@.claimed =~= old(self)@.swept(start, end, own@));
    }

    /// Adds as unclaimed the frames of `own` at or after the horizon.
    fn append_open(&mut self, own: &Vec<u64>)
        requires
            old(self).wf(),
        ensures
            final(self)@ == (RequestView {
                frames: old(self)@.frames + own@.filter(at_or_after(old(self)@.horizon)),
                claimed: old(self)@.claimed + Seq::new(
                    own@.filter(at_or_after(old(self)@.horizon)).len(),
                    |i: int| false,
                ),
                ..old(self)@
            }),
            final(self).wf(),
    {
        let ghost open = at_or_after(self@.horizon);
        let mut j: usize = 0;
        assert(own@.take(0).filter(open) =~= Seq::<u64>::empty()) by {
            reveal(Seq::filter);
        }
        while j < own.len()
            invariant
                j <= own@.len(),
                open == at_or_after(old(self)@.horizon),
                self@.cursor == old(self)@.cursor,
                self@.horizon == old(self)@.horizon,
                0 <= self@.cursor < old(self)@.frames.len(),
                old(self)@.frames.len() == old(self)@.claimed.len(),
                self@.frames == old(self)@.frames + own@.take(j as int).filter(open),
                self@.claimed == old(self)@.claimed + Seq::new(
                    own@.take(j as int).filter(open).len(),
                    |i: int| false,
                ),
            decreases own@.len() - j,
        {
            let frame: u64 = own[j];
            proof {
                assert(own@.take(j + 1) =~= own@.take(j as int).push(frame));
                own@.take(j as int).lemma_filter_push(frame, open);
            }
            if frame >= self.request_source_claim_end {
                self.request_frames.push(frame);
                self.taken_requests.push(false);
            }
            j += 1;
            assert(self@.frames =~= old(self)@.frames + own@.take(j as int).filter(open));
            assert(self@.claimed =~= old(self)@.claimed + Seq::new(
                own@.take(j as int).filter(open).len(),
                |i: int| false,
            ));
        }
        assert(own@.take(j as int) =~= own@);
    }

    /// Takes account of an attack that `track` commits to: its effect
    /// frames before the horizon claim the frames they land on, searched
    /// from the cursor on; the frames that the attack covers are claimed
    /// unless they are demand frames of the attack itself; its demand
    /// frames at or after the horizon are added unclaimed; and the horizon
    /// moves out to the end of the attack.
    pub fn apply_commit_claim(&mut self, track: &EnemyTrack, commit: &FutureMoveCommit)
        requires
            old(self).wf(),
            track.wf(),
            track@.fits(*commit),
        ensures
            final(self).wf(),
            final(self)@ == old(self)@.after_commit(
                commit.start_frame,
                track@.end_frame_of(*commit),
                track@.effect_frames_of(*commit),
                track@.demand_frames_of(*commit),
            ),
    {
        let effects = commit.get_active_frames(track);
        let own = commit.get_request_frames(track);
        let end: u64 = commit.get_end_frame(track);
        self.mark_effects(self.request_offset, &effects, true);
        self.sweep(commit.get_start_frame(), end, &own);
        self.append_open(&own);
        if end > self.request_source_claim_end {
            self.request_source_claim_end = end;
        }
    }

    /// Takes back what the effects of an attack have claimed: each effect
    /// frame before the horizon is looked up from the first frame on, and
    /// the frame it lands on is open again. What else the attack changed
    /// when it was committed stays.
    pub fn release_commit_claim(&mut self, track: &EnemyTrack, commit: &FutureMoveCommit)
        requires
            old(self).wf(),
            track.wf(),
            track@.fits(*commit),
        ensures
            final(self).wf(),
            final(self)@ == (RequestView {
                claimed: old(self)@.marked_effects(0, track@.effect_frames_of(*commit), false),
                ..old(self)@
            }),
    {
        let effects = commit.get_active_frames(track);
        self.mark_effects(0, &effects, false);
    }

    /// Moves the cursor back over the unclaimed frames that lie directly
    /// before it.
    pub fn prev_unclaimed(&mut self)
        requires
            old(self).wf(),
        ensures
            final(self).wf(),
            final(self)@ == (RequestView {
                cursor: back_over_unclaimed(old(self)@.claimed, old(self)@.cursor),
                ..old(self)@
            }),
    {
        while self.request_offset > 0 && !self.taken_requests[self.request_offset - 1]
            invariant
                self.wf(),
                self@.frames == old(self)@.frames,
                self@.claimed == old(self)@.claimed,
                self@.horizon == old(self)@.horizon,
                self@.cursor <= old(self)@.cursor,
                back_over_unclaimed(self@.claimed, self@.cursor) == back_over_unclaimed(
                    old(self)@.claimed,
                    old(self)@.cursor,
                ),
            decreases self@.cursor,
        {
            self.request_offset -= 1;
        }
    }

    /// The cursor as a position to probe from.
    pub fn current_offset(&self) -> (offset: RequestOffset)
        ensures
            offset@ == self@.cursor,
    {
        RequestOffset::new(self.request_offset)
    }

    /// The frame under the cursor.
    pub fn start_frame(&self) -> (frame: u64)
        requires
            self.wf(),
        ensures
            frame == self@.frames[self@.cursor],
    {
        self.request_frames[self.request_offset]
    }

    /// Moves the cursor forward to the first unclaimed frame at or after
    /// it. Where every such frame is claimed the cursor goes to the last
    /// frame and the answer is `false`.
    pub fn advance_to_unclaimed(&mut self) -> (found: bool)
        requires
            old(self).wf(),
        ensures
            final(self).wf(),
            final(self)@ == old(self)@.advanced(),
            found == (old(self)@.first_unclaimed_from(old(self)@.cursor) < old(self)@.frames.len()),
    {
        match self.next_unclaimed(RequestOffset::new(self.request_offset)) {
            Some(offset) => {
                proof {
                    lemma_first_unclaimed(self@, self@.cursor);
                }
                self.request_offset = offset.get();
                true
            },
            None => {
                self.request_offset = self.request_frames.len() - 1;
                false
            },
        }
    }

    /// Remembers the cursor.
    pub fn get_restore_point(&self) -> (mark: RequestRestorePoint)
        ensures
            mark@ == self@.cursor,
    {
        RequestRestorePoint::new(self.request_offset)
    }

    /// Sends the cursor back to a remembered place; claims and horizon stay.
    pub fn restore(&mut self, mark: RequestRestorePoint)
        requires
            old(self).wf(),
            mark@ < old(self)@.frames.len(),
        ensures
            final(self).wf(),
            final(self)@ == (RequestView { cursor: mark@, ..old(self)@ }),
    {
        self.request_offset = mark.get();
    }

    /// Marks the frame at `index` as claimed or as open again.
    pub fn set_claimed(&mut self, index: usize, claimed: bool)
        requires
            old(self).wf(),
            index < old(self)@.frames.len(),
        ensures
            final(self).wf(),
            final(self)@ == (RequestView {
                claimed: old(self)@.claimed.update(index as int, claimed),
                ..old(self)@
            }),
    {
        self.taken_requests.set(index, claimed);
    }
}

} // verus!
