use vstd::prelude::*;

pub mod complement_attack_request;
pub mod enemy_track_attack_wrapper;
pub mod future_move_commit;

verus! {

use crate::attack::shift_fits;
use crate::attack::shifted;
use crate::attack::Attack;
use self::complement_attack_request::request_offset::RequestOffset;
use self::complement_attack_request::ComplementAttackRequest;
use self::complement_attack_request::RequestView;
use self::enemy_track_attack_wrapper::EnemyTrackAttack;
use self::future_move_commit::FutureMoveCommit;

/// One timeline: the attacks it can choose from, which of them are
/// enabled, and the attacks it has already committed to, oldest first.
#[derive(Debug)]
pub struct EnemyTrack {
    attacks: Vec<EnemyTrackAttack>,
    attacks_validitiy: Vec<bool>,
    future_stack: Vec<FutureMoveCommit>,
}

/// What a track holds: its attacks by index, for each attack whether it
/// may be chosen, and its commitments, oldest first.
pub struct TrackView {
    pub attacks: Seq<Attack>,
    pub validity: Seq<bool>,
    pub stack: Seq<FutureMoveCommit>,
}

impl TrackView {
    /// The commit names an attack of this track and ends inside the range
    /// of a frame counter.
    pub open spec fn fits(self, commit: FutureMoveCommit) -> bool {
        &&& commit.move_index < self.attacks.len()
        &&& commit.start_frame + self.attacks[commit.move_index as int].duration() <= u64::MAX
    }

    /// The first frame at which the committed attack is over.
    pub open spec fn end_frame_of(self, commit: FutureMoveCommit) -> u64 {
        (commit.start_frame + self.attacks[commit.move_index as int].duration()) as u64
    }

    /// The frames at which the committed attack takes effect, in order.
    pub open spec fn effect_frames_of(self, commit: FutureMoveCommit) -> Seq<u64> {
        shifted(self.attacks[commit.move_index as int].effect_offsets(), commit.start_frame)
    }

    /// The frames at which the committed attack asks for an effect of
    /// another track, in order.
    pub open spec fn demand_frames_of(self, commit: FutureMoveCommit) -> Seq<u64> {
        shifted(self.attacks[commit.move_index as int].demand_offsets(), commit.start_frame)
    }

    /// The earliest frame at which this stack of commitments leaves room
    /// for another attack.
    pub open spec fn actionable_after(self, stack: Seq<FutureMoveCommit>, time_now: u64) -> u64 {
        if stack.len() > 0 {
            self.end_frame_of(stack.last())
        } else {
            time_now
        }
    }

    /// The earliest frame at which the track can start another attack.
    pub open spec fn first_actionable(self, time_now: u64) -> u64 {
        self.actionable_after(self.stack, time_now)
    }

    /// The commit may join the stack: it fits, and it starts no earlier
    /// than the newest commitment ends.
    pub open spec fn admits(self, commit: FutureMoveCommit) -> bool {
        &&& self.fits(commit)
        &&& self.stack.len() > 0 ==> self.end_frame_of(self.stack.last()) <= commit.start_frame
    }

    /// What attack `i` offers for the frame at `offset`: the commit that
    /// puts its first effect on that frame. There is none where the frame
    /// is claimed or missing, the attack is disabled or without effect, the
    /// start would come before the track is free, the attack would end
    /// outside the range of a frame counter, or its later effects are not
    /// met by the request.
    pub open spec fn candidate(
        self,
        request: RequestView,
        offset: int,
        time_now: u64,
        i: int,
    ) -> Option<FutureMoveCommit> {
        match request.unclaimed_frame_at(offset) {
            None => None,
            Some(frame) => match self.attacks[i].start_frame_for(
                frame,
                self.first_actionable(time_now),
            ) {
                None => None,
                Some(start) => {
                    let commit = FutureMoveCommit { start_frame: start, move_index: i as usize };
                    if self.validity[i] && self.fits(commit) && request.meets_followup(
                        offset,
                        self.effect_frames_of(commit),
                    ) {
                        Some(commit)
                    } else {
                        None
                    }
                },
            },
        }
    }

    /// The offers of the first `n` attacks for the frame at `offset`, in
    /// the order of the attacks.
    pub open spec fn candidates_upto(
        self,
        request: RequestView,
        offset: int,
        time_now: u64,
        n: int,
    ) -> Seq<FutureMoveCommit>
        decreases n,
    {
        if n <= 0 {
            Seq::empty()
        } else {
            let before = self.candidates_upto(request, offset, time_now, n - 1);
            match self.candidate(request, offset, time_now, n - 1) {
                Some(commit) => before.push(commit),
                None => before,
            }
        }
    }

    /// The offers of all attacks for the frame at `offset`.
    pub open spec fn now_candidates(self, request: RequestView, offset: int, time_now: u64) -> Seq<
        FutureMoveCommit,
    > {
        self.candidates_upto(request, offset, time_now, self.attacks.len() as int)
    }

    /// The offers of all attacks for the frame at `offset` and for every
    /// frame after it, position by position.
    pub open spec fn future_candidates(
        self,
        request: RequestView,
        offset: int,
        time_now: u64,
    ) -> Seq<FutureMoveCommit>
        decreases request.frames.len() - offset,
    {
        if offset >= request.frames.len() {
            Seq::empty()
        } else {
            self.now_candidates(request, offset, time_now) + self.future_candidates(
                request,
                offset + 1,
                time_now,
            )
        }
    }

    /// Nothing is offered for a frame that is claimed or missing.
    pub proof fn lemma_no_candidates(self, request: RequestView, offset: int, time_now: u64, n: int)
        requires
            request.unclaimed_frame_at(offset).is_none(),
        ensures
            self.candidates_upto(request, offset, time_now, n) == Seq::<FutureMoveCommit>::empty(),
        decreases n,
    {
        if n > 0 {
            self.lemma_no_candidates(request, offset, time_now, n - 1);
        }
    }

    /// Positions whose frames are all claimed add nothing to the offers.
    pub proof fn lemma_future_skips_claimed(
        self,
        request: RequestView,
        from: int,
        to: int,
        time_now: u64,
    )
        requires
            0 <= from <= to,
            request.frames.len() == request.claimed.len(),
            forall|i: int| from <= i < to && i < request.frames.len() ==> request.claimed[i],
        ensures
            self.future_candidates(request, from, time_now) == self.future_candidates(
                request,
                to,
                time_now,
            ),
        decreases to - from,
    {
        if from < to {
            self.lemma_future_skips_claimed(request, from + 1, to, time_now);
            if from < request.frames.len() {
                self.lemma_no_candidates(request, from, time_now, self.attacks.len() as int);
                assert(Seq::<FutureMoveCommit>::empty() + self.future_candidates(
                    request,
                    from + 1,
                    time_now,
                ) =~= self.future_candidates(request, from + 1, time_now));
            }
        }
    }

    /// What attack `i` offers is an offer in the sense of `is_offer`, and
    /// names that attack.
    pub proof fn lemma_candidate_admitted(
        self,
        request: RequestView,
        offset: int,
        time_now: u64,
        i: int,
    )
        requires
            self.wf(),
            0 <= i < self.attacks.len(),
        ensures
            self.candidate(request, offset, time_now, i) matches Some(commit) ==> {
                &&& self.is_offer(commit, time_now)
                &&& commit.move_index == i
            },
    {
        assert(self.attacks[i].wf());
    }

    /// What holds of every commit that the track offers at `time_now`: the
    /// track admits it, its attack is enabled, it starts no earlier than
    /// the track is free, and it ends later than that.
    pub open spec fn is_offer(self, commit: FutureMoveCommit, time_now: u64) -> bool {
        &&& self.admits(commit)
        &&& self.validity[commit.move_index as int]
        &&& commit.start_frame >= self.first_actionable(time_now)
        &&& self.end_frame_of(commit) > self.first_actionable(time_now)
    }

    /// Every commit offered for one frame is an offer in the sense of
    /// `is_offer`.
    pub proof fn lemma_candidates_are_offers(
        self,
        request: RequestView,
        offset: int,
        time_now: u64,
        n: int,
    )
        requires
            self.wf(),
            n <= self.attacks.len(),
        ensures
            forall|j: int|
                0 <= j < self.candidates_upto(request, offset, time_now, n).len()
                    ==> self.is_offer(
                    #[trigger] self.candidates_upto(request, offset, time_now, n)[j],
                    time_now,
                ),
        decreases n,
    {
        if n > 0 {
            self.lemma_candidates_are_offers(request, offset, time_now, n - 1);
            self.lemma_candidate_admitted(request, offset, time_now, n - 1);
            let before = self.candidates_upto(request, offset, time_now, n - 1);
            let all = self.candidates_upto(request, offset, time_now, n);
            assert forall|j: int| 0 <= j < all.len() implies self.is_offer(
                #[trigger] all[j],
                time_now,
            ) by {
                if j < before.len() {
                    assert(all[j] == before[j]);
                }
            }
        }
    }

    /// Every commit offered for the frame at `offset` or a frame after it
    /// is an offer in the sense of `is_offer`.
    pub proof fn lemma_future_candidates_are_offers(
        self,
        request: RequestView,
        offset: int,
        time_now: u64,
    )
        requires
            self.wf(),
        ensures
            forall|j: int|
                0 <= j < self.future_candidates(request, offset, time_now).len()
                    ==> self.is_offer(
                    #[trigger] self.future_candidates(request, offset, time_now)[j],
                    time_now,
                ),
        decreases request.frames.len() - offset,
    {
        if offset < request.frames.len() {
            self.lemma_candidates_are_offers(
                request,
                offset,
                time_now,
                self.attacks.len() as int,
            );
            self.lemma_future_candidates_are_offers(request, offset + 1, time_now);
            let here = self.now_candidates(request, offset, time_now);
            let later = self.future_candidates(request, offset + 1, time_now);
            assert forall|j: int| 0 <= j < (here + later).len() implies self.is_offer(
                #[trigger] (here + later)[j],
                time_now,
            ) by {
                if j < here.len() {
                    assert((here + later)[j] == here[j]);
                } else {
                    assert((here + later)[j] == later[j - here.len()]);
                }
            }
        }
    }

    /// A track stays well formed when it takes on a commit that it admits.
    pub proof fn lemma_push_wf(self, commit: FutureMoveCommit)
        requires
            self.wf(),
            self.admits(commit),
        ensures
            (TrackView { stack: self.stack.push(commit), ..self }).wf(),
    {
        let after = TrackView { stack: self.stack.push(commit), ..self };
        assert forall|k: int| 0 <= k < after.stack.len() implies after.fits(
            #[trigger] after.stack[k],
        ) by {
            if k < self.stack.len() {
                assert(self.fits(self.stack[k]));
            }
        }
        assert forall|k: int| 0 < k < after.stack.len() implies after.end_frame_of(
            after.stack[k - 1],
        ) <= (#[trigger] after.stack[k]).start_frame by {
            if k < self.stack.len() {
                assert(self.end_frame_of(self.stack[k - 1]) <= self.stack[k].start_frame);
            }
        }
    }

    /// The place of the first commitment from `from` on that is not over
    /// at `time`; the number of commitments if there is none.
    pub open spec fn first_running(self, time: u64, from: int) -> int
        decreases self.stack.len() - from,
    {
        if from >= self.stack.len() {
            self.stack.len() as int
        } else if from >= 0 && self.end_frame_of(self.stack[from]) > time {
            from
        } else {
            self.first_running(time, from + 1)
        }
    }

    /// The track after it has let go of the commitments that are over at
    /// `time`.
    pub open spec fn culled(self, time: u64) -> TrackView {
        TrackView { stack: self.stack.skip(self.first_running(time, 0)), ..self }
    }

    /// The oldest commitment, if its attack is under way at `frame`.
    pub open spec fn active_at(self, frame: u64) -> Option<FutureMoveCommit> {
        if self.stack.len() > 0 && self.stack[0].start_frame <= frame < self.end_frame_of(
            self.stack[0],
        ) {
            Some(self.stack[0])
        } else {
            None
        }
    }

    /// The attacks are valid, each has its flag, every commitment fits, and
    /// no commitment starts before the one in front of it is over.
    pub open spec fn wf(self) -> bool {
        &&& self.attacks.len() <= usize::MAX
        &&& self.validity.len() == self.attacks.len()
        &&& forall|i: int| 0 <= i < self.attacks.len() ==> (#[trigger] self.attacks[i]).wf()
        &&& forall|k: int| 0 <= k < self.stack.len() ==> self.fits(#[trigger] self.stack[k])
        &&& forall|k: int|
            0 < k < self.stack.len() ==> self.end_frame_of(self.stack[k - 1]) <= (
            #[trigger] self.stack[k]).start_frame
    }

    /// A commit that fits moves no offset of its attack out of range.
    pub proof fn lemma_fits(self, commit: FutureMoveCommit)
        requires
            self.wf(),
            self.fits(commit),
        ensures
            shift_fits(
                self.attacks[commit.move_index as int].effect_offsets(),
                commit.start_frame,
            ),
            shift_fits(
                self.attacks[commit.move_index as int].demand_offsets(),
                commit.start_frame,
            ),
    {
        assert(self.attacks[commit.move_index as int].wf());
    }
}

impl View for EnemyTrack {
    type V = TrackView;

    closed spec fn view(&self) -> TrackView {
        TrackView {
            attacks: self.attacks@.map_values(|wrapped: EnemyTrackAttack| wrapped.attack()),
            validity: self.attacks_validitiy@,
            stack: self.future_stack@,
        }
    }
}

impl EnemyTrack {
    /// Each attack knows its own place.
    pub closed spec fn indexed(&self) -> bool {
        forall|i: int| 0 <= i < self.attacks@.len() ==> (#[trigger] self.attacks@[i]).index() == i
    }

    /// What the track holds is well formed, and each attack knows its own
    /// place.
    pub open spec fn wf(&self) -> bool {
        self.indexed() && self@.wf()
    }

    /// A track of the given attacks, all enabled, with nothing committed.
    pub fn new(attacks: Vec<Attack>) -> (track: Self)
        requires
            forall|i: int| 0 <= i < attacks@.len() ==> (#[trigger] attacks@[i]).wf(),
        ensures
            track.wf(),
            track@.attacks == attacks@,
            track@.validity == Seq::new(attacks@.len(), |i: int| true),
            track@.stack == Seq::<FutureMoveCommit>::empty(),
    {
        let ghost given = attacks@;
        let mut wrapped: Vec<EnemyTrackAttack> = Vec::new();
        let mut attacks_validitiy: Vec<bool> = Vec::new();
        for attack in it: attacks
            invariant
                it.seq() == given,
                wrapped@.len() == it.index(),
                attacks_validitiy@ == Seq::new(it.index() as nat, |i: int| true),
                forall|i: int|
                    0 <= i < wrapped@.len() ==> (#[trigger] wrapped@[i]).index() == i
                        && wrapped@[i].attack() == given[i],
        {
            let index: usize = wrapped.len();
            wrapped.push(EnemyTrackAttack::new(attack, index));
            attacks_validitiy.push(true);
            assert(attacks_validitiy@ =~= Seq::new((it.index() + 1) as nat, |i: int| true));
        }
        let count: usize = wrapped.len();
        let track = Self { attacks: wrapped, attacks_validitiy, future_stack: Vec::new() };
        assert(track@.attacks =~= given);
        assert(track@.attacks.len() == count);
        track
    }

    /// The attack at `index`.
    pub fn get_attack(&self, index: usize) -> (attack: &Attack)
        requires
            index < self@.attacks.len(),
        ensures
            *attack == self@.attacks[index as int],
    {
        self.attacks[index].get_attack()
    }

    /// The oldest commitment that is still held.
    pub fn latest_nonpast_commit(&self) -> (oldest: Option<&FutureMoveCommit>)
        ensures
            oldest == if self@.stack.len() > 0 {
                Some(&self@.stack[0])
            } else {
                None
            },
    {
        if self.future_stack.len() > 0 {
            Some(&self.future_stack[0])
        } else {
            None
        }
    }

    /// The earliest frame at which the track can start another attack: the
    /// end of its newest commitment, or `time_now` without one.
    pub fn first_actionable_frame(&self, time_now: u64) -> (frame: u64)
        requires
            self.wf(),
        ensures
            frame == self@.first_actionable(time_now),
    {
        let held: usize = self.future_stack.len();
        if held > 0 {
            assert(self@.fits(self@.stack[held - 1]));
            self.future_stack[held - 1].get_end_frame(self)
        } else {
            time_now
        }
    }

    /// The oldest commitment, if its attack is under way at `frame`.
    pub fn active_commit_at(&self, frame: u64) -> (active: Option<&FutureMoveCommit>)
        requires
            self.wf(),
        ensures
            active.is_some() == self@.active_at(frame).is_some(),
            active matches Some(commit) ==> Some(*commit) == self@.active_at(frame),
    {
        if self.future_stack.len() == 0 {
            return None;
        }
        assert(self@.fits(self@.stack[0]));
        let oldest = &self.future_stack[0];
        if oldest.get_start_frame() <= frame && frame < oldest.get_end_frame(self) {
            Some(oldest)
        } else {
            None
        }
    }

    /// Whether an attack may start at `start_time`.
    pub fn is_actionable_now(&self, start_time: u64, time_now: u64) -> (free: bool)
        requires
            self.wf(),
        ensures
            free == (self@.first_actionable(time_now) <= start_time),
    {
        self.first_actionable_frame(time_now) <= start_time
    }

    /// The offers of the attacks for `request_frame`, which is the frame at
    /// `offset`, in the order of the attacks.
    fn possible_now_moves_iter(
        &self,
        request: &ComplementAttackRequest,
        offset: &RequestOffset,
        request_frame: u64,
        time_now: u64,
    ) -> (offers: Vec<FutureMoveCommit>)
        requires
            self.wf(),
            request.wf(),
            request@.unclaimed_frame_at(offset@) == Some(request_frame),
        ensures
            offers@ == self@.now_candidates(request@, offset@, time_now),
    {
        let first_actionable: u64 = self.first_actionable_frame(time_now);
        let mut offers: Vec<FutureMoveCommit> = Vec::new();
        let mut i: usize = 0;
        while i < self.attacks.len()
            invariant
                self.wf(),
                request.wf(),
                request@.unclaimed_frame_at(offset@) == Some(request_frame),
                first_actionable == self@.first_actionable(time_now),
                i <= self@.attacks.len(),
                self@.attacks.len() == self.attacks@.len(),
                offers@ == self@.candidates_upto(request@, offset@, time_now, i as int),
            decreases self.attacks@.len() - i,
        {
            let attack = &self.attacks[i];
            assert(attack.index() == i);
            assert(attack.attack() == self@.attacks[i as int]);
            if self.attacks_validitiy[i] {
                match attack.start_frame_and_index(request_frame, first_actionable) {
                    Some((index, start_frame)) => {
                        match FutureMoveCommit::try_create(index, start_frame, first_actionable) {
                            Some(commit) => {
                                if attack.get_attack().get_full_duration() <= u64::MAX - start_frame
                                    && commit.can_meet_request_followup(self, request, offset) {
                                    offers.push(commit);
                                }
                            },
                            None => {},
                        }
                    },
                    None => {},
                }
            }
            i += 1;
        }
        offers
    }

    /// The offers of the attacks for the frame at `offset`: for each
    /// enabled attack, in order, the commit that puts its first effect on
    /// that frame, where the track is free by then and the later effects
    /// are met.
    pub fn possible_now_commits(
        &self,
        request: &ComplementAttackRequest,
        offset: &RequestOffset,
        time_now: u64,
    ) -> (offers: Vec<FutureMoveCommit>)
        requires
            self.wf(),
            request.wf(),
        ensures
            offers@ == self@.now_candidates(request@, offset@, time_now),
    {
        match request.first_req_frame(offset) {
            Some(request_frame) => self.possible_now_moves_iter(
                request,
                offset,
                request_frame,
                time_now,
            ),
            None => {
                proof {
                    self@.lemma_no_candidates(
                        request@,
                        offset@,
                        time_now,
                        self@.attacks.len() as int,
                    );
                }
                Vec::new()
            },
        }
    }

    /// The offers for the frame under the cursor of `request` and for
    /// every unclaimed frame after it.
    pub fn possible_future_commits(&self, request: &ComplementAttackRequest, time_now: u64) -> (offers:
        Vec<FutureMoveCommit>)
        requires
            self.wf(),
            request.wf(),
        ensures
            offers@ == self@.future_candidates(request@, request@.cursor, time_now),
    {
        let mut offset = request.current_offset();
        let mut offers = self.possible_now_commits(request, &offset, time_now);
        let ghost mut at: int = offset@;
        loop
            invariant
                self.wf(),
                request.wf(),
                at == offset@,
                0 <= at < request@.frames.len(),
                offers@ + self@.future_candidates(request@, at + 1, time_now)
                    == self@.future_candidates(request@, request@.cursor, time_now),
            ensures
                offers@ == self@.future_candidates(request@, request@.cursor, time_now),
            decreases request@.frames.len() - at,
        {
            proof {
                complement_attack_request::lemma_first_unclaimed(request@, at + 1);
                self@.lemma_future_skips_claimed(
                    request@,
                    at + 1,
                    request@.first_unclaimed_from(at + 1),
                    time_now,
                );
            }
            match request.skip(offset) {
                Some(next) => {
                    offset = next;
                    let mut more = self.possible_now_commits(request, &offset, time_now);
                    proof {
                        assert((offers@ + more@) + self@.future_candidates(
                            request@,
                            offset@ + 1,
                            time_now,
                        ) =~= offers@ + (more@ + self@.future_candidates(
                            request@,
                            offset@ + 1,
                            time_now,
                        )));
                        at = offset@;
                    }
                    offers.append(&mut more);
                },
                None => {
                    assert(offers@ + Seq::<FutureMoveCommit>::empty() =~= offers@);
                    break ;
                },
            }
        }
        offers
    }

    /// The newest commitment as a request to the other tracks, where there
    /// is a commitment and its attack asks for anything.
    pub fn last_queued_attack_as_request(&self) -> (made: Option<ComplementAttackRequest>)
        requires
            self.wf(),
        ensures
            made.is_some() <==> self@.stack.len() > 0
                && self@.attacks[self@.stack.last().move_index as int].demand_offsets().len() > 0,
            made matches Some(request) ==> request.wf() && request@
                == ComplementAttackRequest::made_from(
                self@.attacks[self@.stack.last().move_index as int].demand_offsets(),
                self@.attacks[self@.stack.last().move_index as int].duration(),
                self@.stack.last().start_frame,
            ),
    {
        let held: usize = self.future_stack.len();
        if held == 0 {
            return None;
        }
        let commit = &self.future_stack[held - 1];
        assert(self@.fits(self@.stack[held - 1]));
        self.get_attack(commit.get_index()).to_request(commit.get_start_frame())
    }

    /// Commits the track to an attack and lets `request` take account of
    /// it.
    pub fn commit(&mut self, request: &mut ComplementAttackRequest, commit: FutureMoveCommit)
        requires
            old(self).wf(),
            old(request).wf(),
            old(self)@.admits(commit),
        ensures
            final(self).wf(),
            final(self)@.attacks == old(self)@.attacks,
            final(self)@.validity == old(self)@.validity,
            final(self)@.stack == old(self)@.stack.push(commit),
            final(request).wf(),
            final(request)@ == old(request)@.after_commit(
                commit.start_frame,
                old(self)@.end_frame_of(commit),
                old(self)@.effect_frames_of(commit),
                old(self)@.demand_frames_of(commit),
            ),
    {
        request.apply_commit_claim(self, &commit);
        self.future_stack.push(commit);
    }

    /// Commits the track to the attack at `attack_index` from `start_time`
    /// on, by hand. This is refused, and nothing changes, where there is
    /// no such attack, the attack is disabled, the track is not free at
    /// `start_time`, or the attack would end outside the range of a frame
    /// counter.
    pub fn commit_by_index(&mut self, attack_index: usize, start_time: u64, time_now: u64) -> (done:
        bool)
        requires
            old(self).wf(),
        ensures
            final(self).wf(),
            final(self)@.attacks == old(self)@.attacks,
            final(self)@.validity == old(self)@.validity,
            done == {
                &&& attack_index < old(self)@.attacks.len()
                &&& old(self)@.validity[attack_index as int]
                &&& start_time >= old(self)@.first_actionable(time_now)
                &&& start_time + old(self)@.attacks[attack_index as int].duration() <= u64::MAX
            },
            final(self)@.stack == if done {
                old(self)@.stack.push(
                    FutureMoveCommit { start_frame: start_time, move_index: attack_index },
                )
            } else {
                old(self)@.stack
            },
    {
        if attack_index >= self.attacks.len() || !self.attacks_validitiy[attack_index] {
            return false;
        }
        if self.get_attack(attack_index).get_full_duration() > u64::MAX - start_time {
            return false;
        }
        match FutureMoveCommit::try_create(
            attack_index,
            start_time,
            self.first_actionable_frame(time_now),
        ) {
            Some(commit) => {
                self.future_stack.push(commit);
                true
            },
            None => false,
        }
    }

    /// Lets go of the commitments that are over at `time`, so that the
    /// oldest one held is the one under way or to come.
    pub fn update_latest_nonpast(&mut self, time: u64)
        requires
            old(self).wf(),
        ensures
            final(self).wf(),
            final(self)@ == old(self)@.culled(time),
    {
        let mut over: usize = 0;
        while over < self.future_stack.len() && self.over_at(over, time)
            invariant
                self.wf(),
                over <= self@.stack.len(),
                self@.first_running(time, over as int) == self@.first_running(time, 0),
            decreases self@.stack.len() - over,
        {
            over += 1;
        }
        let kept = self.future_stack.split_off(over);
        self.future_stack = kept;
        assert(self@.stack =~= old(self)@.stack.skip(over as int));
        assert forall|k: int| 0 <= k < self@.stack.len() implies self@.fits(
            #[trigger] self@.stack[k],
        ) by {
            assert(old(self)@.fits(old(self)@.stack[k + over]));
        }
        assert forall|k: int| 0 < k < self@.stack.len() implies self@.end_frame_of(
            self@.stack[k - 1],
        ) <= (#[trigger] self@.stack[k]).start_frame by {
            assert(old(self)@.end_frame_of(old(self)@.stack[k + over - 1]) <= old(self)@.stack[k
                + over].start_frame);
        }
    }

    /// Whether the commitment at `place` is over at `time`.
    fn over_at(&self, place: usize, time: u64) -> (over: bool)
        requires
            self.wf(),
            place < self@.stack.len(),
        ensures
            over == (self@.end_frame_of(self@.stack[place as int]) <= time),
    {
        assert(self@.fits(self@.stack[place as int]));
        self.future_stack[place].get_end_frame(self) <= time
    }

    /// Takes back every commitment that has not begun at `time_now`. The
    /// oldest commitment stays if it has begun; it cannot be undone half
    /// way.
    pub fn reset_non_current(&mut self, time_now: u64)
        requires
            old(self).wf(),
        ensures
            final(self).wf(),
            final(self)@.attacks == old(self)@.attacks,
            final(self)@.validity == old(self)@.validity,
            final(self)@.stack == if old(self)@.stack.len() > 0 && old(self)@.stack[0].start_frame
                <= time_now {
                old(self)@.stack.take(1)
            } else {
                Seq::empty()
            },
    {
        if self.future_stack.len() > 0 && self.future_stack[0].get_start_frame() <= time_now {
            self.future_stack.truncate(1);
            assert(self@.stack =~= old(self)@.stack.take(1));
            assert(old(self)@.fits(old(self)@.stack[0]));
        } else {
            self.future_stack.clear();
            assert(self@.stack =~= Seq::<FutureMoveCommit>::empty());
        }
    }

    /// Enables or disables the attack at `index` for later offers.
    pub fn set_validity(&mut self, index: usize, valid: bool)
        requires
            old(self).wf(),
            index < old(self)@.attacks.len(),
        ensures
            final(self).wf(),
            final(self)@.attacks == old(self)@.attacks,
            final(self)@.stack == old(self)@.stack,
            final(self)@.validity == old(self)@.validity.update(index as int, valid),
    {
        self.attacks_validitiy.set(index, valid);
        assert forall|k: int| 0 < k < self@.stack.len() implies self@.end_frame_of(
            self@.stack[k - 1],
        ) <= (#[trigger] self@.stack[k]).start_frame by {
            assert(old(self)@.end_frame_of(old(self)@.stack[k - 1]) <= old(self)@.stack[k].start_frame);
        }
    }

    /// Enables or disables every attack for later offers.
    pub fn reset_validity(&mut self, valid: bool)
        requires
            old(self).wf(),
        ensures
            final(self).wf(),
            final(self)@.attacks == old(self)@.attacks,
            final(self)@.stack == old(self)@.stack,
            final(self)@.validity == Seq::new(old(self)@.attacks.len(), |i: int| valid),
    {
        let mut i: usize = 0;
        while i < self.attacks_validitiy.len()
            invariant
                self.wf(),
                self@.attacks == old(self)@.attacks,
                self@.stack == old(self)@.stack,
                i <= self@.validity.len(),
                forall|k: int| 0 <= k < i ==> self@.validity[k] == valid,
            decreases self@.validity.len() - i,
        {
            self.attacks_validitiy.set(i, valid);
            i += 1;
        }
        assert(self@.validity =~= Seq::new(old(self)@.attacks.len(), |i: int| valid));
    }

    /// The attack of the newest commitment, with its place.
    pub fn last_queued_attack(&self) -> (newest: Option<&EnemyTrackAttack>)
        requires
            self.wf(),
        ensures
            newest.is_some() == (self@.stack.len() > 0),
            newest matches Some(wrapped) ==> wrapped.index() == self@.stack.last().move_index
                && wrapped.attack() == self@.attacks[self@.stack.last().move_index as int],
    {
        let held: usize = self.future_stack.len();
        if held == 0 {
            return None;
        }
        assert(self@.fits(self@.stack[held - 1]));
        let wrapped = &self.attacks[self.future_stack[held - 1].get_index()];
        assert(wrapped.index() == self@.stack[held - 1].move_index);
        Some(wrapped)
    }

    /// The offers for the frame under the cursor of `request`.
    pub fn can_meet_request_commits(&self, request: &ComplementAttackRequest, time_now: u64) -> (offers:
        Vec<FutureMoveCommit>)
        requires
            self.wf(),
            request.wf(),
        ensures
            offers@ == self@.now_candidates(request@, request@.cursor, time_now),
    {
        self.possible_now_commits(request, &request.current_offset(), time_now)
    }

    /// The attacks of the offers for the frame under the cursor of
    /// `request`, in the order of the offers.
    pub fn can_meet_request(&self, request: &ComplementAttackRequest, time_now: u64) -> (able: Vec<
        &EnemyTrackAttack,
    >)
        requires
            self.wf(),
            request.wf(),
        ensures
            able@.len() == self@.now_candidates(request@, request@.cursor, time_now).len(),
            forall|j: int|
                0 <= j < able@.len() ==> {
                    let commit = self@.now_candidates(request@, request@.cursor, time_now)[j];
                    &&& (#[trigger] able@[j]).index() == commit.move_index
                    &&& able@[j].attack() == self@.attacks[commit.move_index as int]
                },
    {
        let offers = self.can_meet_request_commits(request, time_now);
        proof {
            self@.lemma_candidates_are_offers(
                request@,
                request@.cursor,
                time_now,
                self@.attacks.len() as int,
            );
        }
        let mut able: Vec<&EnemyTrackAttack> = Vec::new();
        let mut j: usize = 0;
        while j < offers.len()
            invariant
                self.wf(),
                j <= offers@.len(),
                able@.len() == j,
                forall|k: int|
                    0 <= k < offers@.len() ==> self@.is_offer(#[trigger] offers@[k], time_now),
                forall|k: int|
                    0 <= k < j ==> (#[trigger] able@[k]).index() == offers@[k].move_index
                        && able@[k].attack() == self@.attacks[offers@[k].move_index as int],
            decreases offers@.len() - j,
        {
            assert(self@.is_offer(offers@[j as int], time_now));
            let wrapped = &self.attacks[offers[j].get_index()];
            assert(wrapped.index() == offers@[j as int].move_index);
            able.push(wrapped);
            j += 1;
        }
        able
    }

    /// Commits the track to the attack at `attack_index` so that its first
    /// effect lands on the frame under the cursor of `request`, and lets
    /// the request take account of it. This is refused, and nothing
    /// changes, where the attack has no effect, the track is not free in
    /// time, or the attack would end outside the range of a frame counter.
    pub fn commit_request_and_index(
        &mut self,
        request: &mut ComplementAttackRequest,
        attack_index: usize,
        time_now: u64,
    ) -> (done: bool)
        requires
            old(self).wf(),
            old(request).wf(),
            attack_index < old(self)@.attacks.len(),
        ensures
            final(self).wf(),
            final(request).wf(),
            final(self)@.attacks == old(self)@.attacks,
            final(self)@.validity == old(self)@.validity,
            done == (old(self)@.attacks[attack_index as int].start_frame_for(
                old(request)@.frames[old(request)@.cursor],
                old(self)@.first_actionable(time_now),
            ) matches Some(start) && start + old(self)@.attacks[attack_index as int].duration()
                <= u64::MAX),
            !done ==> final(self)@.stack == old(self)@.stack && final(request)@ == old(request)@,
            done ==> {
                let commit = (FutureMoveCommit {
                    start_frame: old(self)@.attacks[attack_index as int].start_frame_for(
                        old(request)@.frames[old(request)@.cursor],
                        old(self)@.first_actionable(time_now),
                    ).unwrap(),
                    move_index: attack_index,
                });
                &&& final(self)@.stack == old(self)@.stack.push(commit)
                &&& final(request)@ == old(request)@.after_commit(
                    commit.start_frame,
                    old(self)@.end_frame_of(commit),
                    old(self)@.effect_frames_of(commit),
                    old(self)@.demand_frames_of(commit),
                )
            },
    {
        let first_actionable: u64 = self.first_actionable_frame(time_now);
        match self.get_attack(attack_index).get_start_frame(
            request.start_frame(),
            first_actionable,
        ) {
            Some(start) => {
                if self.get_attack(attack_index).get_full_duration() > u64::MAX - start {
                    return false;
                }
                self.commit(request, FutureMoveCommit::new(attack_index, start));
                true
            },
            None => false,
        }
    }

    /// Takes back the newest commitment, if there is one, and opens again
    /// in `request` the frames that its effects had claimed.
    pub fn uncommit(&mut self, request: &mut ComplementAttackRequest) -> (done: bool)
        requires
            old(self).wf(),
            old(request).wf(),
        ensures
            final(self).wf(),
            final(request).wf(),
            final(self)@.attacks == old(self)@.attacks,
            final(self)@.validity == old(self)@.validity,
            done == (old(self)@.stack.len() > 0),
            done ==> final(self)@.stack == old(self)@.stack.drop_last() && final(request)@ == (
            RequestView {
                claimed: old(request)@.marked_effects(
                    0,
                    old(self)@.effect_frames_of(old(self)@.stack.last()),
                    false,
                ),
                ..old(request)@
            }),
            !done ==> final(self)@.stack == old(self)@.stack && final(request)@ == old(request)@,
    {
        if self.future_stack.len() == 0 {
            return false;
        }
        assert(self@.fits(self@.stack.last()));
        match self.future_stack.pop() {
            Some(commit) => {
                assert(self@.stack =~= old(self)@.stack.drop_last());
                assert forall|k: int| 0 <= k < self@.stack.len() implies self@.fits(
                    #[trigger] self@.stack[k],
                ) by {
                    assert(old(self)@.fits(old(self)@.stack[k]));
                }
                assert forall|k: int| 0 < k < self@.stack.len() implies self@.end_frame_of(
                    self@.stack[k - 1],
                ) <= (#[trigger] self@.stack[k]).start_frame by {
                    assert(old(self)@.end_frame_of(old(self)@.stack[k - 1]) <= old(
                        self,
                    )@.stack[k].start_frame);
                }
                request.release_commit_claim(self, &commit);
                true
            },
            None => false,
        }
    }
}

} // verus!
