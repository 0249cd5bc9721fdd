use vstd::prelude::*;

verus! {

use crate::enemy_track::complement_attack_request::ComplementAttackRequest;
use crate::enemy_track::complement_attack_request::RequestView;
use crate::enemy_track::future_move_commit::FutureMoveCommit;
use crate::enemy_track::EnemyTrack;
use crate::enemy_track::TrackView;

/// A source of choices. The solver asks nothing of a source but that each
/// choice lies in the range it names. A source may say of itself that it
/// is deterministic: its choices then depend on nothing but what it
/// remembers, so that it gives the same choices again when it is set up
/// and asked in the same way.
pub trait SolverRandomState {
    /// What the source remembers, as far as its choices depend on it.
    type Memory;

    /// Every choice the source has handed out, oldest first.
    spec fn drawn(&self) -> Seq<usize>;

    /// What the source remembers now.
    spec fn memory(&self) -> Self::Memory;

    /// Whether the choices of the source depend on nothing but its memory.
    spec fn deterministic() -> bool;

    /// Of a deterministic source: the choice below `max` that it makes on
    /// this memory, and its memory afterwards.
    spec fn foreseen(memory: Self::Memory, max: usize) -> (usize, Self::Memory);

    /// Picks an index below `max`.
    fn next_in_range(&mut self, max: usize) -> (index: usize)
        requires
            max > 0,
        ensures
            index < max,
            final(self).drawn() == old(self).drawn().push(index),
            Self::deterministic() ==> (index, final(self).memory()) == Self::foreseen(
                old(self).memory(),
                max,
            ),
    ;
}

/// What one track offers for a request: its place among the tracks and the
/// commits it could make, of which there is at least one.
pub struct Offer {
    pub track: int,
    pub options: Seq<FutureMoveCommit>,
}

/// The tracks and the request they work on, at one moment of solving.
pub struct Standing {
    pub tracks: Seq<TrackView>,
    pub request: RequestView,
}

/// The least place from `from` on that holds `key`; the number of keys if
/// there is none.
pub open spec fn place_of(ids: Seq<i64>, from: int, key: i64) -> int
    decreases ids.len() - from,
{
    if from >= ids.len() {
        ids.len() as int
    } else if from >= 0 && ids[from] == key {
        from
    } else {
        place_of(ids, from + 1, key)
    }
}

/// `place_of` names the least place from `from` on that holds `key`, and
/// the number of keys exactly when none does.
pub proof fn lemma_place_of(ids: Seq<i64>, from: int, key: i64)
    requires
        0 <= from <= ids.len(),
    ensures
        from <= place_of(ids, from, key) <= ids.len(),
        place_of(ids, from, key) < ids.len() ==> ids[place_of(ids, from, key)] == key,
        forall|i: int| from <= i < place_of(ids, from, key) ==> ids[i] != key,
    decreases ids.len() - from,
{
    if from < ids.len() && ids[from] != key {
        lemma_place_of(ids, from + 1, key);
    }
}

/// The room that the first `n` tracks have left: for each of them the
/// frames from the moment it is free to the end of the range of a frame
/// counter.
pub open spec fn room_upto(tracks: Seq<TrackView>, now: u64, n: int) -> int
    decreases n,
{
    if n <= 0 {
        0
    } else {
        room_upto(tracks, now, n - 1) + (u64::MAX - tracks[n - 1].first_actionable(now))
    }
}

/// The room that all tracks together have left.
pub open spec fn room(tracks: Seq<TrackView>, now: u64) -> int {
    room_upto(tracks, now, tracks.len() as int)
}

impl Standing {
    /// The request and every track are well formed.
    pub open spec fn wf(self) -> bool {
        &&& self.request.wf()
        &&& forall|t: int| 0 <= t < self.tracks.len() ==> (#[trigger] self.tracks[t]).wf()
    }

    /// The offers of the first `n` tracks, in the order of the tracks. A
    /// track that has nothing to offer is left out.
    pub open spec fn offers_upto(self, now: u64, n: int) -> Seq<Offer>
        decreases n,
    {
        if n <= 0 {
            Seq::empty()
        } else {
            let before = self.offers_upto(now, n - 1);
            let options = self.tracks[n - 1].future_candidates(
                self.request,
                self.request.cursor,
                now,
            );
            if options.len() > 0 {
                before.push(Offer { track: n - 1, options })
            } else {
                before
            }
        }
    }

    /// The offers of all tracks.
    pub open spec fn offers(self, now: u64) -> Seq<Offer> {
        self.offers_upto(now, self.tracks.len() as int)
    }

    /// Whether the two choices name an offer and one of its options.
    pub open spec fn names_option(self, now: u64, first: usize, second: usize) -> bool {
        first < self.offers(now).len() && second < self.offers(now)[first as int].options.len()
    }

    /// The standing after one round: the track of the offer that `first`
    /// names commits to the option that `second` names, the request takes
    /// account of it, and the cursor of the request moves on to its next
    /// unclaimed frame. Choices that name nothing leave the standing as it
    /// is.
    pub open spec fn step(self, now: u64, first: usize, second: usize) -> Standing {
        if self.names_option(now, first, second) {
            let offer = self.offers(now)[first as int];
            let commit = offer.options[second as int];
            let track = self.tracks[offer.track];
            Standing {
                tracks: self.tracks.update(
                    offer.track,
                    TrackView { stack: track.stack.push(commit), ..track },
                ),
                request: self.request.after_commit(
                    commit.start_frame,
                    track.end_frame_of(commit),
                    track.effect_frames_of(commit),
                    track.demand_frames_of(commit),
                ).advanced(),
            }
        } else {
            self
        }
    }

    /// The standing after the rounds that the choices in `draws` decide,
    /// two choices to a round.
    pub open spec fn run(self, now: u64, draws: Seq<usize>) -> Standing
        decreases draws.len(),
    {
        if draws.len() < 2 {
            self
        } else {
            self.run(now, draws.take(draws.len() - 2)).step(
                now,
                draws[draws.len() - 2],
                draws[draws.len() - 1],
            )
        }
    }
}

impl Standing {
    /// What holds of every offer: it names a track, it holds what that
    /// track offers for the request, which is at least one commit, and
    /// every commit it holds is an offer of that track.
    pub open spec fn sound_offer(self, now: u64, offer: Offer) -> bool {
        &&& 0 <= offer.track < self.tracks.len()
        &&& offer.options.len() > 0
        &&& offer.options == self.tracks[offer.track].future_candidates(
            self.request,
            self.request.cursor,
            now,
        )
        &&& forall|j: int|
            0 <= j < offer.options.len() ==> self.tracks[offer.track].is_offer(
                #[trigger] offer.options[j],
                now,
            )
    }

    /// Every offer of the first `n` tracks is sound.
    pub proof fn lemma_offers(self, now: u64, n: int)
        requires
            self.wf(),
            n <= self.tracks.len(),
        ensures
            forall|i: int|
                0 <= i < self.offers_upto(now, n).len() ==> self.sound_offer(
                    now,
                    #[trigger] self.offers_upto(now, n)[i],
                ),
        decreases n,
    {
        if n > 0 {
            self.lemma_offers(now, n - 1);
            self.tracks[n - 1].lemma_future_candidates_are_offers(
                self.request,
                self.request.cursor,
                now,
            );
            let before = self.offers_upto(now, n - 1);
            let all = self.offers_upto(now, n);
            assert forall|i: int| 0 <= i < all.len() implies self.sound_offer(
                now,
                #[trigger] all[i],
            ) by {
                if i < before.len() {
                    assert(all[i] == before[i]);
                }
            }
        }
    }
}

/// The room left is never negative.
pub proof fn lemma_room_bounded(tracks: Seq<TrackView>, now: u64, n: int)
    ensures
        room_upto(tracks, now, n) >= 0,
    decreases n,
{
    if n > 0 {
        lemma_room_bounded(tracks, now, n - 1);
    }
}

/// A track that is free later than before leaves less room, and the room
/// of the other tracks is as it was.
pub proof fn lemma_room_update(
    tracks: Seq<TrackView>,
    now: u64,
    at: int,
    changed: TrackView,
    n: int,
)
    requires
        0 <= at < tracks.len(),
        n <= tracks.len(),
    ensures
        room_upto(tracks.update(at, changed), now, n) == room_upto(tracks, now, n) - if at < n {
            changed.first_actionable(now) - tracks[at].first_actionable(now)
        } else {
            0
        },
    decreases n,
{
    if n > 0 {
        lemma_room_update(tracks, now, at, changed, n - 1);
    }
}

impl Standing {
    /// One round on choices that name an option leaves the standing well
    /// formed and the tracks with less room than before. The track that
    /// commits does so no earlier than it is free, and keeps its attacks.
    pub proof fn lemma_step(self, now: u64, first: usize, second: usize)
        requires
            self.wf(),
            self.names_option(now, first, second),
        ensures
            self.step(now, first, second).wf(),
            self.step(now, first, second).tracks.len() == self.tracks.len(),
            0 <= room(self.step(now, first, second).tracks, now) < room(self.tracks, now),
            ({
                let offer = self.offers(now)[first as int];
                let commit = offer.options[second as int];
                &&& 0 <= offer.track < self.tracks.len()
                &&& self.tracks[offer.track].is_offer(commit, now)
            }),
    {
        self.lemma_offers(now, self.tracks.len() as int);
        let offer = self.offers(now)[first as int];
        let commit = offer.options[second as int];
        let track = self.tracks[offer.track];
        assert(track.wf());
        assert(track.is_offer(commit, now));
        let changed = TrackView { stack: track.stack.push(commit), ..track };
        track.lemma_push_wf(commit);
        crate::enemy_track::complement_attack_request::lemma_after_commit_wf(
            self.request,
            commit.start_frame,
            track.end_frame_of(commit),
            track.effect_frames_of(commit),
            track.demand_frames_of(commit),
        );
        let after = self.step(now, first, second);
        assert forall|t: int| 0 <= t < after.tracks.len() implies (#[trigger] after.tracks[t]).wf() by {
            if t != offer.track {
                assert(self.tracks[t].wf());
            }
        }
        assert(changed.stack.last() == commit);
        lemma_room_update(self.tracks, now, offer.track, changed, self.tracks.len() as int);
        lemma_room_bounded(after.tracks, now, after.tracks.len() as int);
    }

    /// Two more choices add one round to those that came before.
    pub proof fn lemma_run_push(self, now: u64, draws: Seq<usize>, first: usize, second: usize)
        ensures
            self.run(now, draws.push(first).push(second)) == self.run(now, draws).step(
                now,
                first,
                second,
            ),
            self.rounds_hold(now, draws.push(first).push(second)) == (self.rounds_hold(now, draws)
                && self.run(now, draws).names_option(now, first, second)),
    {
        let longer = draws.push(first).push(second);
        assert(longer.take(longer.len() - 2) =~= draws);
    }

    /// A standing whose request has no unclaimed frame at or after its
    /// cursor holds no offer.
    pub proof fn lemma_no_offers(self, now: u64, n: int)
        requires
            self.request.wf(),
            self.request.first_unclaimed_from(self.request.cursor) >= self.request.frames.len(),
        ensures
            self.offers_upto(now, n).len() == 0,
        decreases n,
    {
        if n > 0 {
            self.lemma_no_offers(now, n - 1);
            crate::enemy_track::complement_attack_request::lemma_first_unclaimed(
                self.request,
                self.request.cursor,
            );
            self.tracks[n - 1].lemma_future_skips_claimed(
                self.request,
                self.request.cursor,
                self.request.frames.len() as int,
                now,
            );
        }
    }
}

/// What holds of a track after rounds of solving, set against the track
/// before them: its attacks and their flags are the same, the commitments
/// it had are still there in front, and each commitment that came on top
/// starts no earlier than the track was free at the moment it was made.
pub open spec fn in_order_since(before: TrackView, after: TrackView, now: u64) -> bool {
    &&& after.attacks == before.attacks
    &&& after.validity == before.validity
    &&& before.stack.len() <= after.stack.len()
    &&& after.stack.take(before.stack.len() as int) == before.stack
    &&& forall|k: int|
        before.stack.len() <= k < after.stack.len() ==> (#[trigger] after.stack[k]).start_frame
            >= after.actionable_after(after.stack.take(k), now)
}

/// What holds since an earlier moment holds on from a later one.
pub proof fn lemma_in_order_follows(
    before: TrackView,
    held: TrackView,
    after: TrackView,
    now: u64,
)
    requires
        in_order_since(before, held, now),
        in_order_since(held, after, now),
    ensures
        in_order_since(before, after, now),
{
    assert(after.stack.take(before.stack.len() as int) =~= held.stack.take(
        before.stack.len() as int,
    ));
    assert forall|k: int| before.stack.len() <= k < after.stack.len() implies (
    #[trigger] after.stack[k]).start_frame >= after.actionable_after(after.stack.take(k), now) by {
        if k < held.stack.len() {
            assert(after.stack.take(k) =~= held.stack.take(k));
            assert(after.stack[k] == held.stack[k]);
            assert(held.stack[k].start_frame >= held.actionable_after(held.stack.take(k), now));
        }
    }
}

impl Standing {
    /// Whether each pair of choices in `draws` names an option in the
    /// standing that the pairs before it have led to.
    pub open spec fn rounds_hold(self, now: u64, draws: Seq<usize>) -> bool
        decreases draws.len(),
    {
        if draws.len() < 2 {
            true
        } else {
            &&& self.rounds_hold(now, draws.take(draws.len() - 2))
            &&& self.run(now, draws.take(draws.len() - 2)).names_option(
                now,
                draws[draws.len() - 2],
                draws[draws.len() - 1],
            )
        }
    }

    /// The commitment that one round produces starts no earlier than its
    /// track was free at that moment, and the round changes nothing else
    /// about the tracks.
    pub proof fn lemma_step_in_order(self, now: u64, first: usize, second: usize)
        requires
            self.wf(),
        ensures
            self.step(now, first, second).wf(),
            self.step(now, first, second).tracks.len() == self.tracks.len(),
            forall|t: int|
                0 <= t < self.tracks.len() ==> in_order_since(
                    #[trigger] self.tracks[t],
                    self.step(now, first, second).tracks[t],
                    now,
                ),
    {
        let end = self.step(now, first, second);
        if self.names_option(now, first, second) {
            self.lemma_step(now, first, second);
            let offer = self.offers(now)[first as int];
            let commit = offer.options[second as int];
            let held = self.tracks[offer.track];
            let after = end.tracks[offer.track];
            assert(held.is_offer(commit, now));
            assert(after.stack == held.stack.push(commit));
            assert(after.stack.take(held.stack.len() as int) =~= held.stack);
            assert(in_order_since(held, after, now));
        }
        assert forall|t: int| 0 <= t < self.tracks.len() implies in_order_since(
            #[trigger] self.tracks[t],
            end.tracks[t],
            now,
        ) by {
            let same = self.tracks[t];
            assert(same.stack.take(same.stack.len() as int) =~= same.stack);
        }
    }

    /// Every commitment that rounds of solving produce starts no earlier
    /// than its track was free at the moment of the commitment, whatever
    /// the choices were.
    pub proof fn lemma_run_in_order(self, now: u64, draws: Seq<usize>)
        requires
            self.wf(),
        ensures
            self.run(now, draws).wf(),
            self.run(now, draws).tracks.len() == self.tracks.len(),
            forall|t: int|
                0 <= t < self.tracks.len() ==> in_order_since(
                    #[trigger] self.tracks[t],
                    self.run(now, draws).tracks[t],
                    now,
                ),
        decreases draws.len(),
    {
        if draws.len() < 2 {
            assert forall|t: int| 0 <= t < self.tracks.len() implies in_order_since(
                #[trigger] self.tracks[t],
                self.run(now, draws).tracks[t],
                now,
            ) by {
                let same = self.tracks[t];
                assert(same.stack.take(same.stack.len() as int) =~= same.stack);
            }
        } else {
            let earlier = draws.take(draws.len() - 2);
            let first = draws[draws.len() - 2];
            let second = draws[draws.len() - 1];
            self.lemma_run_in_order(now, earlier);
            let middle = self.run(now, earlier);
            middle.lemma_step_in_order(now, first, second);
            let end = middle.step(now, first, second);
            assert forall|t: int| 0 <= t < self.tracks.len() implies in_order_since(
                #[trigger] self.tracks[t],
                end.tracks[t],
                now,
            ) by {
                assert(in_order_since(self.tracks[t], middle.tracks[t], now));
                assert(in_order_since(middle.tracks[t], end.tracks[t], now));
                lemma_in_order_follows(self.tracks[t], middle.tracks[t], end.tracks[t], now);
            }
        }
    }

    /// Rounds of solving come to an end: each round on choices that name
    /// an option uses up room of the tracks, of which there is a finite
    /// amount, so there are no more rounds than there was room.
    pub proof fn lemma_rounds_use_room(self, now: u64, draws: Seq<usize>)
        requires
            self.wf(),
            self.rounds_hold(now, draws),
        ensures
            self.run(now, draws).wf(),
            0 <= room(self.run(now, draws).tracks, now),
            room(self.run(now, draws).tracks, now) + draws.len() / 2 <= room(self.tracks, now),
        decreases draws.len(),
    {
        if draws.len() < 2 {
            lemma_room_bounded(self.tracks, now, self.tracks.len() as int);
        } else {
            let earlier = draws.take(draws.len() - 2);
            self.lemma_rounds_use_room(now, earlier);
            self.run(now, earlier).lemma_step(now, draws[draws.len() - 2], draws[draws.len() - 1]);
        }
    }
}

/// Where solving ends with a deterministic source: the standing after the
/// rounds that the source decides from what it remembers, and what it
/// remembers then. Round after round the source chooses among the offers
/// and then among the options of the chosen offer, until there is no
/// offer.
pub open spec fn foreseen_run<R: SolverRandomState>(
    standing: Standing,
    now: u64,
    memory: R::Memory,
) -> (Standing, R::Memory)
    decreases room(standing.tracks, now),
{
    let offers = standing.offers(now);
    if !standing.wf() || offers.len() == 0 || offers.len() > usize::MAX {
        (standing, memory)
    } else {
        let first = R::foreseen(memory, offers.len() as usize);
        if first.0 >= offers.len() || offers[first.0 as int].options.len() > usize::MAX {
            (standing, memory)
        } else {
            let second = R::foreseen(first.1, offers[first.0 as int].options.len() as usize);
            if second.0 >= offers[first.0 as int].options.len() {
                (standing, memory)
            } else {
                proof {
                    standing.lemma_step(now, first.0, second.0);
                }
                foreseen_run::<R>(standing.step(now, first.0, second.0), now, second.1)
            }
        }
    }
}

/// What holds between the rounds of solving: the standing that has been
/// reached is the one that the choices so far lead to, each pair of them
/// named an option, and with a deterministic source solving ends from
/// here where it was bound to end from the start.
#[verifier::opaque]
pub open spec fn on_course<R: SolverRandomState>(
    begun: Standing,
    now: u64,
    memory: R::Memory,
    draws: Seq<usize>,
    reached: Standing,
    remembered: R::Memory,
) -> bool {
    &&& reached == begun.run(now, draws)
    &&& begun.rounds_hold(now, draws)
    &&& R::deterministic() ==> foreseen_run::<R>(reached, now, remembered) == foreseen_run::<R>(
        begun,
        now,
        memory,
    )
}

/// Solving is on course before the first round.
pub proof fn lemma_course_begins<R: SolverRandomState>(begun: Standing, now: u64, memory: R::Memory)
    ensures
        on_course::<R>(begun, now, memory, Seq::empty(), begun, memory),
{
    reveal(on_course);
}

/// Solving stays on course over a round on the choices of the source.
pub proof fn lemma_course_goes_on<R: SolverRandomState>(
    begun: Standing,
    now: u64,
    memory: R::Memory,
    draws: Seq<usize>,
    reached: Standing,
    remembered: R::Memory,
    first: usize,
    between: R::Memory,
    second: usize,
    after: R::Memory,
)
    requires
        on_course::<R>(begun, now, memory, draws, reached, remembered),
        reached.wf(),
        reached.names_option(now, first, second),
        reached.offers(now).len() <= usize::MAX,
        reached.offers(now)[first as int].options.len() <= usize::MAX,
        R::deterministic() ==> (first, between) == R::foreseen(
            remembered,
            reached.offers(now).len() as usize,
        ),
        R::deterministic() ==> (second, after) == R::foreseen(
            between,
            reached.offers(now)[first as int].options.len() as usize,
        ),
    ensures
        on_course::<R>(
            begun,
            now,
            memory,
            draws.push(first).push(second),
            reached.step(now, first, second),
            after,
        ),
{
    reveal(on_course);
    begun.lemma_run_push(now, draws, first, second);
}

/// Where solving is on course and no offer is left, it has ended as the
/// choices and, with a deterministic source, its memory at the start had
/// it.
pub proof fn lemma_course_ends<R: SolverRandomState>(
    begun: Standing,
    now: u64,
    memory: R::Memory,
    draws: Seq<usize>,
    reached: Standing,
    remembered: R::Memory,
)
    requires
        on_course::<R>(begun, now, memory, draws, reached, remembered),
        reached.offers(now).len() == 0,
    ensures
        reached == begun.run(now, draws),
        begun.rounds_hold(now, draws),
        R::deterministic() ==> (reached, remembered) == foreseen_run::<R>(begun, now, memory),
{
    reveal(on_course);
}

/// The offers as the solver holds them: for each, the place of the track
/// and the commits it could make.
pub open spec fn matches_offers(
    possible: Seq<(usize, Vec<FutureMoveCommit>)>,
    offers: Seq<Offer>,
) -> bool {
    &&& possible.len() == offers.len()
    &&& forall|i: int|
        0 <= i < possible.len() ==> (#[trigger] possible[i]).0 == offers[i].track && possible[i].1@
            == offers[i].options
}

/// What a solver holds: the key of the lead track, the keys of the tracks
/// and the tracks themselves place by place, the request that is being
/// met, and the current frame.
pub struct SolverView {
    pub lead: Option<i64>,
    pub ids: Seq<i64>,
    pub tracks: Seq<TrackView>,
    pub request: Option<RequestView>,
    pub now: u64,
}

impl SolverView {
    /// Each track has its key, no key stands twice, and the tracks and the
    /// request are well formed.
    pub open spec fn wf(self) -> bool {
        &&& self.ids.len() == self.tracks.len()
        &&& self.ids.no_duplicates()
        &&& forall|t: int| 0 <= t < self.tracks.len() ==> (#[trigger] self.tracks[t]).wf()
        &&& self.request matches Some(request) ==> request.wf()
    }

    /// Whether a track stands under `key`.
    pub open spec fn has_track(self, key: i64) -> bool {
        place_of(self.ids, 0, key) < self.ids.len()
    }

    /// The track under `key`.
    pub open spec fn track(self, key: i64) -> TrackView {
        self.tracks[place_of(self.ids, 0, key)]
    }

    /// The solver with `track` under `key`: in place of the track that
    /// stood there, or after all others where none did.
    pub open spec fn with_track(self, key: i64, track: TrackView) -> SolverView {
        if self.has_track(key) {
            SolverView { tracks: self.tracks.update(place_of(self.ids, 0, key), track), ..self }
        } else {
            SolverView { ids: self.ids.push(key), tracks: self.tracks.push(track), ..self }
        }
    }

    /// The solver without the track under `key`.
    pub open spec fn without_track(self, key: i64) -> SolverView {
        if self.has_track(key) {
            SolverView {
                ids: self.ids.remove(place_of(self.ids, 0, key)),
                tracks: self.tracks.remove(place_of(self.ids, 0, key)),
                ..self
            }
        } else {
            self
        }
    }

    /// Whether every track is free at `time_now`.
    pub open spec fn all_free(self, time_now: u64) -> bool {
        forall|t: int|
            0 <= t < self.tracks.len() ==> (#[trigger] self.tracks[t]).first_actionable(time_now)
                <= time_now
    }

    /// The places of those among the first `n` tracks that are not free at
    /// the current frame, in order.
    pub open spec fn blocked_upto(self, n: int) -> Seq<int>
        decreases n,
    {
        if n <= 0 {
            Seq::empty()
        } else if self.tracks[n - 1].first_actionable(self.now) > self.now {
            self.blocked_upto(n - 1).push(n - 1)
        } else {
            self.blocked_upto(n - 1)
        }
    }

    /// The places of the tracks that are not free at the current frame.
    pub open spec fn blocked(self) -> Seq<int> {
        self.blocked_upto(self.tracks.len() as int)
    }

    /// A track that is not free at the current frame is among the blocked.
    pub proof fn lemma_blocked_holds(self, at: int, n: int)
        requires
            0 <= at < n,
            self.tracks[at].first_actionable(self.now) > self.now,
        ensures
            self.blocked_upto(n).len() > 0,
        decreases n,
    {
        if at < n - 1 {
            self.lemma_blocked_holds(at, n - 1);
        }
    }

    /// Whether the lead is a track that is not free at the current frame.
    pub open spec fn lead_is_blocked(self) -> bool {
        self.lead matches Some(key) && self.has_track(key) && self.track(key).first_actionable(
            self.now,
        ) > self.now
    }

    /// Whether a commit by hand of the attack at `attack_index` of the
    /// track under `key`, from `start_time` on, is taken: the attack
    /// exists and is enabled, the track is free by then, and the attack
    /// ends inside the range of a frame counter.
    pub open spec fn takes_commit(self, key: i64, attack_index: usize, start_time: u64) -> bool {
        &&& attack_index < self.track(key).attacks.len()
        &&& self.track(key).validity[attack_index as int]
        &&& start_time >= self.track(key).first_actionable(self.now)
        &&& start_time + self.track(key).attacks[attack_index as int].duration() <= u64::MAX
    }

    /// The solver after the track under `key` has committed to the attack
    /// at `attack_index` from `start_time` on.
    pub open spec fn with_commit(self, key: i64, attack_index: usize, start_time: u64)
        -> SolverView {
        SolverView {
            tracks: self.tracks.update(
                place_of(self.ids, 0, key),
                TrackView {
                    stack: self.track(key).stack.push(
                        FutureMoveCommit { start_frame: start_time, move_index: attack_index },
                    ),
                    ..self.track(key)
                },
            ),
            ..self
        }
    }

    /// The request that is still to be met at the current frame: the one
    /// held, unless its horizon has been reached.
    pub open spec fn live_request(self) -> Option<RequestView> {
        match self.request {
            Some(request) => if request.horizon <= self.now {
                None
            } else {
                Some(request)
            },
            None => None,
        }
    }

    /// The request that the newest commitment of the lead track leaves.
    /// There is none without a lead track, without a commitment on it, or
    /// where the committed attack asks for nothing.
    pub open spec fn derived_request(self) -> Option<RequestView> {
        match self.lead {
            Some(key) => if self.has_track(key) && self.track(key).stack.len() > 0 {
                let commit = self.track(key).stack.last();
                let attack = self.track(key).attacks[commit.move_index as int];
                if attack.demand_offsets().len() > 0 {
                    Some(
                        ComplementAttackRequest::made_from(
                            attack.demand_offsets(),
                            attack.duration(),
                            commit.start_frame,
                        ),
                    )
                } else {
                    None
                }
            } else {
                None
            },
            None => None,
        }
    }
}

/// What each of the tracks holds.
pub open spec fn views(tracks: Seq<EnemyTrack>) -> Seq<TrackView> {
    tracks.map_values(|track: EnemyTrack| track@)
}

/// Each attack of each track knows its own place.
pub open spec fn all_indexed(tracks: Seq<EnemyTrack>) -> bool {
    forall|t: int| 0 <= t < tracks.len() ==> (#[trigger] tracks[t]).indexed()
}

/// Putting another track in one place changes what is held in that place
/// only.
pub proof fn lemma_views_update(tracks: Seq<EnemyTrack>, at: int, changed: EnemyTrack)
    requires
        0 <= at < tracks.len(),
    ensures
        views(tracks.update(at, changed)) == views(tracks).update(at, changed@),
        all_indexed(tracks) && changed.indexed() ==> all_indexed(tracks.update(at, changed)),
{
    assert(views(tracks.update(at, changed)) =~= views(tracks).update(at, changed@));
    if all_indexed(tracks) && changed.indexed() {
        assert forall|t: int| 0 <= t < tracks.len() implies (#[trigger] tracks.update(
            at,
            changed,
        )[t]).indexed() by {
            if t != at {
                assert(tracks[t].indexed());
            }
        }
    }
}

/// The tracks of a combat under their keys, the lead track among them, the
/// request that the lead leaves to the others, and the clock.
#[derive(Debug)]
pub struct Solver {
    lead_track_id: Option<i64>,
    track_ids: Vec<i64>,
    tracks: Vec<EnemyTrack>,
    lead_request: Option<ComplementAttackRequest>,
    time_frames: u64,
}

impl View for Solver {
    type V = SolverView;

    closed spec fn view(&self) -> SolverView {
        SolverView {
            lead: self.lead_track_id,
            ids: self.track_ids@,
            tracks: views(self.tracks@),
            request: match self.lead_request {
                Some(request) => Some(request@),
                None => None,
            },
            now: self.time_frames,
        }
    }
}

impl Solver {
    /// Each attack of each track knows its own place.
    pub closed spec fn indexed(&self) -> bool {
        all_indexed(self.tracks@)
    }

    /// What the solver holds is well formed, and each attack of each
    /// track knows its own place.
    pub open spec fn wf(&self) -> bool {
        self.indexed() && self@.wf()
    }

    /// A solver without tracks, at frame zero.
    pub fn new() -> (solver: Self)
        ensures
            solver.wf(),
            solver@ == (SolverView {
                lead: None,
                ids: Seq::empty(),
                tracks: Seq::empty(),
                request: None,
                now: 0,
            }),
    {
        let solver = Self {
            lead_track_id: None,
            track_ids: Vec::new(),
            tracks: Vec::new(),
            lead_request: None,
            time_frames: 0,
        };
        assert(solver@.tracks =~= Seq::<TrackView>::empty());
        solver
    }

    /// Makes the track under `track_id` the lead.
    pub fn change_lead(&mut self, track_id: i64)
        ensures
            final(self)@ == (SolverView { lead: Some(track_id), ..old(self)@ }),
            old(self).wf() ==> final(self).wf(),
    {
        self.lead_track_id = Some(track_id);
    }

    /// The key of the lead track.
    pub fn get_current_lead(&self) -> (lead: Option<i64>)
        ensures
            lead == self@.lead,
    {
        self.lead_track_id
    }

    /// The place of the track under `index`; the number of tracks if
    /// there is none.
    fn place(&self, index: i64) -> (at: usize)
        requires
            self@.ids.len() == self@.tracks.len(),
        ensures
            at == place_of(self@.ids, 0, index),
            at <= self@.ids.len(),
            at == self@.ids.len() || at < self.tracks@.len(),
    {
        let mut at: usize = 0;
        while at < self.track_ids.len() && self.track_ids[at] != index
            invariant
                at <= self.track_ids@.len(),
                place_of(self.track_ids@, at as int, index) == place_of(self.track_ids@, 0, index),
            decreases self.track_ids@.len() - at,
        {
            at += 1;
        }
        at
    }

    /// Puts `track` under the key `index`, in place of the track that stood
    /// there, or after all others where none did.
    pub fn add_track(&mut self, index: i64, track: EnemyTrack)
        requires
            old(self).wf(),
            track.wf(),
        ensures
            final(self).wf(),
            final(self)@ == old(self)@.with_track(index, track@),
    {
        let at: usize = self.place(index);
        proof {
            lemma_place_of(self@.ids, 0, index);
        }
        if at < self.track_ids.len() {
            self.tracks.set(at, track);
            assert(self@.tracks =~= old(self)@.tracks.update(at as int, track@));
        } else {
            self.track_ids.push(index);
            self.tracks.push(track);
            assert(self@.tracks =~= old(self)@.tracks.push(track@));
        }
    }

    /// Takes away the track under `index`, if there is one.
    pub fn remove_track(&mut self, index: i64)
        requires
            old(self).wf(),
        ensures
            final(self).wf(),
            final(self)@ == old(self)@.without_track(index),
    {
        let at: usize = self.place(index);
        if at < self.track_ids.len() {
            self.track_ids.remove(at);
            self.tracks.remove(at);
            assert(self@.tracks =~= old(self)@.tracks.remove(at as int));
        }
    }

    /// Whether a track stands under `index`.
    pub fn has_track(&self, index: i64) -> (held: bool)
        requires
            self.wf(),
        ensures
            held == self@.has_track(index),
    {
        self.place(index) < self.track_ids.len()
    }

    /// The track under `index`.
    pub fn get_track(&self, index: i64) -> (track: &EnemyTrack)
        requires
            self.wf(),
            self@.has_track(index),
        ensures
            track.wf(),
            track@ == self@.track(index),
    {
        let at: usize = self.place(index);
        assert(self.tracks@[at as int].indexed());
        assert(self@.tracks[at as int].wf());
        &self.tracks[at]
    }

    /// Moves the clock on by one frame.
    pub fn tick(&mut self)
        requires
            old(self)@.now < u64::MAX,
        ensures
            final(self)@ == (SolverView { now: (old(self)@.now + 1) as u64, ..old(self)@ }),
            old(self).wf() ==> final(self).wf(),
    {
        self.time_frames += 1;
    }

    /// The current frame.
    pub fn current_tick(&self) -> (now: u64)
        ensures
            now == self@.now,
    {
        self.time_frames
    }

    /// The track under `index`, to be changed in place.
    pub fn get_track_mut(&mut self, index: i64) -> (track: &mut EnemyTrack)
        requires
            old(self).wf(),
            old(self)@.has_track(index),
        ensures
            track.wf(),
            track@ == old(self)@.track(index),
            final(self)@ == (SolverView {
                tracks: old(self)@.tracks.update(
                    place_of(old(self)@.ids, 0, index),
                    final(track)@,
                ),
                ..old(self)@
            }),
            final(track).wf() ==> final(self).wf(),
    {
        let at: usize = self.place(index);
        assert(self.tracks@[at as int].indexed());
        assert(self@.tracks[at as int].wf());
        proof {
            assert forall|changed: EnemyTrack|
                views(#[trigger] self.tracks@.update(at as int, changed)) == views(
                    self.tracks@,
                ).update(at as int, changed@) && (changed.indexed() ==> all_indexed(
                    self.tracks@.update(at as int, changed),
                )) by {
                lemma_views_update(self.tracks@, at as int, changed);
            }
        }
        &mut self.tracks[at]
    }

    /// The lead track, if a track stands under the key of the lead.
    fn get_lead_track(&self) -> (lead: Option<&EnemyTrack>)
        requires
            self.wf(),
        ensures
            lead.is_some() == (self@.lead.is_some() && self@.has_track(self@.lead.unwrap())),
            lead matches Some(track) ==> track.wf() && track@ == self@.track(self@.lead.unwrap()),
    {
        match self.lead_track_id {
            Some(key) => {
                let at: usize = self.place(key);
                if at < self.tracks.len() {
                    assert(self.tracks@[at as int].indexed());
                    assert(self@.tracks[at as int].wf());
                    Some(&self.tracks[at])
                } else {
                    None
                }
            },
            None => None,
        }
    }

    /// Lets go of the request once its horizon has been reached. The
    /// answer is whether no request is held any more.
    fn try_clear_lead_request(&mut self) -> (clear: bool)
        requires
            old(self).wf(),
        ensures
            final(self).wf(),
            final(self)@ == (SolverView { request: old(self)@.live_request(), ..old(self)@ }),
            clear == old(self)@.live_request().is_none(),
    {
        match &self.lead_request {
            Some(request) => {
                if request.claim_end_time() > self.time_frames {
                    return false;
                }
            },
            None => {},
        }
        self.lead_request = None;
        true
    }

    /// Lets go of a request whose horizon has been reached and, where none
    /// is held then, takes the request that the newest commitment of the
    /// lead track leaves. The answer is that new request, if one was
    /// taken.
    pub fn try_create_new_request(&mut self) -> (made: Option<&ComplementAttackRequest>)
        requires
            old(self).wf(),
        ensures
            final(self).wf(),
            final(self)@ == (SolverView {
                request: if old(self)@.live_request().is_some() {
                    old(self)@.live_request()
                } else {
                    old(self)@.derived_request()
                },
                ..old(self)@
            }),
            made.is_some() == (old(self)@.live_request().is_none() && old(self)@.derived_request().is_some()),
            made matches Some(request) ==> Some(request@) == old(self)@.derived_request(),
    {
        if !self.try_clear_lead_request() {
            return None;
        }
        let derived = match self.get_lead_track() {
            Some(track) => track.last_queued_attack_as_request(),
            None => None,
        };
        self.lead_request = derived;
        self.lead_request.as_ref()
    }

    /// What the tracks offer for `request` at the current frame: for each
    /// track that offers anything, in the order of the tracks, its place
    /// and its offers for the frame under the cursor of the request and
    /// for every unclaimed frame after it.
    pub fn possible_commits(&self, request: &ComplementAttackRequest) -> (possible: Vec<
        (usize, Vec<FutureMoveCommit>),
    >)
        requires
            self.wf(),
            request.wf(),
        ensures
            matches_offers(
                possible@,
                (Standing { tracks: self@.tracks, request: request@ }).offers(self@.now),
            ),
    {
        let ghost standing = Standing { tracks: self@.tracks, request: request@ };
        let mut possible: Vec<(usize, Vec<FutureMoveCommit>)> = Vec::new();
        let mut t: usize = 0;
        while t < self.tracks.len()
            invariant
                self.wf(),
                request.wf(),
                t <= self.tracks@.len(),
                self.tracks@.len() == self@.tracks.len(),
                standing == (Standing { tracks: self@.tracks, request: request@ }),
                matches_offers(possible@, standing.offers_upto(self@.now, t as int)),
            decreases self.tracks@.len() - t,
        {
            assert(self.tracks@[t as int].indexed());
            assert(self@.tracks[t as int].wf());
            let options = self.tracks[t].possible_future_commits(request, self.time_frames);
            if options.len() > 0 {
                possible.push((t, options));
            }
            t += 1;
        }
        possible
    }

    /// Carries out one round of solving on two choices: the track of the
    /// offer at `first` commits to the option at `second`, `request` takes
    /// account of it, and its cursor moves on. The answer is whether the
    /// request then has an unclaimed frame under its cursor.
    pub fn commit_choice(
        &mut self,
        request: &mut ComplementAttackRequest,
        possible: Vec<(usize, Vec<FutureMoveCommit>)>,
        first: usize,
        second: usize,
    ) -> (more: bool)
        requires
            old(self).wf(),
            old(request).wf(),
            matches_offers(
                possible@,
                (Standing { tracks: old(self)@.tracks, request: old(request)@ }).offers(
                    old(self)@.now,
                ),
            ),
            first < possible@.len(),
            second < possible@[first as int].1@.len(),
        ensures
            final(self).wf(),
            final(request).wf(),
            final(self)@ == (SolverView { tracks: final(self)@.tracks, ..old(self)@ }),
            (Standing { tracks: final(self)@.tracks, request: final(request)@ }) == (Standing {
                tracks: old(self)@.tracks,
                request: old(request)@,
            }).step(old(self)@.now, first, second),
            more == (final(request)@.first_unclaimed_from(final(request)@.cursor)
                < final(request)@.frames.len()),
    {
        let ghost standing = Standing { tracks: self@.tracks, request: request@ };
        let ghost now = self@.now;
        let mut possible = possible;
        let (t, mut options) = possible.swap_remove(first);
        let commit = options.swap_remove(second);
        proof {
            standing.lemma_step(now, first, second);
            assert(self.tracks@[t as int].indexed());
            assert forall|changed: EnemyTrack|
                views(#[trigger] self.tracks@.update(t as int, changed)) == views(
                    self.tracks@,
                ).update(t as int, changed@) && (changed.indexed() ==> all_indexed(
                    self.tracks@.update(t as int, changed),
                )) by {
                lemma_views_update(self.tracks@, t as int, changed);
            }
        }
        self.tracks[t].commit(request, commit);
        proof {
            crate::enemy_track::complement_attack_request::lemma_first_unclaimed(
                request@,
                request@.cursor,
            );
        }
        let ghost committed = request@;
        let more = request.advance_to_unclaimed();
        proof {
            if !more {
                let last = committed.frames.len() - 1;
                assert(committed.claimed[last]);
                assert(request@.first_unclaimed_from(last + 1) == last + 1);
                assert(request@.first_unclaimed_from(last) == last + 1);
            }
            let track = standing.tracks[t as int];
            assert(self@.tracks[t as int] == (TrackView {
                stack: track.stack.push(commit),
                ..track
            }));
            assert(self@.tracks =~= standing.step(now, first, second).tracks);
        }
        more
    }

    /// Meets `request` as far as the tracks can: round by round, one of
    /// the tracks that offer anything is chosen by `random`, then one of
    /// its offers, and the track commits to it, until no track offers
    /// anything. The request comes back as the rounds have left it.
    pub fn solve_request<R: SolverRandomState>(
        &mut self,
        request: ComplementAttackRequest,
        random: &mut R,
    ) -> (solved: ComplementAttackRequest)
        requires
            old(self).wf(),
            request.wf(),
        ensures
            final(self).wf(),
            solved.wf(),
            final(self)@ == (SolverView { tracks: final(self)@.tracks, ..old(self)@ }),
            old(random).drawn().len() <= final(random).drawn().len(),
            final(random).drawn().take(old(random).drawn().len() as int) == old(random).drawn(),
            (Standing { tracks: final(self)@.tracks, request: solved@ }) == (Standing {
                tracks: old(self)@.tracks,
                request: request@,
            }).run(
                old(self)@.now,
                final(random).drawn().skip(old(random).drawn().len() as int),
            ),
            (Standing { tracks: old(self)@.tracks, request: request@ }).rounds_hold(
                old(self)@.now,
                final(random).drawn().skip(old(random).drawn().len() as int),
            ),
            (Standing { tracks: final(self)@.tracks, request: solved@ }).offers(
                old(self)@.now,
            ).len() == 0,
            R::deterministic() ==> (
                Standing { tracks: final(self)@.tracks, request: solved@ },
                final(random).memory(),
            ) == foreseen_run::<R>(
                Standing { tracks: old(self)@.tracks, request: request@ },
                old(self)@.now,
                old(random).memory(),
            ),
            final(self)@.tracks.len() == old(self)@.tracks.len(),
            forall|t: int|
                0 <= t < old(self)@.tracks.len() ==> in_order_since(
                    #[trigger] old(self)@.tracks[t],
                    final(self)@.tracks[t],
                    old(self)@.now,
                ),
    {
        let mut request = request;
        let ghost begun = Standing { tracks: self@.tracks, request: request@ };
        let ghost before = random.drawn();
        let ghost remembered = random.memory();
        let ghost now = self@.now;
        proof {
            assert(random.drawn().skip(before.len() as int) =~= Seq::<usize>::empty());
            assert(random.drawn().take(before.len() as int) =~= before);
            lemma_course_begins::<R>(begun, now, remembered);
        }
        loop
            invariant
                self.wf(),
                request.wf(),
                self@ == (SolverView { tracks: self@.tracks, ..old(self)@ }),
                now == old(self)@.now,
                before.len() <= random.drawn().len(),
                random.drawn().take(before.len() as int) == before,
                on_course::<R>(
                    begun,
                    now,
                    remembered,
                    random.drawn().skip(before.len() as int),
                    Standing { tracks: self@.tracks, request: request@ },
                    random.memory(),
                ),
            ensures
                (Standing { tracks: self@.tracks, request: request@ }).offers(now).len() == 0,
            decreases room(self@.tracks, now),
        {
            let ghost standing = Standing { tracks: self@.tracks, request: request@ };
            let ghost drawn = random.drawn();
            let ghost memory = random.memory();
            let possible = self.possible_commits(&request);
            if possible.len() == 0 {
                break ;
            }
            proof {
                standing.lemma_offers(now, standing.tracks.len() as int);
            }
            assert(standing.offers(now).len() == possible@.len());
            let first = random.next_in_range(possible.len());
            let ghost between = random.memory();
            assert(possible@[first as int].1@ == standing.offers(now)[first as int].options);
            let second = random.next_in_range(possible[first].1.len());
            proof {
                standing.lemma_step(now, first, second);
                lemma_course_goes_on::<R>(
                    begun,
                    now,
                    remembered,
                    drawn.skip(before.len() as int),
                    standing,
                    memory,
                    first,
                    between,
                    second,
                    random.memory(),
                );
                assert(random.drawn().skip(before.len() as int) =~= drawn.skip(
                    before.len() as int,
                ).push(first).push(second));
                assert(random.drawn().take(before.len() as int) =~= before);
            }
            let more = self.commit_choice(&mut request, possible, first, second);
            if !more {
                proof {
                    (Standing { tracks: self@.tracks, request: request@ }).lemma_no_offers(
                        now,
                        self@.tracks.len() as int,
                    );
                }
                break ;
            }
        }
        proof {
            lemma_course_ends::<R>(
                begun,
                now,
                remembered,
                random.drawn().skip(before.len() as int),
                Standing { tracks: self@.tracks, request: request@ },
                random.memory(),
            );
            begun.lemma_run_in_order(now, random.drawn().skip(before.len() as int));
        }
        request
    }

    /// Meets the request that is held as far as the tracks can, as
    /// `solve_request` does, and answers with it. Without a request
    /// nothing happens.
    pub fn solve<R: SolverRandomState>(&mut self, random: &mut R) -> (solved: Option<
        &ComplementAttackRequest,
    >)
        requires
            old(self).wf(),
        ensures
            final(self).wf(),
            final(self)@ == (SolverView {
                tracks: final(self)@.tracks,
                request: final(self)@.request,
                ..old(self)@
            }),
            solved.is_some() == old(self)@.request.is_some(),
            solved matches Some(request) ==> Some(request@) == final(self)@.request,
            final(self)@.tracks.len() == old(self)@.tracks.len(),
            forall|t: int|
                0 <= t < old(self)@.tracks.len() ==> in_order_since(
                    #[trigger] old(self)@.tracks[t],
                    final(self)@.tracks[t],
                    old(self)@.now,
                ),
            old(random).drawn().len() <= final(random).drawn().len(),
            final(random).drawn().take(old(random).drawn().len() as int) == old(random).drawn(),
            match old(self)@.request {
                Some(request) => {
                    &&& final(self)@.request.is_some()
                    &&& (Standing {
                        tracks: final(self)@.tracks,
                        request: final(self)@.request.unwrap(),
                    }) == (Standing { tracks: old(self)@.tracks, request }).run(
                        old(self)@.now,
                        final(random).drawn().skip(old(random).drawn().len() as int),
                    )
                    &&& (Standing { tracks: old(self)@.tracks, request }).rounds_hold(
                        old(self)@.now,
                        final(random).drawn().skip(old(random).drawn().len() as int),
                    )
                    &&& (Standing {
                        tracks: final(self)@.tracks,
                        request: final(self)@.request.unwrap(),
                    }).offers(old(self)@.now).len() == 0
                    &&& R::deterministic() ==> (
                        Standing {
                            tracks: final(self)@.tracks,
                            request: final(self)@.request.unwrap(),
                        },
                        final(random).memory(),
                    ) == foreseen_run::<R>(
                        Standing { tracks: old(self)@.tracks, request },
                        old(self)@.now,
                        old(random).memory(),
                    )
                },
                None => final(self)@ == old(self)@ && final(random).drawn() == old(random).drawn()
                    && final(random).memory() == old(random).memory(),
            },
    {
        match self.lead_request.take() {
            Some(request) => {
                let solved = self.solve_request(request, random);
                self.lead_request = Some(solved);
                self.lead_request.as_ref()
            },
            None => {
                assert(random.drawn().take(random.drawn().len() as int) =~= random.drawn());
                assert forall|t: int| 0 <= t < self@.tracks.len() implies in_order_since(
                    #[trigger] self@.tracks[t],
                    self@.tracks[t],
                    self@.now,
                ) by {
                    let same = self@.tracks[t];
                    assert(same.stack.take(same.stack.len() as int) =~= same.stack);
                }
                None
            },
        }
    }

    /// Whether the track under `index` is the lead.
    pub fn is_current_lead(&self, index: i64) -> (leads: bool)
        ensures
            leads == (self@.lead == Some(index)),
    {
        match self.lead_track_id {
            Some(key) => key == index,
            None => false,
        }
    }

    /// Whether every track is free at `time_now`.
    pub fn all_tracks_actionable(&self, time_now: u64) -> (free: bool)
        requires
            self.wf(),
        ensures
            free == self@.all_free(time_now),
    {
        let mut t: usize = 0;
        while t < self.tracks.len()
            invariant
                self.wf(),
                t <= self.tracks@.len(),
                self.tracks@.len() == self@.tracks.len(),
                forall|k: int|
                    0 <= k < t ==> (#[trigger] self@.tracks[k]).first_actionable(time_now)
                        <= time_now,
            decreases self.tracks@.len() - t,
        {
            assert(self.tracks@[t as int].indexed());
            assert(self@.tracks[t as int].wf());
            if !self.tracks[t].is_actionable_now(time_now, time_now) {
                return false;
            }
            t += 1;
        }
        true
    }

    /// Lets each track let go of its oldest commitment, if that one is
    /// over at the current frame.
    pub fn update_latest_nonpast(&mut self)
        requires
            old(self).wf(),
        ensures
            final(self).wf(),
            final(self)@ == (SolverView { tracks: final(self)@.tracks, ..old(self)@ }),
            final(self)@.tracks.len() == old(self)@.tracks.len(),
            forall|t: int|
                0 <= t < old(self)@.tracks.len() ==> (#[trigger] final(self)@.tracks[t]) == old(
                    self,
                )@.tracks[t].culled(old(self)@.now),
    {
        let mut t: usize = 0;
        while t < self.tracks.len()
            invariant
                self.wf(),
                t <= self.tracks@.len(),
                self.tracks@.len() == self@.tracks.len(),
                self@ == (SolverView { tracks: self@.tracks, ..old(self)@ }),
                self@.tracks.len() == old(self)@.tracks.len(),
                forall|k: int|
                    0 <= k < t ==> (#[trigger] self@.tracks[k]) == old(self)@.tracks[k].culled(
                        old(self)@.now,
                    ),
                forall|k: int|
                    t <= k < self@.tracks.len() ==> (#[trigger] self@.tracks[k]) == old(
                        self,
                    )@.tracks[k],
            decreases self.tracks@.len() - t,
        {
            let ghost before = self@.tracks;
            proof {
                assert(self.tracks@[t as int].indexed());
                assert(self@.tracks[t as int].wf());
                assert forall|changed: EnemyTrack|
                    views(#[trigger] self.tracks@.update(t as int, changed)) == views(
                        self.tracks@,
                    ).update(t as int, changed@) && (changed.indexed() ==> all_indexed(
                        self.tracks@.update(t as int, changed),
                    )) by {
                    lemma_views_update(self.tracks@, t as int, changed);
                }
            }
            self.tracks[t].update_latest_nonpast(self.time_frames);
            proof {
                assert(self@.tracks == before.update(t as int, self@.tracks[t as int]));
                assert forall|k: int| 0 <= k < self@.tracks.len() implies (
                #[trigger] self@.tracks[k]).wf() by {
                    if k != t {
                        assert(before[k].wf());
                    }
                }
            }
            t += 1;
        }
    }

    /// Commits the track under `index` to the attack at `attack_index`
    /// from `start_time` on, by hand. This is refused, and nothing
    /// changes, where there is no such attack, the attack is disabled, the
    /// track is not free at `start_time`, or the attack would end outside
    /// the range of a frame counter.
    pub fn commit_by_index(&mut self, index: i64, attack_index: usize, start_time: u64) -> (done:
        bool)
        requires
            old(self).wf(),
            old(self)@.has_track(index),
        ensures
            final(self).wf(),
            done == old(self)@.takes_commit(index, attack_index, start_time),
            final(self)@ == if done {
                old(self)@.with_commit(index, attack_index, start_time)
            } else {
                old(self)@
            },
    {
        let time_now: u64 = self.time_frames;
        let at: usize = self.place(index);
        let ghost before = self@.track(index);
        proof {
            assert(self.tracks@[at as int].indexed());
            assert(self@.tracks[at as int].wf());
            assert forall|changed: EnemyTrack|
                views(#[trigger] self.tracks@.update(at as int, changed)) == views(
                    self.tracks@,
                ).update(at as int, changed@) && (changed.indexed() ==> all_indexed(
                    self.tracks@.update(at as int, changed),
                )) by {
                lemma_views_update(self.tracks@, at as int, changed);
            }
        }
        let done = self.tracks[at].commit_by_index(attack_index, start_time, time_now);
        proof {
            assert(self@.tracks == old(self)@.tracks.update(at as int, self@.tracks[at as int]));
            if done {
                assert(self@.tracks[at as int] == (TrackView {
                    stack: before.stack.push(
                        FutureMoveCommit { start_frame: start_time, move_index: attack_index },
                    ),
                    ..before
                }));
            } else {
                assert(self@.tracks[at as int] == before);
                assert(self@.tracks =~= old(self)@.tracks);
            }
            assert forall|k: int| 0 <= k < self@.tracks.len() implies (
            #[trigger] self@.tracks[k]).wf() by {
                if k != at {
                    assert(old(self)@.tracks[k].wf());
                }
            }
        }
        done
    }

    /// Commits the track under `id` to the attack at `index` from the
    /// current frame on and makes it the lead. This is refused, and
    /// nothing changes, unless every track is free at the current frame
    /// and the commit is one that `commit_by_index` takes.
    pub fn commit_move_now(&mut self, id: i64, index: usize) -> (done: bool)
        requires
            old(self).wf(),
            old(self)@.has_track(id),
        ensures
            final(self).wf(),
            done == (old(self)@.all_free(old(self)@.now) && old(self)@.takes_commit(
                id,
                index,
                old(self)@.now,
            )),
            final(self)@ == if done {
                (SolverView { lead: Some(id), ..old(self)@.with_commit(id, index, old(self)@.now) })
            } else {
                old(self)@
            },
    {
        let time_now: u64 = self.time_frames;
        if !self.all_tracks_actionable(time_now) {
            return false;
        }
        if self.commit_by_index(id, index, time_now) {
            self.change_lead(id);
            true
        } else {
            false
        }
    }

    /// The oldest commitment that the track under `id` still holds.
    pub fn get_latest_nonpast_commit(&self, id: i64) -> (oldest: Option<&FutureMoveCommit>)
        requires
            self.wf(),
            self@.has_track(id),
        ensures
            oldest == if self@.track(id).stack.len() > 0 {
                Some(&self@.track(id).stack[0])
            } else {
                None
            },
    {
        self.get_track(id).latest_nonpast_commit()
    }

    /// The commitment of the track under `id` whose attack began at the
    /// frame before the current one, which is the frame that was worked on
    /// last.
    pub fn get_commit_on_this_frame(&self, id: i64) -> (begun: Option<&FutureMoveCommit>)
        requires
            self.wf(),
            self@.has_track(id),
        ensures
            begun == if self@.now > 0 && self@.track(id).stack.len() > 0 && self@.track(
                id,
            ).stack[0].start_frame == self@.now - 1 {
                Some(&self@.track(id).stack[0])
            } else {
                None
            },
    {
        if self.time_frames == 0 {
            return None;
        }
        match self.get_latest_nonpast_commit(id) {
            Some(commit) => if commit.get_start_frame() == self.time_frames - 1 {
                Some(commit)
            } else {
                None
            },
            None => None,
        }
    }

    /// The commitment of the track under `id` whose attack was under way
    /// at the frame before the current one, which is the frame that was
    /// worked on last.
    pub fn get_active_commit(&self, id: i64) -> (active: Option<&FutureMoveCommit>)
        requires
            self.wf(),
            self@.has_track(id),
        ensures
            active.is_some() == (self@.now > 0 && self@.track(id).active_at(
                (self@.now - 1) as u64,
            ).is_some()),
            active matches Some(commit) ==> Some(*commit) == self@.track(id).active_at(
                (self@.now - 1) as u64,
            ),
    {
        if self.time_frames == 0 {
            return None;
        }
        self.get_track(id).active_commit_at(self.time_frames - 1)
    }

    /// How many frames the attack of the track under `id` had been under
    /// way at the frame before the current one, if one was under way then.
    pub fn active_frame_of(&self, id: i64) -> (frames: Option<u64>)
        requires
            self.wf(),
            self@.has_track(id),
        ensures
            frames == if self@.now > 0 {
                match self@.track(id).active_at((self@.now - 1) as u64) {
                    Some(commit) => Some((self@.now - 1 - commit.start_frame) as u64),
                    None => None,
                }
            } else {
                None
            },
    {
        match self.get_active_commit(id) {
            Some(commit) => Some(self.time_frames - 1 - commit.get_start_frame()),
            None => None,
        }
    }

    /// The places of the tracks that are not free at the current frame.
    fn blocked_places(&self) -> (blocked: Vec<usize>)
        requires
            self.wf(),
        ensures
            blocked@.len() == self@.blocked().len(),
            forall|k: int|
                0 <= k < blocked@.len() ==> (#[trigger] blocked@[k]) == self@.blocked()[k]
                    && blocked@[k] < self@.ids.len(),
    {
        let time_now: u64 = self.time_frames;
        let mut blocked: Vec<usize> = Vec::new();
        let mut t: usize = 0;
        while t < self.tracks.len()
            invariant
                self.wf(),
                t <= self.tracks@.len(),
                self.tracks@.len() == self@.tracks.len(),
                time_now == self@.now,
                blocked@.len() == self@.blocked_upto(t as int).len(),
                forall|k: int|
                    0 <= k < blocked@.len() ==> (#[trigger] blocked@[k]) == self@.blocked_upto(
                        t as int,
                    )[k] && blocked@[k] < t,
            decreases self.tracks@.len() - t,
        {
            assert(self.tracks@[t as int].indexed());
            assert(self@.tracks[t as int].wf());
            if !self.tracks[t].is_actionable_now(time_now, time_now) {
                blocked.push(t);
            }
            t += 1;
        }
        blocked
    }

    /// Where the lead is a track that is not free at the current frame,
    /// lets `random` choose the lead anew among the tracks that are not
    /// free. The answer is whether a choice was made.
    pub fn reassign_lead<R: SolverRandomState>(&mut self, random: &mut R) -> (chosen: bool)
        requires
            old(self).wf(),
        ensures
            final(self).wf(),
            chosen == old(self)@.lead_is_blocked(),
            !chosen ==> final(self)@ == old(self)@ && final(random).drawn() == old(random).drawn()
                && final(random).memory() == old(random).memory(),
            chosen ==> {
                &&& final(random).drawn().len() == old(random).drawn().len() + 1
                &&& final(random).drawn().drop_last() == old(random).drawn()
                &&& final(random).drawn().last() < old(self)@.blocked().len()
                &&& R::deterministic() ==> (final(random).drawn().last(), final(random).memory())
                    == R::foreseen(old(random).memory(), old(self)@.blocked().len() as usize)
                &&& final(self)@ == (SolverView {
                    lead: Some(
                        old(self)@.ids[old(self)@.blocked()[final(random).drawn().last() as int]],
                    ),
                    ..old(self)@
                })
            },
    {
        let time_now: u64 = self.time_frames;
        match self.get_lead_track() {
            Some(lead) => {
                if lead.is_actionable_now(time_now, time_now) {
                    return false;
                }
            },
            None => {
                return false;
            },
        }
        let blocked = self.blocked_places();
        proof {
            lemma_place_of(self@.ids, 0, self@.lead.unwrap());
            self@.lemma_blocked_holds(
                place_of(self@.ids, 0, self@.lead.unwrap()),
                self@.tracks.len() as int,
            );
        }
        let pick: usize = random.next_in_range(blocked.len());
        self.lead_track_id = Some(self.track_ids[blocked[pick]]);
        assert(random.drawn().drop_last() =~= old(random).drawn());
        true
    }
}

} // verus!
