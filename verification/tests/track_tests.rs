use rust_solver::attack::Attack;
use rust_solver::enemy_track::complement_attack_request::request_offset::RequestOffset;
use rust_solver::enemy_track::complement_attack_request::ComplementAttackRequest;
use rust_solver::enemy_track::future_move_commit::FutureMoveCommit;
use rust_solver::enemy_track::EnemyTrack;

fn request_of(attack: Attack) -> ComplementAttackRequest {
    attack.to_request(0).unwrap()
}

fn commit_and_assert(
    request: &mut ComplementAttackRequest,
    offset: &mut RequestOffset,
    track: &mut EnemyTrack,
    take_option_index: usize,
    expected_len: usize,
    expected_next_unclaimed: bool,
) {
    let mut commits = track.possible_now_commits(request, offset, 0);
    assert_eq!(commits.len(), expected_len);
    track.commit(request, commits.swap_remove(take_option_index));
    let next = request.next_unclaimed(RequestOffset::new(offset.get()));
    assert_eq!(next.is_some(), expected_next_unclaimed);
    if let Some(found) = next {
        *offset = found;
    }
}

fn assert_commits_length(
    request: &ComplementAttackRequest,
    track: &EnemyTrack,
    expected_len: usize,
) {
    let commits = track.possible_now_commits(request, &RequestOffset::new_default(), 0);
    assert_eq!(commits.len(), expected_len);
}

fn pairs(commits: &Vec<FutureMoveCommit>) -> Vec<(usize, u64)> {
    commits.iter().map(|c| (c.get_index(), c.get_start_frame())).collect()
}

#[test]
fn enemy_track_can_meet_request_test() {
    let mock_track = EnemyTrack::new(vec![
        Attack::new_expect(20, vec![8, 10, 16], vec![]),
        Attack::new_expect(20, vec![8, 16], vec![]),
        Attack::new_expect(20, vec![12], vec![]),
    ]);
    let mock_request = request_of(Attack::new_expect(30, vec![], vec![20, 28]));
    assert_commits_length(&mock_request, &mock_track, 2);
}

#[test]
fn enemy_track_fail_meet_request_test() {
    let mock_track = EnemyTrack::new(vec![
        Attack::new_expect(18, vec![8, 16], vec![2]),
        Attack::new_expect(22, vec![12, 20], vec![4]),
    ]);

    let mock_lead_action = Attack::new_expect(40, vec![10, 16], vec![13, 29]);
    assert!(mock_track
        .possible_now_commits(&request_of(mock_lead_action), &RequestOffset::new_default(), 0)
        .is_empty());
}

#[test]
fn enemy_track_can_meet_multuple_request() {
    let mut mock_track = EnemyTrack::new(vec![
        Attack::new_expect(10, vec![1, 9], vec![2]),
        Attack::new_expect(13, vec![12], vec![4]),
    ]);

    let src = Attack::new_expect(30, vec![], vec![20, 28]);
    let mut mock_request = request_of(src);

    let mut offset: RequestOffset = RequestOffset::new_default();
    commit_and_assert(&mut mock_request, &mut offset, &mut mock_track, 1, 2, true);
    commit_and_assert(&mut mock_request, &mut offset, &mut mock_track, 0, 1, false);
}

#[test]
fn enemy_track_can_match_all_futures() {
    let mock_track = EnemyTrack::new(vec![
        Attack::new_expect(11, vec![1, 10], vec![]),
        Attack::new_expect(6, vec![5], vec![]),
        Attack::new_expect(13, vec![2, 4, 6], vec![]),
    ]);

    let mock_lead_track = Attack::new_expect(25, vec![], vec![10, 18]);
    let mock_request = request_of(mock_lead_track);

    let can_meet = mock_track.possible_future_commits(&mock_request, 0);
    assert_eq!(can_meet.len(), 3);
    assert_eq!(pairs(&can_meet), vec![(1, 5), (0, 17), (1, 13)]);
}

#[test]
fn can_meet_request_test() {
    let mock_track = EnemyTrack::new(vec![
        Attack::new(20, vec![8, 10, 16], vec![4]).unwrap(),
        Attack::new(20, vec![8, 16], vec![2]).unwrap(),
        Attack::new(20, vec![12], vec![4]).unwrap(),
    ]);
    assert_eq!(
        mock_track
            .can_meet_request(&request_of(Attack::new(30, vec![], vec![20, 28]).unwrap()), 0)
            .len(),
        2
    );
}

#[test]
fn commit_and_uncommit_test() {
    let mut mock_track = EnemyTrack::new(vec![
        Attack::new(18, vec![8, 16], vec![2]).unwrap(),
        Attack::new(20, vec![8, 10, 16], vec![4]).unwrap(),
    ]);
    let mock_lead_action = Attack::new(30, vec![], vec![16, 24]).unwrap();
    let mut request = request_of(mock_lead_action);
    let request_result: Vec<usize> = mock_track
        .can_meet_request(&request, 0)
        .iter()
        .map(|attack| attack.get_index())
        .collect();
    assert!(!request_result.is_empty());

    assert!(mock_track.commit_request_and_index(&mut request, request_result[0], 0));
    assert!(mock_track.uncommit(&mut request));
}

#[test]
fn test_catch_invalid_commit() {
    let mut mock_track = EnemyTrack::new(vec![
        Attack::new(18, vec![8, 16], vec![2]).unwrap(),
        Attack::new(20, vec![8, 10, 16], vec![4]).unwrap(),
    ]);
    let mock_lead_action = Attack::new(30, vec![], vec![16, 24]).unwrap();

    let request_result: Vec<usize> = mock_track
        .can_meet_request(&request_of(mock_lead_action), 0)
        .iter()
        .map(|attack| attack.get_index())
        .collect();
    assert!(!request_result.is_empty());

    assert!(!mock_track.commit_request_and_index(
        &mut request_of(Attack::new(10, vec![], vec![3]).unwrap()),
        request_result[0],
        0
    ));
}

#[test]
fn fail_meet_request_test() {
    let mock_track = EnemyTrack::new(vec![
        Attack::new(18, vec![8, 16], vec![2]).unwrap(),
        Attack::new(22, vec![12, 20], vec![4]).unwrap(),
    ]);

    let mock_lead_action = Attack::new(40, vec![10, 16], vec![13, 29]).unwrap();
    assert!(mock_track
        .can_meet_request(&request_of(mock_lead_action), 0)
        .is_empty());
}

#[test]
fn can_match_all_futures() {
    let mock_track = EnemyTrack::new(vec![
        Attack::new(11, vec![1, 10], vec![]).unwrap(),
        Attack::new(6, vec![5], vec![]).unwrap(),
        Attack::new(13, vec![2, 4, 6], vec![]).unwrap(),
    ]);

    let mock_lead_track = Attack::new(25, vec![], vec![10, 18]).unwrap();
    let mut mock_request = request_of(mock_lead_track);
    let mark = mock_request.get_restore_point();

    let can_meet = mock_track.possible_future_commits(&mock_request, 0);
    mock_request.restore(mark);
    assert_eq!(can_meet.len(), 3);
}

fn open_frames(request: &ComplementAttackRequest) -> Vec<u64> {
    let mut frames = Vec::new();
    let mut at = request.next_unclaimed(RequestOffset::new_default());
    while let Some(offset) = at {
        frames.push(request.first_req_frame(&offset).unwrap());
        at = request.skip(offset);
    }
    frames
}

#[test]
fn new_track_is_free_now_and_holds_nothing() {
    let track = EnemyTrack::new(vec![Attack::new(10, vec![1], vec![]).unwrap()]);
    assert_eq!(track.first_actionable_frame(17), 17);
    assert!(track.is_actionable_now(17, 17));
    assert!(!track.is_actionable_now(16, 17));
    assert!(track.latest_nonpast_commit().is_none());
    assert!(track.last_queued_attack().is_none());
    assert!(track.last_queued_attack_as_request().is_none());
    assert_eq!(track.get_attack(0).get_full_duration(), 10);
}

#[test]
fn first_actionable_frame_is_end_of_newest_commitment() {
    let mut track = EnemyTrack::new(vec![
        Attack::new(10, vec![1], vec![]).unwrap(),
        Attack::new(7, vec![1], vec![3]).unwrap(),
    ]);
    assert!(track.commit_by_index(0, 5, 0));
    assert_eq!(track.first_actionable_frame(0), 15);
    assert_eq!(track.first_actionable_frame(100), 15);
    assert!(track.commit_by_index(1, 15, 0));
    assert_eq!(track.first_actionable_frame(0), 22);
    assert_eq!(track.last_queued_attack().unwrap().get_index(), 1);
    let oldest = track.latest_nonpast_commit().unwrap();
    assert_eq!((oldest.get_index(), oldest.get_start_frame()), (0, 5));
    assert_eq!(oldest.get_end_frame(&track), 15);
    assert_eq!(oldest.get_full_duration(&track), 10);
    assert_eq!(oldest.get_active_frames(&track), vec![6]);
    assert!(oldest.get_request_frames(&track).is_empty());
    let request = track.last_queued_attack_as_request().unwrap();
    assert_eq!(open_frames(&request), vec![18]);
    assert_eq!(request.claim_end_time(), 22);
}

#[test]
fn commit_by_index_refuses_and_changes_nothing() {
    let mut track = EnemyTrack::new(vec![
        Attack::new(10, vec![1], vec![]).unwrap(),
        Attack::new(7, vec![1], vec![3]).unwrap(),
    ]);
    // no such attack
    assert!(!track.commit_by_index(2, 5, 0));
    // before the current frame
    assert!(!track.commit_by_index(0, 4, 5));
    // disabled
    track.set_validity(0, false);
    assert!(!track.commit_by_index(0, 5, 0));
    track.set_validity(0, true);
    // would end outside the range
    assert!(!track.commit_by_index(0, u64::MAX - 9, 0));
    assert!(track.latest_nonpast_commit().is_none());
    assert!(track.commit_by_index(0, u64::MAX - 10, 0));
    assert_eq!(track.first_actionable_frame(0), u64::MAX);
    // before the end of the newest commitment
    assert!(!track.commit_by_index(1, u64::MAX - 11, 0));
}

#[test]
fn try_create_checks_the_start() {
    assert!(FutureMoveCommit::try_create(3, 9, 10).is_none());
    let made = FutureMoveCommit::try_create(3, 10, 10).unwrap();
    assert_eq!((made.get_index(), made.get_start_frame()), (3, 10));
    let plain = FutureMoveCommit::new(4, 2);
    assert_eq!((plain.get_index(), plain.get_start_frame()), (4, 2));
}

#[test]
fn disabled_attack_offers_nothing() {
    let mut track = EnemyTrack::new(vec![
        Attack::new(20, vec![8, 10, 16], vec![]).unwrap(),
        Attack::new(20, vec![8, 16], vec![]).unwrap(),
        Attack::new(20, vec![12], vec![]).unwrap(),
    ]);
    let request = request_of(Attack::new(30, vec![], vec![20, 28]).unwrap());
    let start = RequestOffset::new_default();
    assert_eq!(pairs(&track.possible_now_commits(&request, &start, 0)), vec![(1, 12), (2, 8)]);
    track.set_validity(1, false);
    assert_eq!(pairs(&track.possible_now_commits(&request, &start, 0)), vec![(2, 8)]);
    track.reset_validity(false);
    assert!(track.possible_now_commits(&request, &start, 0).is_empty());
    track.reset_validity(true);
    assert_eq!(track.possible_now_commits(&request, &start, 0).len(), 2);
}

#[test]
fn offers_wait_until_the_track_is_free() {
    let track = EnemyTrack::new(vec![Attack::new(20, vec![12], vec![]).unwrap()]);
    let request = request_of(Attack::new(30, vec![], vec![20, 28]).unwrap());
    let start = RequestOffset::new_default();
    assert_eq!(pairs(&track.possible_now_commits(&request, &start, 8)), vec![(0, 8)]);
    assert!(track.possible_now_commits(&request, &start, 9).is_empty());
    assert_eq!(pairs(&track.possible_future_commits(&request, 9)), vec![(0, 16)]);
    assert!(track.possible_future_commits(&request, 17).is_empty());
}

#[test]
fn nothing_is_offered_for_a_claimed_or_missing_frame() {
    let track = EnemyTrack::new(vec![Attack::new(20, vec![12], vec![]).unwrap()]);
    let mut request = request_of(Attack::new(30, vec![], vec![20, 28]).unwrap());
    request.set_claimed(0, true);
    assert!(track
        .possible_now_commits(&request, &RequestOffset::new(0), 0)
        .is_empty());
    assert!(track
        .possible_now_commits(&request, &RequestOffset::new(2), 0)
        .is_empty());
    assert_eq!(pairs(&track.possible_future_commits(&request, 0)), vec![(0, 16)]);
}

#[test]
fn effect_beyond_horizon_needs_no_match() {
    let track = EnemyTrack::new(vec![Attack::new(40, vec![5, 30], vec![]).unwrap()]);
    let request = request_of(Attack::new(30, vec![], vec![20]).unwrap());
    // effects at 20 and 45; 45 lies at or after the horizon of 30
    assert_eq!(pairs(&track.possible_future_commits(&request, 0)), vec![(0, 15)]);
}

#[test]
fn followup_passes_earlier_frames_and_fails_on_later() {
    let track = EnemyTrack::new(vec![
        Attack::new(40, vec![5, 15], vec![]).unwrap(),
        Attack::new(40, vec![5, 12], vec![]).unwrap(),
    ]);
    // frames 20, 25, 30; horizon 50
    let request = ComplementAttackRequest::new(&[20, 25, 30], 50, 0).unwrap();
    let offers = track.possible_now_commits(&request, &RequestOffset::new_default(), 0);
    // effects 20, 30: frame 25 is passed over; effects 20, 27: frame 30 comes first
    assert_eq!(pairs(&offers), vec![(0, 15)]);
}

#[test]
fn repeated_effect_needs_its_own_frame() {
    let track = EnemyTrack::new(vec![Attack::new(40, vec![5, 10, 10], vec![]).unwrap()]);
    let once = ComplementAttackRequest::new(&[20, 25], 50, 0).unwrap();
    assert!(track.possible_future_commits(&once, 0).is_empty());
    let twice = ComplementAttackRequest::new(&[20, 25, 25], 50, 0).unwrap();
    assert_eq!(pairs(&track.possible_future_commits(&twice, 0)), vec![(0, 15)]);
}

#[test]
fn commit_claims_sweeps_and_moves_the_horizon() {
    let mut track = EnemyTrack::new(vec![Attack::new(12, vec![2], vec![7]).unwrap()]);
    // frames 20, 25, 28; horizon 30
    let mut request = ComplementAttackRequest::new(&[20, 25, 28], 30, 0).unwrap();
    let mut offers = track.possible_now_commits(&request, &RequestOffset::new_default(), 0);
    assert_eq!(pairs(&offers), vec![(0, 18)]);
    track.commit(&mut request, offers.swap_remove(0));
    // 20 is met, 28 is covered, 25 is a demand of the attack itself
    assert_eq!(open_frames(&request), vec![25]);
    assert_eq!(request.claim_end_time(), 30);
    assert_eq!(track.first_actionable_frame(0), 30);
}

#[test]
fn commit_adds_demands_at_or_after_the_horizon() {
    let mut track = EnemyTrack::new(vec![Attack::new(40, vec![20, 29], vec![3, 35]).unwrap()]);
    let mut request = request_of(Attack::new(30, vec![], vec![20, 28]).unwrap());
    let mut offers = track.possible_future_commits(&request, 0);
    assert_eq!(pairs(&offers), vec![(0, 8)]);
    track.commit(&mut request, offers.swap_remove(0));
    // the attack runs from 8 to 48: 20 and 28 are claimed, its demand at 11
    // lies before the horizon and is let go, its demand at 43 is added
    assert_eq!(open_frames(&request), vec![43]);
    assert_eq!(request.claim_end_time(), 48);
    assert_eq!(request.first_req_frame(&RequestOffset::new(2)), Some(43));
}

#[test]
fn sweep_stops_at_the_first_frame_after_the_attack() {
    let mut track = EnemyTrack::new(vec![Attack::new(5, vec![0], vec![]).unwrap()]);
    // frames 20, 40, 22: the sweep stops at 40 and leaves 22 open
    let mut request = ComplementAttackRequest::new(&[20, 40, 22], 100, 0).unwrap();
    let mut offers = track.possible_now_commits(&request, &RequestOffset::new_default(), 0);
    assert_eq!(pairs(&offers), vec![(0, 20)]);
    track.commit(&mut request, offers.swap_remove(0));
    assert_eq!(open_frames(&request), vec![40, 22]);
    assert_eq!(request.claim_end_time(), 100);
}

#[test]
fn oldest_commitment_goes_when_it_is_over() {
    let mut track = EnemyTrack::new(vec![Attack::new(10, vec![1], vec![]).unwrap()]);
    assert!(track.commit_by_index(0, 5, 0));
    assert!(track.commit_by_index(0, 20, 0));
    track.update_latest_nonpast(14);
    assert_eq!(track.latest_nonpast_commit().unwrap().get_start_frame(), 5);
    track.update_latest_nonpast(15);
    assert_eq!(track.latest_nonpast_commit().unwrap().get_start_frame(), 20);
    track.update_latest_nonpast(40);
    assert!(track.latest_nonpast_commit().is_none());
    track.update_latest_nonpast(40);
    assert!(track.latest_nonpast_commit().is_none());
    assert_eq!(track.first_actionable_frame(41), 41);
}

#[test]
fn reset_keeps_only_a_commitment_that_has_begun() {
    let mut track = EnemyTrack::new(vec![Attack::new(10, vec![1], vec![]).unwrap()]);
    assert!(track.commit_by_index(0, 5, 0));
    assert!(track.commit_by_index(0, 20, 0));
    track.reset_non_current(5);
    assert_eq!(track.first_actionable_frame(5), 15);
    assert_eq!(track.latest_nonpast_commit().unwrap().get_start_frame(), 5);
    assert!(track.commit_by_index(0, 20, 5));
    track.update_latest_nonpast(15);
    track.reset_non_current(19);
    assert!(track.latest_nonpast_commit().is_none());
    assert_eq!(track.first_actionable_frame(19), 19);
}

#[test]
fn active_commit_is_the_oldest_while_it_runs() {
    let mut track = EnemyTrack::new(vec![Attack::new(10, vec![1], vec![]).unwrap()]);
    assert!(track.active_commit_at(5).is_none());
    assert!(track.commit_by_index(0, 5, 0));
    assert!(track.active_commit_at(4).is_none());
    assert_eq!(track.active_commit_at(5).unwrap().get_start_frame(), 5);
    assert_eq!(track.active_commit_at(14).unwrap().get_start_frame(), 5);
    assert!(track.active_commit_at(15).is_none());
}

#[test]
fn uncommit_opens_what_the_effects_had_claimed() {
    let mut track = EnemyTrack::new(vec![Attack::new(20, vec![8, 16], vec![]).unwrap()]);
    let mut request = request_of(Attack::new(30, vec![], vec![20, 28]).unwrap());
    assert!(!track.uncommit(&mut request));
    assert!(track.commit_request_and_index(&mut request, 0, 0));
    assert!(open_frames(&request).is_empty());
    assert_eq!(track.first_actionable_frame(0), 32);
    assert!(track.uncommit(&mut request));
    assert_eq!(open_frames(&request), vec![20, 28]);
    assert_eq!(track.first_actionable_frame(0), 0);
    // the horizon stays where the commit moved it
    assert_eq!(request.claim_end_time(), 32);
}

#[test]
fn can_meet_request_commits_looks_under_the_cursor() {
    let track = EnemyTrack::new(vec![
        Attack::new(10, vec![1, 9], vec![2]).unwrap(),
        Attack::new(13, vec![12], vec![4]).unwrap(),
    ]);
    let mut request = request_of(Attack::new(30, vec![], vec![20, 28]).unwrap());
    assert_eq!(pairs(&track.can_meet_request_commits(&request, 0)), vec![(0, 19), (1, 8)]);
    request.set_claimed(0, true);
    assert!(track.can_meet_request_commits(&request, 0).is_empty());
    assert!(request.advance_to_unclaimed());
    assert_eq!(pairs(&track.can_meet_request_commits(&request, 0)), vec![(0, 27), (1, 16)]);
    let able: Vec<usize> = track
        .can_meet_request(&request, 0)
        .iter()
        .map(|attack| attack.get_index())
        .collect();
    assert_eq!(able, vec![0, 1]);
    assert_eq!(
        track.can_meet_request(&request, 0)[1].start_frame_and_index(28, 0),
        Some((1, 16))
    );
    assert_eq!(
        track.can_meet_request(&request, 0)[1].start_frame_and_index(28, 17),
        None
    );
    assert_eq!(
        track.can_meet_request(&request, 0)[1].get_attack().get_full_duration(),
        13
    );
}

#[test]
fn can_meet_multuple_request() {
    let mut mock_track = EnemyTrack::new(vec![
        Attack::new(10, vec![1, 9], vec![2]).unwrap(),
        Attack::new(13, vec![12], vec![4]).unwrap(),
    ]);

    let src = Attack::new(30, vec![], vec![20, 28]).unwrap();

    let mut src_request = request_of(src);
    let can_meet: Vec<usize> = mock_track
        .can_meet_request(&src_request, 0)
        .iter()
        .map(|attack| attack.get_index())
        .collect();

    assert_eq!(can_meet.len(), 2);

    let second_opt = can_meet[1];
    mock_track.commit_request_and_index(&mut src_request, second_opt, 0);
    assert!(src_request.advance_to_unclaimed());

    let new_can_meet: Vec<usize> = mock_track
        .can_meet_request(&src_request, 0)
        .iter()
        .map(|attack| attack.get_index())
        .collect();

    // the track is busy until frame 21, which leaves the first attack only
    assert_eq!(new_can_meet.len(), 1);
    mock_track.commit_request_and_index(&mut src_request, new_can_meet[0], 0);
    assert!(!src_request.advance_to_unclaimed());
}

#[test]
fn every_commitment_that_is_over_goes_at_once() {
    let mut track = EnemyTrack::new(vec![Attack::new(10, vec![1], vec![]).unwrap()]);
    assert!(track.commit_by_index(0, 5, 0));
    assert!(track.commit_by_index(0, 20, 0));
    assert!(track.commit_by_index(0, 35, 0));
    track.update_latest_nonpast(30);
    assert_eq!(track.latest_nonpast_commit().unwrap().get_start_frame(), 35);
    assert_eq!(track.first_actionable_frame(30), 45);
}
