use rust_solver::enemy_track::complement_attack_request::request_offset::RequestOffset;
use rust_solver::enemy_track::complement_attack_request::ComplementAttackRequest;

#[test]
fn complement_attack_request_test_filter() {
    let mut req = ComplementAttackRequest::new(&vec![20, 32, 40], 100, 0).unwrap();
    req.set_claimed(2, true);

    assert_eq!(req.iter_skip_start(&RequestOffset::new_default()), vec![32]);
}

#[test]
fn complement_attack_request_test_filter_first() {
    let offset = RequestOffset::new_default();
    let mut req = ComplementAttackRequest::new(&vec![20, 32, 40, 90], 100, 0).unwrap();
    req.set_claimed(2, true);
    req.set_claimed(0, true);

    assert_eq!(req.iter_skip_start(&offset), vec![32, 90]);

    req.set_claimed(2, false);

    assert_eq!(req.iter_skip_start(&offset), vec![32, 40, 90]);
}

#[test]
fn test_skip() {
    let mut offset = RequestOffset::new_default();
    let mut req = ComplementAttackRequest::new(&vec![20, 32, 40, 90], 100, 0).unwrap();
    req.set_claimed(2, true);
    req.set_claimed(0, true);

    offset = req.skip(offset).unwrap();
    assert_eq!(req.iter_skip_start(&offset), vec![90]);

    req.set_claimed(2, false);

    assert_eq!(req.iter_skip_start(&offset), vec![40, 90]);
}

#[test]
fn test_offset() {
    let mut offset = RequestOffset::new_default();
    let mut req = ComplementAttackRequest::new(&vec![20, 32, 40, 90], 100, 20).unwrap();
    req.set_claimed(2, true);

    assert_eq!(req.iter_skip_start(&offset), vec![52, 110]);

    assert_eq!(req.first_req_frame(&offset), Some(40));

    offset = req.skip(offset).unwrap();

    assert_eq!(req.first_req_frame(&offset), Some(52));
}

#[test]
fn new_without_frames_gives_nothing() {
    assert!(ComplementAttackRequest::new(&[], 100, 0).is_none());
}

#[test]
fn horizon_is_duration_after_start() {
    let req = ComplementAttackRequest::new(&[1], 100, 20).unwrap();
    assert_eq!(req.claim_end_time(), 120);
}

#[test]
fn first_req_frame_of_claimed_or_missing_frame() {
    let mut req = ComplementAttackRequest::new(&[20, 32], 100, 0).unwrap();
    req.set_claimed(0, true);
    assert_eq!(req.first_req_frame(&RequestOffset::new(0)), None);
    assert_eq!(req.first_req_frame(&RequestOffset::new(1)), Some(32));
    assert_eq!(req.first_req_frame(&RequestOffset::new(2)), None);
    assert_eq!(req.first_req_frame(&RequestOffset::new(usize::MAX)), None);
}

#[test]
fn skip_ends_behind_the_last_unclaimed_frame() {
    let mut req = ComplementAttackRequest::new(&[20, 32, 40], 100, 0).unwrap();
    req.set_claimed(2, true);
    let at = req.skip(RequestOffset::new_default()).unwrap();
    assert_eq!(at.get(), 1);
    assert!(req.skip(at).is_none());
    assert!(req.skip(RequestOffset::new(7)).is_none());
    assert!(req.skip(RequestOffset::new(usize::MAX)).is_none());
}

#[test]
fn next_unclaimed_starts_at_the_given_place() {
    let mut req = ComplementAttackRequest::new(&[20, 32, 40], 100, 0).unwrap();
    assert_eq!(req.next_unclaimed(RequestOffset::new(1)).unwrap().get(), 1);
    req.set_claimed(1, true);
    assert_eq!(req.next_unclaimed(RequestOffset::new(1)).unwrap().get(), 2);
    req.set_claimed(2, true);
    assert!(req.next_unclaimed(RequestOffset::new(1)).is_none());
    assert_eq!(req.next_unclaimed(RequestOffset::new(0)).unwrap().get(), 0);
}

#[test]
fn cursor_advances_and_comes_back() {
    let mut req = ComplementAttackRequest::new(&[20, 32, 40], 100, 0).unwrap();
    let mark = req.get_restore_point();
    assert_eq!(mark.get(), 0);
    req.set_claimed(0, true);
    req.set_claimed(1, true);
    assert!(req.advance_to_unclaimed());
    assert_eq!(req.current_offset().get(), 2);
    assert_eq!(req.start_frame(), 40);
    req.restore(mark);
    assert_eq!(req.current_offset().get(), 0);
    assert_eq!(req.claim_end_time(), 100);
    assert_eq!(req.iter_skip_start(&RequestOffset::new_default()), vec![40]);
}

#[test]
fn cursor_rests_on_last_frame_when_all_are_claimed() {
    let mut req = ComplementAttackRequest::new(&[20, 32, 40], 100, 0).unwrap();
    req.set_claimed(0, true);
    req.set_claimed(1, true);
    req.set_claimed(2, true);
    assert!(!req.advance_to_unclaimed());
    assert_eq!(req.current_offset().get(), 2);
}

#[test]
fn cursor_goes_back_over_unclaimed_frames() {
    let mut req = ComplementAttackRequest::new(&[20, 32, 40, 90], 100, 0).unwrap();
    req.set_claimed(0, true);
    req.set_claimed(3, true);
    assert!(req.advance_to_unclaimed());
    assert_eq!(req.current_offset().get(), 1);
    req.set_claimed(1, true);
    req.set_claimed(2, true);
    assert!(!req.advance_to_unclaimed());
    assert_eq!(req.current_offset().get(), 3);
    req.set_claimed(1, false);
    req.set_claimed(2, false);
    req.prev_unclaimed();
    assert_eq!(req.current_offset().get(), 1);
    req.set_claimed(0, false);
    req.prev_unclaimed();
    assert_eq!(req.current_offset().get(), 0);
}

#[test]
fn test_filter() {
    let mut req = ComplementAttackRequest::new(&vec![20, 32, 40], 100, 0).unwrap();
    req.set_claimed(2, true);

    assert_eq!(req.iter_skip_start(&req.current_offset()), vec![32]);
}

#[test]
fn test_filter_first() {
    let mut req = ComplementAttackRequest::new(&vec![20, 32, 40, 90], 100, 0).unwrap();
    req.set_claimed(2, true);
    req.set_claimed(0, true);

    assert_eq!(req.iter_skip_start(&req.current_offset()), vec![32, 90]);

    req.set_claimed(2, false);

    assert_eq!(req.iter_skip_start(&req.current_offset()), vec![32, 40, 90]);
}
