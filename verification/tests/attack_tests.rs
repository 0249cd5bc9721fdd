use rust_solver::attack::Attack;

#[test]
fn attack_start_frame_valid() {
    let a = Attack::new_expect(10, vec![8], vec![4]);
    assert_eq!(a.get_start_frame(15, 0), Some(7));
}

#[test]
fn attack_start_frame_invalid_due_to_actionable() {
    let a = Attack::new_expect(10, vec![8], vec![4]);
    assert_eq!(a.get_start_frame(15, 8), None);
}

#[test]
fn attack_start_frame_invalid_due_to_move_length() {
    let a = Attack::new(10, vec![16], vec![4]);
    assert!(a.is_none());
}

#[test]
fn attack_test_offsetting() {
    let a = Attack::new_expect(30, vec![8, 10, 24], vec![4]);
    let mut expected = vec![28, 30, 44];
    for n in a.get_active_frames(20) {
        assert_eq!(expected.remove(0), n);
    }
    assert!(expected.is_empty());
}

#[test]
fn cooldown_valid() {
    let a = Attack::new(10, vec![8], vec![4]).unwrap();
    assert_eq!(a.get_cooldown(), 2);
}

#[test]
fn start_frame_valid() {
    let a = Attack::new(10, vec![8], vec![4]).unwrap();
    assert_eq!(a.get_start_frame(15, 0), Some(7));
}

#[test]
fn start_frame_invalid_due_to_actionable() {
    let a = Attack::new(10, vec![8], vec![4]).unwrap();
    assert_eq!(a.get_start_frame(15, 8), None);
}

#[test]
fn start_frame_invalid_due_to_move_length() {
    let a = Attack::new(10, vec![16], vec![4]);
    assert_eq!(a.and_then(|a| a.get_start_frame(15, 0)), None);
}

#[test]
fn cooldown_without_effect_is_whole_duration() {
    let a = Attack::new(10, vec![], vec![4]).unwrap();
    assert_eq!(a.get_cooldown(), 10);
    assert_eq!(a.get_end_frame(), None);
}

#[test]
fn end_frame_counts_from_last_effect() {
    let a = Attack::new(30, vec![8, 10, 24], vec![4]).unwrap();
    assert_eq!(a.get_end_frame(), Some(6));
    assert_eq!(a.get_full_duration(), 30);
    assert_eq!(a.active_request_frames(), &vec![4]);
}

#[test]
fn new_refuses_unsorted_effects() {
    assert!(Attack::new(30, vec![10, 8], vec![4]).is_none());
}

#[test]
fn new_refuses_unsorted_demands() {
    assert!(Attack::new(30, vec![8], vec![6, 4]).is_none());
}

#[test]
fn new_refuses_demand_at_duration() {
    assert!(Attack::new(10, vec![8], vec![10]).is_none());
    assert!(Attack::new(10, vec![8], vec![9]).is_some());
}

#[test]
fn new_accepts_repeated_offsets() {
    let a = Attack::new(10, vec![3, 3, 7], vec![2, 2]).unwrap();
    assert_eq!(a.get_active_frames(1), vec![4, 4, 8]);
}

#[test]
fn new_accepts_attack_without_frames() {
    let a = Attack::new(0, vec![], vec![]).unwrap();
    assert_eq!(a.get_start_frame(15, 0), None);
    assert!(a.to_request(3).is_none());
}

#[test]
fn start_frame_at_the_floor() {
    let a = Attack::new(10, vec![8], vec![4]).unwrap();
    assert_eq!(a.get_start_frame(15, 7), Some(7));
    assert_eq!(a.get_start_frame(8, 0), Some(0));
    assert_eq!(a.get_start_frame(7, 0), None);
}

#[test]
fn start_frame_near_the_end_of_the_range() {
    let a = Attack::new(10, vec![8], vec![4]).unwrap();
    assert_eq!(a.get_start_frame(u64::MAX, u64::MAX - 8), Some(u64::MAX - 8));
    assert_eq!(a.get_start_frame(u64::MAX, u64::MAX), None);
    assert_eq!(a.get_start_frame(20, u64::MAX), None);
}

#[test]
fn start_frame_round_trip() {
    let a = Attack::new(30, vec![8, 10, 24], vec![4]).unwrap();
    let start = a.get_start_frame(40, 5).unwrap();
    assert_eq!(start, 32);
    assert_eq!(a.get_active_frames(start)[0], 40);
    assert!(start + 8 >= 5);
}

#[test]
fn to_request_shifts_demands_and_sets_horizon() {
    let a = Attack::new(30, vec![8], vec![4, 20]).unwrap();
    let request = a.to_request(100).unwrap();
    assert_eq!(request.claim_end_time(), 130);
    assert_eq!(request.start_frame(), 104);
}

#[test]
fn test_offsetting() {
    let mut expected = vec![28, 30, 44];
    for n in rust_solver::attack::shift_all(&vec![8, 10, 24], 20) {
        assert_eq!(expected.remove(0), n);
    }
    assert!(expected.is_empty());
    assert!(Attack::new(10, vec![8, 10, 24], vec![4]).is_none());
}
