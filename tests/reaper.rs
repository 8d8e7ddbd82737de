use score_server::reaper::IdleReaper;

#[test]
fn players_present_never_terminates() {
    let mut r = IdleReaper::new(100);
    for t in [0u64, 50, 500, 5000] {
        assert!(!r.tick(3, t));
        assert_eq!(r.idle_since(), None);
    }
}

#[test]
fn empty_for_threshold_terminates() {
    let mut r = IdleReaper::new(1200);
    assert!(!r.tick(0, 30));
    assert_eq!(r.idle_since(), Some(30));
    assert!(!r.tick(0, 1200));
    assert!(r.tick(0, 1230));
}

#[test]
fn rejoin_resets_timer() {
    let mut r = IdleReaper::new(100);
    assert!(!r.tick(0, 0));
    assert!(!r.tick(1, 60));
    assert_eq!(r.idle_since(), None);
    assert!(!r.tick(0, 120));
    assert!(!r.tick(0, 180));
    assert!(r.tick(0, 220));
}

#[test]
fn zero_threshold_terminates_on_first_empty_check() {
    let mut r = IdleReaper::new(0);
    assert!(r.tick(0, 10));
}
