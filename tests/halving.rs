use takzero::halving::Schedule;

#[test]
fn rounds_are_ceil_log2() {
    assert_eq!(Schedule::new(1, 100).rounds, 1);
    assert_eq!(Schedule::new(2, 100).rounds, 1);
    assert_eq!(Schedule::new(3, 100).rounds, 2);
    assert_eq!(Schedule::new(8, 100).rounds, 3);
    assert_eq!(Schedule::new(64, 100).rounds, 6);
    assert_eq!(Schedule::new(65, 100).rounds, 7);
}

#[test]
fn visits_per_candidate_formula() {
    let s = Schedule::new(64, 1024);
    // 1024 / (6 * 64) = 2
    assert_eq!(s.visits_per_candidate(), 2);
    let s = Schedule::new(64, 16);
    assert_eq!(s.visits_per_candidate(), 1);
}

#[test]
fn halving_tournament() {
    let mut s = Schedule::new(4, 16);
    let mut ranked = vec!['d', 'a', 'c', 'b'];
    assert!(!s.is_done());
    // 16 / (2 * 4) = 2 each
    s.finish_round(&mut ranked);
    assert_eq!(s.spent, 8);
    assert_eq!(s.remaining, 2);
    assert_eq!(ranked, vec!['d', 'a']);
    // 16 / (2 * 2) = 4 each
    s.finish_round(&mut ranked);
    assert_eq!(s.spent, 16);
    assert_eq!(s.remaining, 1);
    assert_eq!(ranked, vec!['d']);
    assert!(s.is_done());
}

#[test]
fn single_candidate_is_never_dropped() {
    let mut s = Schedule::new(1, 10);
    let mut ranked = vec![42u32];
    let mut rounds = 0;
    while !s.is_done() {
        s.finish_round(&mut ranked);
        assert_eq!(ranked, vec![42]);
        assert_eq!(s.remaining, 1);
        rounds += 1;
    }
    assert_eq!(rounds, 1);
    assert_eq!(s.spent, 10);
}

#[test]
fn spent_is_capped_at_budget() {
    let mut s = Schedule::new(8, 5);
    let mut ranked: Vec<u8> = (0..8).collect();
    s.finish_round(&mut ranked);
    assert_eq!(s.spent, 5);
    assert_eq!(ranked.len(), 4);
}
