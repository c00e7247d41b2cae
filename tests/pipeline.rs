use takzero::evaluation::Evaluation;
use takzero::pipeline::{Arena, Cadence, VersionTracker};

#[test]
fn tracker_refreshes_only_on_newer() {
    let mut t = VersionTracker::new(3);
    assert!(!t.refresh(3));
    assert!(!t.refresh(2));
    assert_eq!(t.index, 3);
    assert!(t.refresh(5));
    assert_eq!(t.index, 5);
}

#[test]
fn arena_waits_while_networks_match() {
    let mut arena = Arena::new(0);
    let step = arena.observe(0);
    assert!(step.reload);
    assert!(!step.pit);
    let step = arena.observe(2);
    assert!(step.reload);
    assert!(step.pit);
    assert_eq!(arena.beta_index, 2);
    assert_eq!(arena.omega_index, 0);
}

#[test]
fn arena_promotes_at_threshold() {
    let mut arena = Arena::new(0);
    arena.observe(4);
    assert!(!arena.record(Evaluation { wins: 5, losses: 5, draws: 3 }, 55, 100));
    assert_eq!(arena.omega_index, 0);
    assert!(arena.record(Evaluation { wins: 6, losses: 4, draws: 0 }, 55, 100));
    assert_eq!(arena.omega_index, 4);
    assert_eq!((arena.results.wins, arena.results.losses, arena.results.draws), (11, 9, 3));
    let step = arena.observe(4);
    assert!(step.reload);
    assert!(!step.pit);
    assert_eq!((arena.results.wins, arena.results.losses, arena.results.draws), (0, 0, 0));
}

#[test]
fn cadence_publishes_and_saves() {
    let mut c = Cadence::new(3, 2);
    let steps: Vec<(bool, bool)> = (0..12).map(|_| {
        let s = c.step();
        (s.publish, s.save)
    }).collect();
    let publishes: Vec<usize> = steps.iter().enumerate().filter(|(_, s)| s.0).map(|(i, _)| i + 1).collect();
    let saves: Vec<usize> = steps.iter().enumerate().filter(|(_, s)| s.1).map(|(i, _)| i + 1).collect();
    assert_eq!(publishes, vec![3, 6, 9, 12]);
    assert_eq!(saves, vec![6, 12]);
    assert_eq!(c.publishes, 4);
}
