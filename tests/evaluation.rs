use takzero::env::{terminal, Color, GameOutcome, Terminal};
use takzero::evaluation::{record_round, Evaluation};

fn triple(e: &Evaluation) -> (u32, u32, u32) {
    (e.wins, e.losses, e.draws)
}

#[test]
fn single_results() {
    assert_eq!(triple(&Evaluation::new()), (0, 0, 0));
    assert_eq!(triple(&Evaluation::win()), (1, 0, 0));
    assert_eq!(triple(&Evaluation::loss()), (0, 1, 0));
    assert_eq!(triple(&Evaluation::draw()), (0, 0, 1));
}

#[test]
fn add_assign_and_sum() {
    let mut e = Evaluation { wins: 3, losses: 1, draws: 2 };
    e.add_assign(Evaluation { wins: 1, losses: 4, draws: 0 });
    assert_eq!(triple(&e), (4, 5, 2));
    let items = vec![Evaluation::win(), Evaluation::win(), Evaluation::draw(), Evaluation::loss()];
    assert_eq!(triple(&Evaluation::sum(&items)), (2, 1, 1));
    assert_eq!(triple(&Evaluation::sum(&vec![])), (0, 0, 0));
}

#[test]
fn outcome_is_seen_from_the_mover() {
    // The terminal state is read after the move, for the player now to move.
    assert_eq!(triple(&Evaluation::from_terminal(Terminal::Loss, true)), (1, 0, 0));
    assert_eq!(triple(&Evaluation::from_terminal(Terminal::Win, false)), (1, 0, 0));
    assert_eq!(triple(&Evaluation::from_terminal(Terminal::Win, true)), (0, 1, 0));
    assert_eq!(triple(&Evaluation::from_terminal(Terminal::Loss, false)), (0, 1, 0));
    assert_eq!(triple(&Evaluation::from_terminal(Terminal::Draw, true)), (0, 0, 1));
    assert_eq!(triple(&Evaluation::from_terminal(Terminal::Draw, false)), (0, 0, 1));
}

#[test]
fn reaches_threshold() {
    // 55 percent of decisive games, draws ignored.
    assert!(Evaluation { wins: 11, losses: 9, draws: 40 }.reaches(55, 100));
    assert!(!Evaluation { wins: 10, losses: 9, draws: 0 }.reaches(55, 100));
    assert!(Evaluation { wins: 1, losses: 0, draws: 0 }.reaches(55, 100));
    assert!(!Evaluation { wins: 0, losses: 0, draws: 7 }.reaches(55, 100));
    assert!(Evaluation { wins: u32::MAX, losses: u32::MAX, draws: 0 }.reaches(1, 2));
}

#[test]
fn record_round_counts_each_game_once() {
    let mut done = vec![false, true, false, false];
    let terminals = vec![Some(Terminal::Loss), Some(Terminal::Loss), None, Some(Terminal::Draw)];
    let e = record_round(&mut done, &terminals, true);
    assert_eq!(triple(&e), (1, 0, 1));
    assert_eq!(done, vec![true, true, false, true]);
    let e = record_round(&mut done, &vec![Some(Terminal::Win); 4], false);
    assert_eq!(triple(&e), (1, 0, 0));
    assert_eq!(done, vec![true; 4]);
}

#[test]
fn terminal_from_the_side_to_move() {
    assert_eq!(terminal(GameOutcome::Winner(Color::White), Color::White), Some(Terminal::Win));
    assert_eq!(terminal(GameOutcome::Winner(Color::White), Color::Black), Some(Terminal::Loss));
    assert_eq!(terminal(GameOutcome::Winner(Color::Black), Color::Black), Some(Terminal::Win));
    assert_eq!(terminal(GameOutcome::Draw, Color::Black), Some(Terminal::Draw));
    assert_eq!(terminal(GameOutcome::Ongoing, Color::White), None);
}

#[test]
fn terminal_scores() {
    assert_eq!(Terminal::Win.score(), 1);
    assert_eq!(Terminal::Loss.score(), -1);
    assert_eq!(Terminal::Draw.score(), 0);
    assert_eq!(Terminal::Win.negate(), Terminal::Loss);
    assert_eq!(Terminal::Loss.negate(), Terminal::Win);
    assert_eq!(Terminal::Draw.negate(), Terminal::Draw);
}
