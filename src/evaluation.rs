use vstd::prelude::*;

use crate::env::Terminal;

verus! {

/// Tally of finished games, from the point of view of the challenger network.
#[derive(Clone, Copy, Debug, PartialEq, Eq, Structural)]
pub struct Evaluation {
    pub wins: u32,
    pub losses: u32,
    pub draws: u32,
}

/// The tally that one finished game adds, given the terminal state seen by
/// the player to move after the last move, and whether the challenger made
/// that move.
pub open spec fn outcome_spec(terminal: Terminal, challenger_moved: bool) -> (int, int, int) {
    match (terminal, challenger_moved) {
        (Terminal::Loss, true) | (Terminal::Win, false) => (1, 0, 0),
        (Terminal::Win, true) | (Terminal::Loss, false) => (0, 1, 0),
        (Terminal::Draw, _) => (0, 0, 1),
    }
}

/// Component-wise total of `items[..n]`.
pub open spec fn total_upto(items: Seq<Evaluation>, n: int) -> (int, int, int)
    decreases n,
{
    if n <= 0 || n > items.len() {
        (0, 0, 0)
    } else {
        let t = total_upto(items, n - 1);
        (t.0 + items[n - 1].wins, t.1 + items[n - 1].losses, t.2 + items[n - 1].draws)
    }
}

/// What one round of moves adds to the tally: every game of `terminals[..n]`
/// that was still running and has just ended counts once.
pub open spec fn round_upto(
    done: Seq<bool>,
    terminals: Seq<Option<Terminal>>,
    challenger_moved: bool,
    n: int,
) -> (int, int, int)
    decreases n,
{
    if n <= 0 || n > done.len() || n > terminals.len() {
        (0, 0, 0)
    } else {
        let t = round_upto(done, terminals, challenger_moved, n - 1);
        match terminals[n - 1] {
            Some(term) => if done[n - 1] {
                t
            } else {
                let o = outcome_spec(term, challenger_moved);
                (t.0 + o.0, t.1 + o.1, t.2 + o.2)
            },
            None => t,
        }
    }
}

impl Evaluation {
    pub open spec fn triple(self) -> (int, int, int) {
        (self.wins as int, self.losses as int, self.draws as int)
    }

    /// The challenger's decisive games: wins and losses, draws left out.
    pub open spec fn decisive(self) -> int {
        self.wins + self.losses
    }

    /// The challenger's share of decisive games reaches `num / den`; with no
    /// decisive game it does not.
    pub open spec fn reaches_spec(self, num: int, den: int) -> bool {
        self.decisive() > 0 && self.wins * den >= num * self.decisive()
    }

    /// No game played yet.
    pub fn new() -> (r: Self)
        ensures
            r.triple() == (0int, 0int, 0int),
    {
        Evaluation { wins: 0, losses: 0, draws: 0 }
    }

    /// One win.
    pub fn win() -> (r: Self)
        ensures
            r.triple() == (1int, 0int, 0int),
    {
        Evaluation { wins: 1, losses: 0, draws: 0 }
    }

    /// One loss.
    pub fn loss() -> (r: Self)
        ensures
            r.triple() == (0int, 1int, 0int),
    {
        Evaluation { wins: 0, losses: 1, draws: 0 }
    }

    /// One draw.
    pub fn draw() -> (r: Self)
        ensures
            r.triple() == (0int, 0int, 1int),
    {
        Evaluation { wins: 0, losses: 0, draws: 1 }
    }

    /// Adds `rhs` to this tally.
    pub fn add_assign(&mut self, rhs: Self)
        requires
            old(self).wins + rhs.wins <= u32::MAX,
            old(self).losses + rhs.losses <= u32::MAX,
            old(self).draws + rhs.draws <= u32::MAX,
        ensures
            final(self).wins == old(self).wins + rhs.wins,
            final(self).losses == old(self).losses + rhs.losses,
            final(self).draws == old(self).draws + rhs.draws,
    {
        self.wins = self.wins + rhs.wins;
        self.losses = self.losses + rhs.losses;
        self.draws = self.draws + rhs.draws;
    }

    /// The component-wise total of `items`.
    pub fn sum(items: &Vec<Evaluation>) -> (r: Self)
        requires
            total_upto(items@, items@.len() as int).0 <= u32::MAX,
            total_upto(items@, items@.len() as int).1 <= u32::MAX,
            total_upto(items@, items@.len() as int).2 <= u32::MAX,
        ensures
            r.triple() == total_upto(items@, items@.len() as int),
    {
        let mut acc = Evaluation::new();
        let mut i: usize = 0;
        while i < items.len()
            invariant
                i <= items@.len(),
                acc.triple() == total_upto(items@, i as int),
                total_upto(items@, items@.len() as int).0 <= u32::MAX,
                total_upto(items@, items@.len() as int).1 <= u32::MAX,
                total_upto(items@, items@.len() as int).2 <= u32::MAX,
            decreases items@.len() - i,
        {
            proof {
                lemma_total_monotone(items@, i as int + 1, items@.len() as int);
            }
            acc.add_assign(items[i]);
            i = i + 1;
        }
        acc
    }

    /// The tally of one finished game, given the terminal state that the player
    /// to move sees after the last move and whether the challenger made it: a
    /// loss for the player to move is a win for the one who just moved.
    pub fn from_terminal(terminal: Terminal, challenger_moved: bool) -> (r: Self)
        ensures
            r.triple() == outcome_spec(terminal, challenger_moved),
    {
        match (terminal, challenger_moved) {
            (Terminal::Loss, true) | (Terminal::Win, false) => Evaluation::win(),
            (Terminal::Win, true) | (Terminal::Loss, false) => Evaluation::loss(),
            (Terminal::Draw, _) => Evaluation::draw(),
        }
    }

    /// Whether the challenger won at least `num / den` of its decisive games.
    pub fn reaches(&self, num: u32, den: u32) -> (r: bool)
        ensures
            r == self.reaches_spec(num as int, den as int),
    {
        let decisive: u128 = self.wins as u128 + self.losses as u128;
        if decisive == 0 {
            return false;
        }
        assert((self.wins as int) * (den as int) <= u32::MAX as int * u32::MAX as int) by (nonlinear_arith);
        assert((num as int) * decisive <= u32::MAX as int * (2 * u32::MAX as int)) by (nonlinear_arith)
            requires
                num <= u32::MAX,
                decisive <= 2 * u32::MAX as int,
        ;
        self.wins as u128 * den as u128 >= num as u128 * decisive
    }
}

/// Partial totals never exceed later ones.
pub proof fn lemma_total_monotone(items: Seq<Evaluation>, m: int, n: int)
    requires
        0 <= m <= n <= items.len(),
    ensures
        total_upto(items, m).0 <= total_upto(items, n).0,
        total_upto(items, m).1 <= total_upto(items, n).1,
        total_upto(items, m).2 <= total_upto(items, n).2,
    decreases n - m,
{
    if m < n {
        lemma_total_monotone(items, m, n - 1);
    }
}

/// Partial round tallies never exceed the number of games looked at.
proof fn lemma_round_bounded(
    done: Seq<bool>,
    terminals: Seq<Option<Terminal>>,
    challenger_moved: bool,
    n: int,
)
    requires
        0 <= n,
    ensures
        0 <= round_upto(done, terminals, challenger_moved, n).0 <= n,
        0 <= round_upto(done, terminals, challenger_moved, n).1 <= n,
        0 <= round_upto(done, terminals, challenger_moved, n).2 <= n,
    decreases n,
{
    if n > 0 {
        lemma_round_bounded(done, terminals, challenger_moved, n - 1);
    }
}

/// Books one round of moves across a batch of games: every game that was
/// still running and has now ended is marked done and counted once.
pub fn record_round(
    done: &mut Vec<bool>,
    terminals: &Vec<Option<Terminal>>,
    challenger_moved: bool,
) -> (r: Evaluation)
    requires
        old(done)@.len() == terminals@.len(),
        terminals@.len() <= u32::MAX,
    ensures
        final(done)@.len() == old(done)@.len(),
        forall|i: int|
            0 <= i < terminals@.len() ==> #[trigger] final(done)@[i] == (old(done)@[i]
                || terminals@[i] is Some),
        r.triple() == round_upto(old(done)@, terminals@, challenger_moved, terminals@.len() as int),
{
    let ghost before = done@;
    let mut acc = Evaluation::new();
    let mut i: usize = 0;
    while i < terminals.len()
        invariant
            i <= terminals@.len(),
            done@.len() == terminals@.len(),
            before.len() == terminals@.len(),
            terminals@.len() <= u32::MAX,
            forall|j: int| 0 <= j < i ==> #[trigger] done@[j] == (before[j] || terminals@[j] is Some),
            forall|j: int| i <= j < done@.len() ==> #[trigger] done@[j] == before[j],
            acc.triple() == round_upto(before, terminals@, challenger_moved, i as int),
        decreases terminals@.len() - i,
    {
        proof {
            lemma_round_bounded(before, terminals@, challenger_moved, i as int);
        }
        match terminals[i] {
            Some(t) => {
                if !done[i] {
                    acc.add_assign(Evaluation::from_terminal(t, challenger_moved));
                    done.set(i, true);
                }
            },
            None => {},
        }
        i = i + 1;
    }
    acc
}

} // verus!
