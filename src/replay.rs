use vstd::prelude::*;

verus! {

/// A window of play: the position where it starts and the actions taken from
/// there, at most the temporal-difference step many.
pub struct Replay<E, A> {
    pub env: E,
    pub actions: Vec<A>,
}

impl<E, A> Replay<E, A> {
    /// The window holds at most `step` actions.
    pub open spec fn wf(self, step: int) -> bool {
        self.actions@.len() <= step
    }

    /// An empty window starting at `env`.
    pub fn new(env: E) -> (r: Self)
        ensures
            r.env == env,
            r.actions@.len() == 0,
    {
        Replay { env, actions: Vec::new() }
    }

    /// Number of actions in the window.
    pub fn len(&self) -> (r: usize)
        ensures
            r == self.actions@.len(),
    {
        self.actions.len()
    }
}

/// The windows of one game in progress: one per ply played, in order, and
/// each holding the actions of its ply and those after it, up to `step`.
pub open spec fn staircase<E, A>(windows: Seq<Replay<E, A>>, step: int) -> bool {
    forall|i: int|
        0 <= i < windows.len() ==> #[trigger] windows[i].actions@.len() == if windows.len() - i
            < step {
            windows.len() - i
        } else {
            step
        }
}

/// No window of a game in progress holds more than `step` actions.
pub proof fn lemma_windows_bounded<E, A>(windows: Seq<Replay<E, A>>, step: int)
    requires
        staircase(windows, step),
    ensures
        forall|i: int| 0 <= i < windows.len() ==> #[trigger] windows[i].wf(step),
{
    assert forall|i: int| 0 <= i < windows.len() implies #[trigger] windows[i].wf(step) by {
        assert(windows[i].actions@.len() == if windows.len() - i < step {
            windows.len() - i
        } else {
            step
        });
    }
}

/// Index of the first window that still takes actions once a game has
/// `n` windows.
pub open spec fn open_from(n: int, step: int) -> int {
    if n < step {
        0
    } else {
        n - step
    }
}

/// Records that `action` was played in the position `env`: a new window
/// starts there, and `action` is appended to each of the last `step` windows
/// (the new one included).
pub fn record_action<E, A: Copy>(windows: &mut Vec<Replay<E, A>>, env: E, action: A, step: usize)
    requires
        step > 0,
        old(windows)@.len() < usize::MAX,
    ensures
        final(windows)@.len() == old(windows)@.len() + 1,
        final(windows)@.last().env == env,
        final(windows)@.last().actions@ == seq![action],
        forall|i: int|
            0 <= i < old(windows)@.len() ==> {
                &&& #[trigger] final(windows)@[i].env == old(windows)@[i].env
                &&& final(windows)@[i].actions@ == if i >= open_from(
                    old(windows)@.len() + 1int,
                    step as int,
                ) {
                    old(windows)@[i].actions@.push(action)
                } else {
                    old(windows)@[i].actions@
                }
            },
        staircase(old(windows)@, step as int) ==> staircase(final(windows)@, step as int),
{
    let mut fresh = Replay::new(env);
    fresh.actions.push(action);
    windows.push(fresh);
    let n = windows.len();
    let from: usize = if n < step {
        0
    } else {
        n - step
    };
    let ghost pushed = windows@;
    let mut i: usize = from;
    while i + 1 < n
        invariant
            from <= i < n,
            n == windows@.len(),
            n == pushed.len(),
            from == open_from(n as int, step as int),
            forall|j: int| 0 <= j < n ==> #[trigger] windows@[j].env == pushed[j].env,
            forall|j: int|
                0 <= j < n ==> #[trigger] windows@[j].actions@ == if from <= j < i {
                    pushed[j].actions@.push(action)
                } else {
                    pushed[j].actions@
                },
        decreases n - i,
    {
        windows[i].actions.push(action);
        i = i + 1;
    }
    proof {
        assert(windows@[n - 1].env == pushed[n - 1].env);
        assert(windows@[n - 1].actions@ == pushed[n - 1].actions@);
        if staircase(old(windows)@, step as int) {
            assert forall|j: int| 0 <= j < windows@.len() implies #[trigger] windows@[j].actions@.len()
                == if windows@.len() - j < step {
                windows@.len() - j
            } else {
                step as int
            } by {
                if j < old(windows)@.len() {
                    assert(old(windows)@[j].actions@.len() == if old(windows)@.len() - j < step {
                        old(windows)@.len() - j
                    } else {
                        step as int
                    });
                }
            }
        }
    }
}

/// The windows of a game cut short: the leading ones are returned, and the
/// last `step` of them (the ones still short of `step` actions in a
/// staircase) are dropped. `windows` is left empty.
pub fn salvage<E, A>(windows: &mut Vec<Replay<E, A>>, step: usize) -> (r: Vec<Replay<E, A>>)
    ensures
        r@ == old(windows)@.take(open_from(old(windows)@.len() as int, step as int)),
        old(windows)@.len() - r@.len() <= step,
        final(windows)@.len() == 0,
        staircase(old(windows)@, step as int) ==> forall|i: int|
            0 <= i < r@.len() ==> #[trigger] r@[i].actions@.len() == step,
{
    let n = windows.len();
    let keep: usize = if n < step {
        0
    } else {
        n - step
    };
    windows.truncate(keep);
    let mut kept: Vec<Replay<E, A>> = Vec::new();
    std::mem::swap(windows, &mut kept);
    proof {
        if staircase(old(windows)@, step as int) {
            assert forall|i: int| 0 <= i < kept@.len() implies #[trigger] kept@[i].actions@.len()
                == step by {
                assert(old(windows)@[i].actions@.len() == if old(windows)@.len() - i < step {
                    old(windows)@.len() - i
                } else {
                    step as int
                });
            }
        }
    }
    kept
}

} // verus!
