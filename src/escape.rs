//! The escape-time rule for one sample `c` of the complex plane.
//!
//! The orbit `z_0 = c`, `z_{n+1} = z_n^2 + c` is computed by the caller in
//! floating point; before each step the caller reports whether the current
//! iterate has left the disc of radius 2 (`re^2 + im^2 >= 4`). The state
//! machine here decides when to stop and which count to report.
use vstd::prelude::*;

verus! {

/// Where the escape test of one sample stands.
#[derive(Clone, Copy, Debug, PartialEq, Eq, Structural)]
pub enum EscapeState {
    /// The iterate with this index is the next one to test.
    Pending { iteration: u16 },
    /// The sample's iteration count is known.
    Done { count: u16 },
}

/// The escape time of an orbit whose test outcomes are `outcomes`
/// (`outcomes[i]` holds when iterate `i` lies outside the disc of radius 2),
/// with a budget of `cap` iterations: the index of the first outcome that
/// holds among the first `cap`, or `cap` when none does.
pub open spec fn escape_time(outcomes: Seq<bool>, cap: nat) -> nat
    decreases cap,
{
    if cap == 0 {
        0
    } else if outcomes[0] {
        0
    } else {
        1 + escape_time(outcomes.drop_first(), (cap - 1) as nat)
    }
}

/// The state before the first test, for a budget of `cap` iterations.
pub open spec fn start_spec(cap: u16) -> EscapeState {
    if cap == 0 {
        EscapeState::Done { count: 0 }
    } else {
        EscapeState::Pending { iteration: 0 }
    }
}

/// One decision: the outcome `escaped` of the test of the pending iterate.
pub open spec fn step_spec(s: EscapeState, cap: u16, escaped: bool) -> EscapeState {
    match s {
        EscapeState::Pending { iteration } => if escaped {
            EscapeState::Done { count: iteration }
        } else if iteration + 1 >= cap {
            EscapeState::Done { count: cap }
        } else {
            EscapeState::Pending { iteration: (iteration + 1) as u16 }
        },
        EscapeState::Done { .. } => s,
    }
}

/// The state reached from `s` by feeding the outcomes in order, stopping as
/// soon as the count is known.
pub open spec fn drive(s: EscapeState, cap: u16, outcomes: Seq<bool>) -> EscapeState
    decreases outcomes.len(),
{
    match s {
        EscapeState::Done { .. } => s,
        EscapeState::Pending { .. } => if outcomes.len() == 0 {
            s
        } else {
            drive(step_spec(s, cap, outcomes[0]), cap, outcomes.drop_first())
        },
    }
}

impl EscapeState {
    /// Whether the state may take another outcome under a budget of `cap`.
    pub open spec fn ready(self, cap: u16) -> bool {
        match self {
            EscapeState::Pending { iteration } => iteration < cap,
            EscapeState::Done { .. } => false,
        }
    }

    /// The state before the first test. With a budget of zero iterations the
    /// count is zero at once, without any test.
    pub fn start(max_iterations: u16) -> (r: EscapeState)
        ensures
            r == start_spec(max_iterations),
            r is Pending ==> r.ready(max_iterations),
    {
        if max_iterations == 0 {
            EscapeState::Done { count: 0 }
        } else {
            EscapeState::Pending { iteration: 0 }
        }
    }

    /// Takes the outcome of the test of the pending iterate: a hit ends with
    /// that iterate's index; a miss on the last iterate of the budget ends
    /// with the budget itself; any other miss moves on to the next iterate.
    pub fn step(self, max_iterations: u16, escaped: bool) -> (r: EscapeState)
        requires
            self.ready(max_iterations),
        ensures
            r == step_spec(self, max_iterations, escaped),
            r is Pending ==> r.ready(max_iterations),
    {
        match self {
            EscapeState::Pending { iteration } => {
                if escaped {
                    EscapeState::Done { count: iteration }
                } else if iteration + 1 >= max_iterations {
                    EscapeState::Done { count: max_iterations }
                } else {
                    EscapeState::Pending { iteration: iteration + 1 }
                }
            },
            EscapeState::Done { .. } => self,
        }
    }

    /// The iteration count, once it is known.
    pub fn count(self) -> (r: Option<u16>)
        ensures
            r == match self {
                EscapeState::Done { count } => Some(count),
                EscapeState::Pending { .. } => None::<u16>,
            },
    {
        match self {
            EscapeState::Done { count } => Some(count),
            EscapeState::Pending { .. } => None,
        }
    }
}

proof fn lemma_drive_from_pending(iteration: u16, cap: u16, outcomes: Seq<bool>)
    requires
        iteration < cap,
        outcomes.len() >= cap - iteration,
    ensures
        drive(EscapeState::Pending { iteration }, cap, outcomes) == (EscapeState::Done {
            count: (iteration + escape_time(outcomes, (cap - iteration) as nat)) as u16,
        }),
        iteration + escape_time(outcomes, (cap - iteration) as nat) <= cap,
    decreases outcomes.len(),
{
    let s = EscapeState::Pending { iteration };
    let rest = outcomes.drop_first();
    let n = (cap - iteration) as nat;
    assert(drive(s, cap, outcomes) == drive(step_spec(s, cap, outcomes[0]), cap, rest));
    if outcomes[0] {
        assert(escape_time(outcomes, n) == 0);
    } else {
        assert(escape_time(outcomes, n) == 1 + escape_time(rest, (n - 1) as nat));
        if iteration + 1 < cap {
            lemma_drive_from_pending((iteration + 1) as u16, cap, rest);
        } else {
            assert(escape_time(rest, 0) == 0);
        }
    }
}

/// Feeding the test outcomes of an orbit, in order, into the machine from its
/// start yields the escape time of that orbit, and never more than the budget.
pub proof fn lemma_drive_yields_escape_time(cap: u16, outcomes: Seq<bool>)
    requires
        outcomes.len() >= cap,
    ensures
        drive(start_spec(cap), cap, outcomes) == (EscapeState::Done {
            count: escape_time(outcomes, cap as nat) as u16,
        }),
        escape_time(outcomes, cap as nat) <= cap,
{
    if cap > 0 {
        lemma_drive_from_pending(0, cap, outcomes);
    }
}

/// An orbit whose first iterate already lies outside the disc of radius 2
/// has escape time zero under any budget of at least one iteration.
pub proof fn lemma_first_test_escapes(outcomes: Seq<bool>, cap: nat)
    requires
        cap >= 1,
        outcomes.len() >= 1,
        outcomes[0],
    ensures
        escape_time(outcomes, cap) == 0,
{
}

/// An orbit none of whose first `cap` iterates leaves the disc of radius 2
/// saturates at the budget.
pub proof fn lemma_bounded_orbit_saturates(outcomes: Seq<bool>, cap: nat)
    requires
        outcomes.len() >= cap,
        forall|i: int| 0 <= i < cap ==> !outcomes[i],
    ensures
        escape_time(outcomes, cap) == cap,
    decreases cap,
{
    if cap > 0 {
        let rest = outcomes.drop_first();
        assert forall|i: int| 0 <= i < cap - 1 implies !rest[i] by {
            assert(rest[i] == outcomes[i + 1]);
        }
        lemma_bounded_orbit_saturates(rest, (cap - 1) as nat);
    }
}

} // verus!
