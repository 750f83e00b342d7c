//! The order and the rules by which a database file is brought up to date
//! each time it is opened. The table is made if it is not there; then each
//! later column is added, and an addition that fails (because the column is
//! there already) is passed over.

use vstd::prelude::*;

verus! {

/// One statement of the run.
#[derive(Debug, Clone, Copy, PartialEq, Eq, Structural)]
pub enum Step {
    /// Makes the table of records if the file has none.
    CreateTable,
    /// Adds the column for the time spent.
    AddDuration,
    /// Adds the column for the game.
    AddGame,
    /// Adds the column for the paid-out flag.
    AddSettled,
}

/// What to do next.
#[derive(Debug, Clone, Copy, PartialEq, Eq, Structural)]
pub enum Progress {
    /// Run this statement.
    Run(Step),
    /// The file is up to date.
    Done,
    /// The run is given up: a statement failed that must not.
    Failed,
}

impl Step {
    /// Whether the run cannot go on when the statement fails.
    pub open spec fn is_required(self) -> bool {
        self == Step::CreateTable
    }

    /// What follows the statement when it has run.
    pub open spec fn next(self) -> Progress {
        match self {
            Step::CreateTable => Progress::Run(Step::AddDuration),
            Step::AddDuration => Progress::Run(Step::AddGame),
            Step::AddGame => Progress::Run(Step::AddSettled),
            Step::AddSettled => Progress::Done,
        }
    }

    /// What follows the statement, given whether it succeeded.
    pub open spec fn followed_by(self, succeeded: bool) -> Progress {
        if !succeeded && self.is_required() {
            Progress::Failed
        } else {
            self.next()
        }
    }

    /// Tells whether the run cannot go on when the statement fails.
    pub fn required(&self) -> (b: bool)
        ensures
            b == self.is_required(),
    {
        match self {
            Step::CreateTable => true,
            _ => false,
        }
    }
}

/// How the run ends when it starts at `progress` and the statements succeed
/// or fail as `outcome` says of each.
pub open spec fn run_from(progress: Progress, outcome: spec_fn(Step) -> bool) -> Progress
    decreases steps_left(progress),
{
    match progress {
        Progress::Run(step) => run_from(step.followed_by(outcome(step)), outcome),
        _ => progress,
    }
}

/// The number of statements that a run at `progress` has before it at most.
pub open spec fn steps_left(progress: Progress) -> nat {
    match progress {
        Progress::Run(Step::CreateTable) => 4,
        Progress::Run(Step::AddDuration) => 3,
        Progress::Run(Step::AddGame) => 2,
        Progress::Run(Step::AddSettled) => 1,
        _ => 0,
    }
}

/// The first thing to do on opening a file.
pub fn begin() -> (progress: Progress)
    ensures
        progress == Progress::Run(Step::CreateTable),
{
    Progress::Run(Step::CreateTable)
}

/// What to do after `step`, given whether it succeeded.
pub fn advance(step: Step, succeeded: bool) -> (progress: Progress)
    ensures
        progress == step.followed_by(succeeded),
{
    if !succeeded && step.required() {
        return Progress::Failed;
    }
    match step {
        Step::CreateTable => Progress::Run(Step::AddDuration),
        Step::AddDuration => Progress::Run(Step::AddGame),
        Step::AddGame => Progress::Run(Step::AddSettled),
        Step::AddSettled => Progress::Done,
    }
}

/// A run ends well exactly when the table could be made: whether the
/// additions succeed or fail makes no difference, so a file that has all
/// its columns already is opened without error.
pub proof fn lemma_additions_never_fail(outcome: spec_fn(Step) -> bool)
    ensures
        run_from(Progress::Run(Step::CreateTable), outcome) == if outcome(Step::CreateTable) {
            Progress::Done
        } else {
            Progress::Failed
        },
{
    reveal_with_fuel(run_from, 5);
}

} // verus!
