use jz::migration::{advance, begin, Progress, Step};

fn run(outcome: impl Fn(Step) -> bool) -> (Progress, Vec<Step>) {
    let mut ran = Vec::new();
    let mut progress = begin();
    while let Progress::Run(step) = progress {
        ran.push(step);
        progress = advance(step, outcome(step));
    }
    (progress, ran)
}

#[test]
fn a_new_file_runs_every_statement() {
    let (end, ran) = run(|_| true);
    assert_eq!(end, Progress::Done);
    assert_eq!(ran, vec![Step::CreateTable, Step::AddDuration, Step::AddGame, Step::AddSettled]);
}

#[test]
fn a_file_that_is_up_to_date_opens_without_error() {
    let (end, ran) = run(|step| step == Step::CreateTable);
    assert_eq!(end, Progress::Done);
    assert_eq!(ran.len(), 4);
}

#[test]
fn any_addition_may_fail() {
    for mask in 0..8u32 {
        let (end, ran) = run(|step| match step {
            Step::CreateTable => true,
            Step::AddDuration => mask & 1 != 0,
            Step::AddGame => mask & 2 != 0,
            Step::AddSettled => mask & 4 != 0,
        });
        assert_eq!(end, Progress::Done);
        assert_eq!(ran.len(), 4);
    }
}

#[test]
fn without_the_table_the_run_is_given_up() {
    let (end, ran) = run(|_| false);
    assert_eq!(end, Progress::Failed);
    assert_eq!(ran, vec![Step::CreateTable]);
}

#[test]
fn only_the_table_is_required() {
    assert!(Step::CreateTable.required());
    assert!(!Step::AddDuration.required());
    assert!(!Step::AddGame.required());
    assert!(!Step::AddSettled.required());
}
