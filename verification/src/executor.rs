//! Carrying out a plan, as far as that is a matter of deciding: what is to be
//! printed, what is to be renamed, and what is to be warned about. The caller
//! prints and renames.

use crate::plan::{entries_of, Entry, PlanEntry, RenamePlan};
use vstd::prelude::*;
use vstd::string::*;

verus! {

/// One thing to do while a plan is shown or applied.
pub enum Step {
    /// Write a line to standard output.
    Print(Seq<char>),
    /// Write a line to standard error.
    Warn(Seq<char>),
    /// Rename the file at `from` to `to`.
    Rename { from: Seq<char>, to: Seq<char> },
}

/// One thing to do while a plan is shown or applied, as the program holds
/// it.
#[derive(Debug, PartialEq, Eq)]
pub enum Action {
    /// Write the line to standard output.
    Print(String),
    /// Write the line to standard error.
    Warn(String),
    /// Rename the file at `from` to `to`.
    Rename { from: String, to: String },
}

impl View for Action {
    type V = Step;

    open spec fn view(&self) -> Step {
        match self {
            Action::Print(line) => Step::Print(line@),
            Action::Warn(line) => Step::Warn(line@),
            Action::Rename { from, to } => Step::Rename { from: from@, to: to@ },
        }
    }
}

/// The views of a list of actions.
pub open spec fn steps_of(actions: Seq<Action>) -> Seq<Step> {
    actions.map_values(|action: Action| action@)
}

/// The line that shows what `original` is to become.
pub open spec fn proposal_line(original: Seq<char>, candidate: Seq<char>) -> Seq<char> {
    original + " --> "@ + candidate
}

/// The line that warns that `original` was not renamed.
pub open spec fn warning_line(original: Seq<char>) -> Seq<char> {
    "renparkn: warning: unable to rename \""@ + original + "\""@
}

/// The line that reports that there is no directory to work on.
pub open spec fn missing_directory_line() -> Seq<char> {
    "renparkn: error: directory not found"@
}

/// What a preview does with one line of the plan: it shows the proposal, or
/// warns where there is none.
pub open spec fn preview_step(entry: Entry) -> Step {
    match entry.candidate {
        Some(candidate) => Step::Print(proposal_line(entry.original, candidate)),
        None => Step::Warn(warning_line(entry.original)),
    }
}

/// What applying the plan does first with one line of it: it asks for the
/// rename, or warns where the line has no candidate.
pub open spec fn apply_step(entry: Entry) -> Step {
    match entry.candidate {
        Some(candidate) => Step::Rename { from: entry.original, to: candidate },
        None => Step::Warn(warning_line(entry.original)),
    }
}

/// What follows a rename of `original`: nothing where it succeeded, a warning
/// where it failed.
pub open spec fn outcome_steps(original: Seq<char>, succeeded: bool) -> Seq<Step> {
    if succeeded {
        Seq::empty()
    } else {
        seq![Step::Warn(warning_line(original))]
    }
}

/// Whether the rename of line `i` is reported in `outcomes` as having
/// succeeded. A line without a report counts as failed.
pub open spec fn succeeded_at(outcomes: Seq<bool>, i: int) -> bool {
    0 <= i < outcomes.len() && outcomes[i]
}

/// All that applying one line of the plan does, given how its rename turns
/// out.
pub open spec fn applied_entry(entry: Entry, succeeded: bool) -> Seq<Step> {
    match entry.candidate {
        Some(_) => seq![apply_step(entry)] + outcome_steps(entry.original, succeeded),
        None => seq![apply_step(entry)],
    }
}

/// All that a preview of the plan does, line by line.
pub open spec fn previewed(plan: Seq<Entry>) -> Seq<Step> {
    plan.map_values(|entry: Entry| preview_step(entry))
}

/// All that applying the lines `from` to `to - 1` of the plan does, in order,
/// given how each rename turns out.
pub open spec fn applied_between(plan: Seq<Entry>, outcomes: Seq<bool>, from: int, to: int) -> Seq<
    Step,
>
    decreases to - from,
{
    if to <= from {
        Seq::empty()
    } else {
        applied_between(plan, outcomes, from, to - 1) + applied_entry(
            plan[to - 1],
            succeeded_at(outcomes, to - 1),
        )
    }
}

/// All that applying the plan does, in order, given how each rename turns
/// out.
pub open spec fn applied(plan: Seq<Entry>, outcomes: Seq<bool>) -> Seq<Step> {
    applied_between(plan, outcomes, 0, plan.len() as int)
}

/// The renames among `steps`, in order: each as the pair of the old and the
/// new path.
pub open spec fn renames_in(steps: Seq<Step>) -> Seq<(Seq<char>, Seq<char>)>
    decreases steps.len(),
{
    if steps.len() == 0 {
        Seq::empty()
    } else {
        let before = renames_in(steps.drop_last());
        match steps.last() {
            Step::Rename { from, to } => before.push((from, to)),
            _ => before,
        }
    }
}

/// The renames that the first `upto` lines of the plan call for, in order:
/// one for each line that has a candidate.
pub open spec fn renames_planned(plan: Seq<Entry>, upto: int) -> Seq<(Seq<char>, Seq<char>)>
    decreases upto,
{
    if upto <= 0 {
        Seq::empty()
    } else {
        let before = renames_planned(plan, upto - 1);
        match plan[upto - 1].candidate {
            Some(candidate) => before.push((plan[upto - 1].original, candidate)),
            None => before,
        }
    }
}

/// The renames in two runs of steps, one after the other.
pub proof fn lemma_renames_in_concat(a: Seq<Step>, b: Seq<Step>)
    ensures
        renames_in(a + b) == renames_in(a) + renames_in(b),
    decreases b.len(),
{
    if b.len() == 0 {
        assert(a + b =~= a);
        assert(renames_in(a) + renames_in(b) =~= renames_in(a));
    } else {
        lemma_renames_in_concat(a, b.drop_last());
        assert((a + b).drop_last() =~= a + b.drop_last());
        assert((a + b).last() == b.last());
        match b.last() {
            Step::Rename { from, to } => {
                assert(renames_in(a + b) =~= renames_in(a) + renames_in(b));
            },
            _ => {},
        }
    }
}

/// Applying a stretch of the plan is applying its first part and then the
/// rest.
pub proof fn lemma_applied_split(
    plan: Seq<Entry>,
    outcomes: Seq<bool>,
    from: int,
    mid: int,
    to: int,
)
    requires
        from <= mid <= to,
    ensures
        applied_between(plan, outcomes, from, to) == applied_between(plan, outcomes, from, mid)
            + applied_between(plan, outcomes, mid, to),
    decreases to - mid,
{
    if mid == to {
        assert(applied_between(plan, outcomes, from, mid) + Seq::<Step>::empty()
            =~= applied_between(plan, outcomes, from, mid));
    } else {
        lemma_applied_split(plan, outcomes, from, mid, to - 1);
        let last = applied_entry(plan[to - 1], succeeded_at(outcomes, to - 1));
        assert((applied_between(plan, outcomes, from, mid) + applied_between(
            plan,
            outcomes,
            mid,
            to - 1,
        )) + last =~= applied_between(plan, outcomes, from, mid) + (applied_between(
            plan,
            outcomes,
            mid,
            to - 1,
        ) + last));
    }
}

/// What a stretch of the plan does depends on the outcomes of its own renames
/// only.
pub proof fn lemma_applied_reads_its_own_outcomes(
    plan: Seq<Entry>,
    outcomes: Seq<bool>,
    others: Seq<bool>,
    from: int,
    to: int,
)
    requires
        forall|k: int| from <= k < to ==> succeeded_at(outcomes, k) == succeeded_at(others, k),
    ensures
        applied_between(plan, outcomes, from, to) == applied_between(plan, others, from, to),
    decreases to - from,
{
    if from < to {
        lemma_applied_reads_its_own_outcomes(plan, outcomes, others, from, to - 1);
    }
}

/// A preview renames nothing.
pub proof fn law_preview_renames_nothing(plan: Seq<Entry>)
    ensures
        renames_in(previewed(plan)) == Seq::<(Seq<char>, Seq<char>)>::empty(),
    decreases plan.len(),
{
    if plan.len() > 0 {
        law_preview_renames_nothing(plan.drop_last());
        assert(previewed(plan).drop_last() =~= previewed(plan.drop_last()));
    }
}

/// Applying a plan asks for exactly one rename for each line that has a
/// candidate, from that line's file to its candidate, in the order of the
/// plan, however the renames turn out. A line without a candidate is not
/// renamed.
pub proof fn law_one_rename_per_candidate(plan: Seq<Entry>, outcomes: Seq<bool>, upto: int)
    requires
        0 <= upto <= plan.len(),
    ensures
        renames_in(applied_between(plan, outcomes, 0, upto)) == renames_planned(plan, upto),
    decreases upto,
{
    if upto > 0 {
        law_one_rename_per_candidate(plan, outcomes, upto - 1);
        let before = applied_between(plan, outcomes, 0, upto - 1);
        let entry = plan[upto - 1];
        let last = applied_entry(entry, succeeded_at(outcomes, upto - 1));
        lemma_renames_in_concat(before, last);
        reveal_with_fuel(renames_in, 3);
        match entry.candidate {
            Some(candidate) => {
                let rename = Step::Rename { from: entry.original, to: candidate };
                if succeeded_at(outcomes, upto - 1) {
                    assert(last =~= seq![rename]);
                    assert(last.drop_last() =~= Seq::<Step>::empty());
                    assert(renames_in(last) =~= seq![(entry.original, candidate)]);
                } else {
                    let warn = Step::Warn(warning_line(entry.original));
                    assert(last =~= seq![rename, warn]);
                    assert(last.drop_last() =~= seq![rename]);
                    assert(last.drop_last().drop_last() =~= Seq::<Step>::empty());
                    assert(renames_in(last) =~= seq![(entry.original, candidate)]);
                }
                assert(renames_planned(plan, upto) =~= renames_planned(plan, upto - 1) + seq![
                    (entry.original, candidate),
                ]);
            },
            None => {
                assert(last.drop_last() =~= Seq::<Step>::empty());
                assert(renames_in(last) =~= Seq::<(Seq<char>, Seq<char>)>::empty());
                assert(renames_planned(plan, upto - 1) + Seq::<(Seq<char>, Seq<char>)>::empty()
                    =~= renames_planned(plan, upto - 1));
            },
        }
    }
}

/// A rename that fails adds exactly one step to what applying the plan does:
/// the warning that names the file, right behind the rename. The lines before
/// it and the lines behind it are applied as if it had succeeded.
pub proof fn law_failed_rename_warns_once(plan: Seq<Entry>, outcomes: Seq<bool>, at: int)
    requires
        0 <= at < plan.len(),
        plan[at].candidate is Some,
        !succeeded_at(outcomes, at),
    ensures
        applied(plan, outcomes) == applied_between(plan, outcomes, 0, at) + seq![
            Step::Rename { from: plan[at].original, to: plan[at].candidate->0 },
            Step::Warn(warning_line(plan[at].original)),
        ] + applied_between(plan, outcomes, at + 1, plan.len() as int),
        forall|others: Seq<bool>|
            (forall|k: int| k != at ==> succeeded_at(others, k) == succeeded_at(outcomes, k))
                && succeeded_at(others, at) ==> #[trigger] applied(plan, others)
                == applied_between(plan, outcomes, 0, at) + seq![
                Step::Rename { from: plan[at].original, to: plan[at].candidate->0 },
            ] + applied_between(plan, outcomes, at + 1, plan.len() as int),
{
    let n = plan.len() as int;
    let rename = Step::Rename { from: plan[at].original, to: plan[at].candidate->0 };
    let warn = Step::Warn(warning_line(plan[at].original));
    lemma_applied_split(plan, outcomes, 0, at, n);
    lemma_applied_split(plan, outcomes, at, at + 1, n);
    assert(applied_between(plan, outcomes, at, at) =~= Seq::<Step>::empty());
    assert(applied_between(plan, outcomes, at, at + 1) =~= seq![rename, warn]);
    assert(applied_between(plan, outcomes, 0, at) + (seq![rename, warn] + applied_between(
        plan,
        outcomes,
        at + 1,
        n,
    )) =~= applied_between(plan, outcomes, 0, at) + seq![rename, warn] + applied_between(
        plan,
        outcomes,
        at + 1,
        n,
    ));
    assert forall|others: Seq<bool>|
        (forall|k: int| k != at ==> succeeded_at(others, k) == succeeded_at(outcomes, k))
            && succeeded_at(others, at) implies #[trigger] applied(plan, others)
        == applied_between(plan, outcomes, 0, at) + seq![rename] + applied_between(
        plan,
        outcomes,
        at + 1,
        n,
    ) by {
        lemma_applied_split(plan, others, 0, at, n);
        lemma_applied_split(plan, others, at, at + 1, n);
        lemma_applied_reads_its_own_outcomes(plan, others, outcomes, 0, at);
        lemma_applied_reads_its_own_outcomes(plan, others, outcomes, at + 1, n);
        assert(applied_between(plan, others, at, at) =~= Seq::<Step>::empty());
        assert(applied_between(plan, others, at, at + 1) =~= seq![rename]);
        assert(applied_between(plan, outcomes, 0, at) + (seq![rename] + applied_between(
            plan,
            outcomes,
            at + 1,
            n,
        )) =~= applied_between(plan, outcomes, 0, at) + seq![rename] + applied_between(
            plan,
            outcomes,
            at + 1,
            n,
        ));
    }
}

/// Makes the line that shows what `original` is to become.
pub fn make_proposal(original: &str, candidate: &str) -> (line: String)
    ensures
        line@ == proposal_line(original@, candidate@),
{
    let mut line = original.to_owned();
    line.append(" --> ");
    line.append(candidate);
    line
}

/// Makes the line that warns that `original` was not renamed.
pub fn make_warning(original: &str) -> (line: String)
    ensures
        line@ == warning_line(original@),
{
    let mut line = "renparkn: warning: unable to rename \"".to_owned();
    line.append(original);
    line.append("\"");
    line
}

/// Decides whether a run can start, given whether the path to work on
/// exists and whether it is a directory. Returns the error line to give
/// before giving up where it cannot.
pub fn check_directory(exists: bool, is_directory: bool) -> (error: Option<String>)
    ensures
        match error {
            Some(line) => !(exists && is_directory) && line@ == missing_directory_line(),
            None => exists && is_directory,
        },
{
    if exists && is_directory {
        None
    } else {
        Some("renparkn: error: directory not found".to_owned())
    }
}

/// Decides what a preview does with `entry`.
pub fn preview_action(entry: &PlanEntry) -> (action: Action)
    ensures
        action@ == preview_step(entry@),
{
    match &entry.candidate {
        Some(candidate) => Action::Print(
            make_proposal(entry.original.as_str(), candidate.as_str()),
        ),
        None => Action::Warn(make_warning(entry.original.as_str())),
    }
}

/// Decides what applying the plan does first with `entry`.
pub fn apply_action(entry: &PlanEntry) -> (action: Action)
    ensures
        action@ == apply_step(entry@),
{
    match &entry.candidate {
        Some(candidate) => Action::Rename { from: entry.original.clone(), to: candidate.clone() },
        None => Action::Warn(make_warning(entry.original.as_str())),
    }
}

/// Decides what follows a rename of `original`, given whether it succeeded.
pub fn rename_outcome(original: &str, succeeded: bool) -> (action: Option<Action>)
    ensures
        action is None <==> succeeded,
        !succeeded ==> action->0@ == Step::Warn(warning_line(original@)),
{
    if succeeded {
        None
    } else {
        Some(Action::Warn(make_warning(original)))
    }
}

/// Lists what a preview of `plan` does: for each line, in order, the
/// proposal to print or the warning to give. Nothing is renamed.
pub fn print_rename_proposal(plan: &RenamePlan) -> (actions: Vec<Action>)
    ensures
        steps_of(actions@) == previewed(plan@),
        forall|i: int| 0 <= i < actions.len() ==> !(#[trigger] actions[i] is Rename),
{
    let entries = plan.entries();
    let n = entries.len();
    let mut actions: Vec<Action> = Vec::new();
    let mut i: usize = 0;
    while i < n
        invariant
            i <= n,
            n == entries.len(),
            entries_of(entries@) == plan@,
            actions.len() == i,
            forall|k: int| 0 <= k < i ==> (#[trigger] actions[k])@ == preview_step(plan@[k]),
            forall|k: int| 0 <= k < i ==> !(#[trigger] actions[k] is Rename),
        decreases n - i,
    {
        let action = preview_action(&entries[i]);
        assert(entries[i as int]@ == plan@[i as int]);
        actions.push(action);
        i += 1;
    }
    assert(steps_of(actions@) =~= previewed(plan@));
    actions
}

/// Lists what applying `plan` does, given in `outcomes` for each line whether
/// its rename succeeded: for each line, in order, the rename and, where that
/// failed, the warning behind it, or the warning alone where the line has no
/// candidate. A failure changes nothing for the lines that follow, and there
/// is one rename for each line with a candidate whatever the outcomes are.
pub fn rename_files(plan: &RenamePlan, outcomes: &Vec<bool>) -> (actions: Vec<Action>)
    ensures
        steps_of(actions@) == applied(plan@, outcomes@),
        renames_in(steps_of(actions@)) == renames_planned(plan@, plan@.len() as int),
{
    let entries = plan.entries();
    let n = entries.len();
    let mut actions: Vec<Action> = Vec::new();
    let mut i: usize = 0;
    while i < n
        invariant
            i <= n,
            n == entries.len(),
            entries_of(entries@) == plan@,
            steps_of(actions@) == applied_between(plan@, outcomes@, 0, i as int),
        decreases n - i,
    {
        let ghost before = steps_of(actions@);
        assert(entries[i as int]@ == plan@[i as int]);
        let first = apply_action(&entries[i]);
        let renames = entries[i].candidate.is_some();
        actions.push(first);
        assert(steps_of(actions@) =~= before + seq![apply_step(plan@[i as int])]);
        if renames {
            let succeeded = i < outcomes.len() && outcomes[i];
            match rename_outcome(entries[i].original.as_str(), succeeded) {
                Some(warning) => {
                    let ghost so_far = steps_of(actions@);
                    actions.push(warning);
                    assert(steps_of(actions@) =~= so_far + seq![warning@]);
                },
                None => {},
            }
        }
        assert(steps_of(actions@) =~= before + applied_entry(
            plan@[i as int],
            succeeded_at(outcomes@, i as int),
        ));
        i += 1;
    }
    proof {
        law_one_rename_per_candidate(plan@, outcomes@, plan@.len() as int);
    }
    actions
}

} // verus!
