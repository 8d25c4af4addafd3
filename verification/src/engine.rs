//! What becomes of each query file.
//!
//! The engine never decides to stop the program: it gives one result per file, and its caller
//! decides what to do with them. Failing fast is a CLI policy, not an engine behaviour.
use vstd::prelude::*;
use vstd::string::*;

use crate::discover::{query_models, Query, QueryModel};
use crate::errors::{Error, ErrorModel};
use crate::json::{entries_model, Json, JsonModel};
use crate::output::{commit, discard, render, rendered, stage, staged, temporary, Staged};
use crate::query::Kind;
use crate::text::{debug_text, decimal, opt_text, quoted, write_decimal};

verus! {

/// Outcome for one query file, successful or not.
#[derive(Debug)]
pub struct FileResult {
    /// Position in the discovery order, so failures can be reported deterministically.
    pub index: usize,
    /// The source file.
    pub source: String,
    /// The output file it maps to.
    pub output: String,
    pub outcome: Outcome,
}

#[derive(Debug)]
pub enum Outcome {
    /// Written: the result differs from what was on disk.
    Frozen { pages: usize },
    /// Not written: identical to what was already there (incremental build).
    Unchanged,
    /// Would have been written, but was not — `--check` / `--dry-run`, or another file failed.
    WouldChange,
    /// Skipped: the file holds no operation (fragments only), or was not run.
    Skipped { reason: String },
    Failed(Error),
}

impl FileResult {
    pub fn is_failure(&self) -> (r: bool)
        ensures
            r == (self.outcome is Failed),
    {
        match self.outcome {
            Outcome::Failed(_) => true,
            _ => false,
        }
    }
}

/// The line that says how many queries there are; or the error that there are none.
pub fn announce(count: usize, root: &str, glob: &str) -> (r: Result<String, Error>)
    ensures
        if count == 0 {
            r matches Err(e) && e@ == ErrorModel::Config(
                "no query file under "@ + root@ + " matching "@ + debug_text(glob@),
            )
        } else {
            r matches Ok(line) && line@ == "Freezing "@ + decimal(count as nat) + (if count == 1 {
                " query…"@
            } else {
                " queries…"@
            })
        },
{
    if count == 0 {
        let mut message = "no query file under ".to_owned();
        message.append(root);
        message.append(" matching ");
        message.append(quoted(glob).as_str());
        return Err(Error::Config(message));
    }
    let mut line = "Freezing ".to_owned();
    line.append(write_decimal(count as u64).as_str());
    if count == 1 {
        line.append(" query…");
    } else {
        line.append(" queries…");
    }
    Ok(line)
}

/// Why a file is not a query, if it is none.
pub open spec fn skip_reason(kind: Kind) -> Option<Seq<char>> {
    match kind {
        Kind::Operation => None,
        Kind::FragmentsOnly => Some("fragments only, no operation"@),
        Kind::Empty => Some("no definition"@),
    }
}

/// What becomes of a file that is not a query.
pub fn skipped(kind: &Kind) -> (r: Option<Outcome>)
    ensures
        match skip_reason(*kind) {
            Some(why) => r matches Some(Outcome::Skipped { reason }) && reason@ == why,
            None => r is None,
        },
{
    match kind {
        Kind::Operation => None,
        Kind::FragmentsOnly => Some(
            Outcome::Skipped { reason: "fragments only, no operation".to_owned() },
        ),
        Kind::Empty => Some(Outcome::Skipped { reason: "no definition".to_owned() }),
    }
}

/// The error for a query that took too long.
pub fn timed_out(file: &str, seconds: u64) -> (r: Error)
    ensures
        r@ == (ErrorModel::Response {
            path: file@,
            message: "gave up after --file-timeout ("@ + decimal(seconds as nat) + "s)"@,
        }),
{
    let mut message = "gave up after --file-timeout (".to_owned();
    message.append(write_decimal(seconds).as_str());
    message.append("s)");
    Error::Response { path: file.to_owned(), message }
}

/// What is written of a result: what was inside `data`, or the GraphQL shape.
pub open spec fn enveloped(data: JsonModel, envelope: bool) -> JsonModel {
    if envelope {
        JsonModel::Object(seq![("data"@, data)])
    } else {
        data
    }
}

/// What is written of a result. `--envelope` restores the GraphQL shape; `extensions` is dropped
/// either way: Shopify puts request costs in it and Apollo puts tracing, which would make every
/// diff noisy.
pub fn wrap(data: Json, envelope: bool) -> (r: Json)
    ensures
        r@ == enveloped(data@, envelope),
{
    if envelope {
        let mut entries: Vec<(String, Json)> = Vec::new();
        entries.push(("data".to_owned(), data));
        assert(entries_model(entries@) =~= seq![("data"@, data@)]);
        Json::Object(entries)
    } else {
        data
    }
}

/// What becomes of a file whose result is there, and the text to be written next to it until it
/// is moved into place.
#[derive(Debug)]
pub struct Settled {
    pub outcome: Outcome,
    pub waiting: Option<String>,
}

/// Decides what becomes of a rendered result, given whether it differs from what is on disk.
/// `--check` and `--dry-run` write nothing.
pub fn decide(fresh: Staged, text: String, pages: usize, check: bool, dry_run: bool) -> (r: Settled)
    ensures
        match fresh {
            Staged::Unchanged => r.outcome is Unchanged && r.waiting is None,
            Staged::Ready => if check || dry_run {
                r.outcome is WouldChange && r.waiting is None
            } else {
                r.outcome == (Outcome::Frozen { pages }) && r.waiting == Some(text)
            },
        },
{
    match fresh {
        Staged::Unchanged => Settled { outcome: Outcome::Unchanged, waiting: None },
        Staged::Ready => if check || dry_run {
            Settled { outcome: Outcome::WouldChange, waiting: None }
        } else {
            Settled { outcome: Outcome::Frozen { pages }, waiting: Some(text) }
        },
    }
}

/// Decides what becomes of a file whose result is there, given what its output holds, if there
/// is one.
pub fn settle(
    data: Json,
    pages: usize,
    existing: Option<&str>,
    envelope: bool,
    check: bool,
    dry_run: bool,
) -> (r: Settled)
    ensures
        ({
            let text = rendered(enveloped(data@, envelope));
            let held = match existing {
                Some(text) => Some(text@),
                None => None,
            };
            match staged(held, text) {
                Staged::Unchanged => r.outcome is Unchanged && r.waiting is None,
                Staged::Ready => if check || dry_run {
                    r.outcome is WouldChange && r.waiting is None
                } else {
                    r.outcome == (Outcome::Frozen { pages }) && opt_text(r.waiting) == Some(text)
                },
            }
        }),
{
    let text = render(&wrap(data, envelope));
    let fresh = stage(existing, text.as_str());
    decide(fresh, text, pages, check, dry_run)
}

// ---------------------------------------------------------------------------------------
// All files together
// ---------------------------------------------------------------------------------------
/// What became of the query at position `i`: the last outcome that was handed in for it.
pub open spec fn outcome_of(done: Seq<(usize, Outcome)>, i: int) -> Option<Outcome>
    decreases done.len(),
{
    if done.len() == 0 {
        None
    } else if done.last().0 == i {
        Some(done.last().1)
    } else {
        outcome_of(done.drop_last(), i)
    }
}

/// Whether `r` is the result of the query at position `i`. A query that nothing became of was
/// not run.
pub open spec fn is_result(
    r: FileResult,
    queries: Seq<QueryModel>,
    done: Seq<(usize, Outcome)>,
    i: int,
) -> bool {
    &&& r.index == i
    &&& r.source@ == queries[i].source
    &&& r.output@ == queries[i].output
    &&& match outcome_of(done, i) {
        Some(outcome) => r.outcome == outcome,
        None => r.outcome matches Outcome::Skipped { reason } && reason@
            == "not run, another file failed first"@,
    }
}

/// One result per query, in discovery order, so the reported failure is the same on every run.
/// `done` holds what became of the queries that were run, in any order.
pub fn gather(queries: &Vec<Query>, done: Vec<(usize, Outcome)>) -> (r: Vec<FileResult>)
    ensures
        r@.len() == queries@.len(),
        forall|i: int|
            0 <= i < r@.len() ==> is_result(#[trigger] r@[i], query_models(queries@), done@, i),
{
    let count = queries.len();
    let ghost all = done@;
    let mut slots: Vec<Option<Outcome>> = Vec::new();
    while slots.len() < count
        invariant
            slots@.len() <= count,
            forall|i: int| 0 <= i < slots@.len() ==> #[trigger] slots@[i] is None,
        decreases count - slots@.len(),
    {
        slots.push(None);
    }
    let mut left = done;
    while left.len() > 0
        invariant
            slots@.len() == count,
            forall|i: int|
                0 <= i < count ==> outcome_of(all, i) == match #[trigger] slots@[i] {
                    Some(outcome) => Some(outcome),
                    None => outcome_of(left@, i),
                },
        decreases left@.len(),
    {
        let ghost before = left@;
        if let Some((i, outcome)) = left.pop() {
            assert(left@ =~= before.drop_last());
            if i < count && slots[i].is_none() {
                slots.set(i, Some(outcome));
            }
        }
    }
    let mut r: Vec<FileResult> = Vec::new();
    for i in 0..count
        invariant
            count == queries@.len(),
            slots@.len() == count,
            r@.len() == i,
            forall|j: int|
                i <= j < count ==> outcome_of(all, j) == (#[trigger] slots@[j]),
            forall|j: int|
                0 <= j < i ==> is_result(#[trigger] r@[j], query_models(queries@), all, j),
    {
        let outcome = match slots[i].take() {
            Some(outcome) => outcome,
            None => Outcome::Skipped { reason: "not run, another file failed first".to_owned() },
        };
        let query = &queries[i];
        r.push(
            FileResult {
                index: i,
                source: query.source.clone(),
                output: query.output.clone(),
                outcome,
            },
        );
    }
    r
}

/// One thing to do with a waiting file.
#[derive(Debug)]
pub enum Step {
    /// Drop it, without touching the destination.
    Discard(String),
    /// Move it into place, for the result at that position.
    Move { at: usize, from: String, to: String },
}

/// What a [`Step`] stands for.
pub enum StepModel {
    Discard(Seq<char>),
    Move { at: int, from: Seq<char>, to: Seq<char> },
}

impl View for Step {
    type V = StepModel;

    open spec fn view(&self) -> StepModel {
        match *self {
            Step::Discard(path) => StepModel::Discard(path@),
            Step::Move { at, from, to } => StepModel::Move { at: at as int, from: from@, to: to@ },
        }
    }
}

/// What a list of steps stands for.
pub open spec fn step_models(steps: Seq<Step>) -> Seq<StepModel> {
    Seq::new(steps.len(), |i: int| steps[i]@)
}

/// Whether a file failed.
pub open spec fn any_failed(results: Seq<FileResult>) -> bool {
    exists|i: int| 0 <= i < results.len() && (#[trigger] results[i]).outcome is Failed
}

/// Every waiting file is dropped.
pub open spec fn discards(results: Seq<FileResult>) -> Seq<StepModel> {
    Seq::new(results.len(), |i: int| StepModel::Discard(temporary(results[i].output@)))
}

/// The waiting files of the first `k` results are moved into place.
pub open spec fn moves(results: Seq<FileResult>, k: int) -> Seq<StepModel>
    decreases k,
{
    if k <= 0 {
        seq![]
    } else if results[k - 1].outcome is Frozen {
        moves(results, k - 1).push(
            StepModel::Move {
                at: k - 1,
                from: temporary(results[k - 1].output@),
                to: results[k - 1].output@,
            },
        )
    } else {
        moves(results, k - 1)
    }
}

/// What is done with the waiting files: nothing on a dry run; all dropped where a file failed, or
/// with `--check`; else all moved into place.
pub open spec fn steps(results: Seq<FileResult>, check: bool, dry_run: bool) -> Seq<StepModel> {
    if dry_run {
        seq![]
    } else if any_failed(results) || check {
        discards(results)
    } else {
        moves(results, results.len() as int)
    }
}

/// Whether a file failed.
pub fn has_failed(results: &Vec<FileResult>) -> (r: bool)
    ensures
        r == any_failed(results@),
{
    for i in 0..results.len()
        invariant
            forall|j: int| 0 <= j < i ==> !((#[trigger] results@[j]).outcome is Failed),
    {
        if results[i].is_failure() {
            return true;
        }
    }
    false
}

/// What to do with the waiting files. No output is touched before this point, so a failure in
/// the fetch phase leaves the tree untouched.
pub fn plan(results: &Vec<FileResult>, check: bool, dry_run: bool) -> (r: Vec<Step>)
    ensures
        step_models(r@) == steps(results@, check, dry_run),
{
    let mut r: Vec<Step> = Vec::new();
    assert(step_models(r@) =~= seq![]);
    if dry_run {
        return r;
    }
    if has_failed(results) || check {
        for i in 0..results.len()
            invariant
                r@.len() == i,
                forall|j: int|
                    0 <= j < i ==> (#[trigger] r@[j])@ == StepModel::Discard(
                        temporary(results@[j].output@),
                    ),
        {
            r.push(Step::Discard(discard(results[i].output.as_str())));
        }
        assert(step_models(r@) =~= discards(results@));
        return r;
    }
    for i in 0..results.len()
        invariant
            step_models(r@) == moves(results@, i as int),
    {
        let ghost done = step_models(r@);
        let waiting = match results[i].outcome {
            Outcome::Frozen { .. } => true,
            _ => false,
        };
        if let Some((from, to)) = commit(results[i].output.as_str(), waiting) {
            let step = Step::Move { at: i, from, to };
            r.push(step);
            assert(step_models(r@) =~= done.push(step@));
        }
    }
    r
}

/// What the results are in the end: where no output is touched, nothing is frozen.
pub open spec fn concluded(results: Seq<FileResult>, check: bool, dry_run: bool) -> Seq<FileResult> {
    if any_failed(results) || check || dry_run {
        Seq::new(
            results.len(),
            |i: int|
                if results[i].outcome is Frozen {
                    FileResult { outcome: Outcome::WouldChange, ..results[i] }
                } else {
                    results[i]
                },
        )
    } else {
        results
    }
}

/// Says of the results what [`plan`] makes of them: a result whose waiting file is dropped is not
/// written, so it is not frozen.
pub fn conclude(results: &mut Vec<FileResult>, check: bool, dry_run: bool)
    ensures
        final(results)@ == concluded(old(results)@, check, dry_run),
{
    if !(has_failed(results) || check || dry_run) {
        return;
    }
    let ghost all = results@;
    let ghost wanted = concluded(all, check, dry_run);
    let mut i: usize = 0;
    while i < results.len()
        invariant
            wanted == concluded(all, check, dry_run),
            any_failed(all) || check || dry_run,
            results@.len() == all.len(),
            i <= all.len(),
            forall|j: int| 0 <= j < i ==> #[trigger] results@[j] == wanted[j],
            forall|j: int| i <= j < all.len() ==> #[trigger] results@[j] == all[j],
        decreases all.len() - i,
    {
        if let Outcome::Frozen { .. } = results[i].outcome {
            results[i].outcome = Outcome::WouldChange;
        }
        i += 1;
    }
    assert(results@ =~= wanted);
}

// ---------------------------------------------------------------------------------------
// Laws
// ---------------------------------------------------------------------------------------
/// Where a file failed, and with `--check` or `--dry-run`, no output is touched.
pub proof fn law_nothing_is_moved_then(results: Seq<FileResult>, check: bool, dry_run: bool, i: int)
    requires
        any_failed(results) || check || dry_run,
        0 <= i < steps(results, check, dry_run).len(),
    ensures
        steps(results, check, dry_run)[i] is Discard,
{
}

/// Otherwise each frozen result is moved into place, from the file in which it waits; and no
/// other output is touched.
pub proof fn law_frozen_results_are_moved(results: Seq<FileResult>, k: int)
    requires
        0 <= k <= results.len(),
    ensures
        forall|j: int|
            0 <= j < k && (#[trigger] results[j]).outcome is Frozen ==> moves(results, k).contains(
                StepModel::Move {
                    at: j,
                    from: temporary(results[j].output@),
                    to: results[j].output@,
                },
            ),
        forall|i: int|
            0 <= i < moves(results, k).len() ==> {
                &&& #[trigger] moves(results, k)[i] matches StepModel::Move { at, from, to }
                &&& 0 <= at < k
                &&& results[at].outcome is Frozen
                &&& from == temporary(results[at].output@)
                &&& to == results[at].output@
            },
    decreases k,
{
    if k > 0 {
        law_frozen_results_are_moved(results, k - 1);
        let earlier = moves(results, k - 1);
        let all = moves(results, k);
        assert forall|j: int| 0 <= j < k && (#[trigger] results[j]).outcome is Frozen implies all
            .contains(
            StepModel::Move {
                at: j,
                from: temporary(results[j].output@),
                to: results[j].output@,
            },
        ) by {
            let step = StepModel::Move {
                at: j,
                from: temporary(results[j].output@),
                to: results[j].output@,
            };
            if j < k - 1 {
                assert(earlier.contains(step));
                let i = choose|i: int| 0 <= i < earlier.len() && earlier[i] == step;
                assert(all[i] == step);
            } else {
                assert(all[earlier.len() as int] == step);
            }
        }
    }
}

/// A result that is frozen in the end is moved into place: what is dropped, and what is never
/// written, is not called frozen.
pub proof fn law_frozen_means_written(
    results: Seq<FileResult>,
    check: bool,
    dry_run: bool,
    i: int,
)
    requires
        0 <= i < results.len(),
        concluded(results, check, dry_run)[i].outcome is Frozen,
    ensures
        concluded(results, check, dry_run)[i] == results[i],
        steps(results, check, dry_run).contains(
            StepModel::Move {
                at: i,
                from: temporary(results[i].output@),
                to: results[i].output@,
            },
        ),
{
    law_frozen_results_are_moved(results, results.len() as int);
    assert(results[i].outcome is Frozen);
}

/// A failure is still a failure in the end, and the results of a run without one stay as they
/// are.
pub proof fn law_failures_stay(results: Seq<FileResult>, check: bool, dry_run: bool)
    ensures
        any_failed(concluded(results, check, dry_run)) == any_failed(results),
        !any_failed(results) && !check && !dry_run ==> concluded(results, check, dry_run) == results,
{
    let after = concluded(results, check, dry_run);
    if any_failed(results) {
        let i = choose|i: int| 0 <= i < results.len() && (#[trigger] results[i]).outcome is Failed;
        assert(after[i].outcome is Failed);
    }
    if any_failed(after) {
        let i = choose|i: int| 0 <= i < after.len() && (#[trigger] after[i]).outcome is Failed;
        assert(results[i].outcome is Failed);
    }
}

/// Each query gets the outcome that was handed in for it; one that nothing was handed in for has
/// none.
pub proof fn law_outcomes_reach_their_query(done: Seq<(usize, Outcome)>, k: int, i: int)
    requires
        forall|m: int|
            0 <= m < done.len() && m != k ==> (#[trigger] done[m]).0 != i,
    ensures
        0 <= k < done.len() && done[k].0 == i ==> outcome_of(done, i) == Some(done[k].1),
        !(0 <= k < done.len() && done[k].0 == i) ==> outcome_of(done, i) is None,
    decreases done.len(),
{
    if done.len() > 0 {
        let rest = done.drop_last();
        assert forall|m: int| 0 <= m < rest.len() && m != k implies (#[trigger] rest[m]).0 != i by {
            assert(done[m].0 != i);
        }
        law_outcomes_reach_their_query(rest, k, i);
        if k < done.len() - 1 {
            assert(done[done.len() - 1].0 != i);
        }
    }
}

/// Once a file failed, and with `--check`, every file that waits is dropped.
pub proof fn law_waiting_files_are_dropped(
    results: Seq<FileResult>,
    check: bool,
    i: int,
)
    requires
        any_failed(results) || check,
        0 <= i < results.len(),
    ensures
        steps(results, check, false).contains(StepModel::Discard(temporary(results[i].output@))),
{
    assert(steps(results, check, false)[i] == StepModel::Discard(temporary(results[i].output@)));
}

/// With an envelope the result stands under `data`, alone; without, it stands for itself.
pub proof fn law_envelope(data: JsonModel, key: Seq<char>)
    ensures
        enveloped(data, false) == data,
        crate::json::field(enveloped(data, true), key) == if key == seq!['d', 'a', 't', 'a'] {
            Some(data)
        } else {
            None
        },
        enveloped(data, true) matches JsonModel::Object(entries) && entries.len() == 1,
{
    reveal_strlit("data");
    assert("data"@ =~= seq!['d', 'a', 't', 'a']);
    crate::json::lemma_slot((enveloped(data, true))->Object_0, key, 0);
}

/// Only a file that holds an operation is run.
pub proof fn law_only_operations_are_run(kind: Kind)
    ensures
        skip_reason(kind) is None <==> kind == Kind::Operation,
{
}

/// In the end a result is as it was; only that what would have been frozen and is not written
/// would change.
pub proof fn law_results_in_the_end(
    results: Seq<FileResult>,
    check: bool,
    dry_run: bool,
    i: int,
)
    requires
        0 <= i < results.len(),
    ensures
        concluded(results, check, dry_run).len() == results.len(),
        ({
            let r = concluded(results, check, dry_run)[i];
            if results[i].outcome is Frozen && (check || dry_run || exists|j: int|
                0 <= j < results.len() && (#[trigger] results[j]).outcome is Failed) {
                &&& r.outcome is WouldChange
                &&& r.index == results[i].index
                &&& r.source == results[i].source
                &&& r.output == results[i].output
            } else {
                r == results[i]
            }
        }),
{
}

/// A result is that of its query: it has the files of the query, and what became of it; a query
/// that nothing became of was not run.
pub proof fn law_result_is_of_its_query(
    r: FileResult,
    queries: Seq<QueryModel>,
    done: Seq<(usize, Outcome)>,
    i: int,
)
    requires
        is_result(r, queries, done, i),
    ensures
        r.index == i,
        r.source@ == queries[i].source,
        r.output@ == queries[i].output,
        outcome_of(done, i) is Some ==> Some(r.outcome) == outcome_of(done, i),
        outcome_of(done, i) is None ==> r.outcome is Skipped,
{
}

/// Outputs are moved into place in the order of the results, each one once.
pub proof fn law_moved_in_order(results: Seq<FileResult>, k: int)
    requires
        0 <= k <= results.len(),
    ensures
        forall|i: int, j: int|
            0 <= i < j < moves(results, k).len() ==> (#[trigger] moves(results, k)[i])->at < (
            #[trigger] moves(results, k)[j])->at,
    decreases k,
{
    if k > 0 {
        law_moved_in_order(results, k - 1);
        law_frozen_results_are_moved(results, k - 1);
        let earlier = moves(results, k - 1);
        let all = moves(results, k);
        assert forall|i: int, j: int| 0 <= i < j < all.len() implies (#[trigger] all[i])->at < (
        #[trigger] all[j])->at by {
            assert(all[i] == earlier[i]);
            if j < earlier.len() {
                assert(all[j] == earlier[j]);
            }
        }
    }
}

} // verus!
