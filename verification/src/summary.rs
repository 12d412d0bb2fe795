//! The summary of a run: how each worker did, what failed, and whether the run
//! as a whole succeeded.
use crate::dispatch::{BatchResult, Worker};
use crate::progress::{plural, plural_ending};
use crate::text::{append_decimal, decimal, texts};
use vstd::prelude::*;

verus! {

/// The longest time that a `Duration` holds, in nanoseconds.
pub const LONGEST_TIME: u128 = 18446744073709551615999999999;

/// Whether a batch passed: its command ended with exit code zero.
pub open spec fn passed(result: BatchResult) -> bool {
    result.exit_code == Ok::<u32, String>(0)
}

/// Whether a batch passed.
pub fn batch_passed(result: &BatchResult) -> (pass: bool)
    ensures
        pass == passed(*result),
        pass <==> (result.exit_code matches Ok(code) && code == 0),
{
    match &result.exit_code {
        Ok(code) => *code == 0,
        Err(_) => false,
    }
}

/// How many of the batches passed.
pub open spec fn passed_count(results: Seq<BatchResult>) -> nat
    decreases results.len(),
{
    if results.len() == 0 {
        0
    } else {
        passed_count(results.drop_last()) + if passed(results.last()) {
            1nat
        } else {
            0nat
        }
    }
}

/// How long the batches took together.
pub open spec fn total_elapsed(results: Seq<BatchResult>) -> nat
    decreases results.len(),
{
    if results.len() == 0 {
        0
    } else {
        total_elapsed(results.drop_last()) + results.last().elapsed as nat
    }
}

/// A batch that did not pass, with what it wrote.
pub struct Failure {
    pub hostname: String,
    pub batch_index: usize,
    pub output: String,
}

/// What is reported of a failed batch.
pub struct FailureModel {
    pub hostname: Seq<char>,
    pub batch_index: usize,
    pub output: Seq<char>,
}

impl View for Failure {
    type V = FailureModel;

    open spec fn view(&self) -> FailureModel {
        FailureModel {
            hostname: self.hostname@,
            batch_index: self.batch_index,
            output: self.output@,
        }
    }
}

/// What is reported of a list of failed batches.
pub open spec fn failure_models(failures: Seq<Failure>) -> Seq<FailureModel> {
    failures.map_values(|failure: Failure| failure@)
}

/// The failed batches among the results of one worker, in their order.
pub open spec fn failed_results(
    hostname: Seq<char>,
    results: Seq<BatchResult>,
) -> Seq<FailureModel>
    decreases results.len(),
{
    if results.len() == 0 {
        Seq::empty()
    } else {
        let earlier = failed_results(hostname, results.drop_last());
        let result = results.last();
        if passed(result) {
            earlier
        } else {
            earlier.push(
                FailureModel {
                    hostname,
                    batch_index: result.batch_index,
                    output: result.output@,
                },
            )
        }
    }
}

/// The failed batches of all workers, worker by worker.
pub open spec fn all_failures(workers: Seq<Worker>) -> Seq<FailureModel>
    decreases workers.len(),
{
    if workers.len() == 0 {
        Seq::empty()
    } else {
        all_failures(workers.drop_last()) + failed_results(
            workers.last().hostname@,
            workers.last().results@,
        )
    }
}

/// How a worker did.
pub struct WorkerSummary {
    pub hostname: String,
    /// How many of its batches passed.
    pub passed: usize,
    /// How many batches it ran.
    pub total: usize,
    /// How long they took together, in nanoseconds; nothing where that is longer
    /// than `LONGEST_TIME`.
    pub elapsed: Option<u128>,
}

/// Whether a summary is that of a worker.
pub open spec fn summarizes(summary: WorkerSummary, worker: Worker) -> bool {
    &&& summary.hostname@ == worker.hostname@
    &&& summary.passed == passed_count(worker.results@)
    &&& summary.total == worker.results@.len()
    &&& summary.elapsed == if total_elapsed(worker.results@) <= LONGEST_TIME {
        Some(total_elapsed(worker.results@) as u128)
    } else {
        None
    }
}

/// The time of the first results is no longer than that of all.
proof fn elapsed_grows(results: Seq<BatchResult>, n: int)
    requires
        0 <= n <= results.len(),
    ensures
        total_elapsed(results.take(n)) <= total_elapsed(results),
    decreases results.len() - n,
{
    if n < results.len() {
        elapsed_grows(results, n + 1);
        assert(results.take(n + 1).drop_last() == results.take(n));
    } else {
        assert(results.take(n) == results);
    }
}

/// How long the batches took together; nothing where that is longer than
/// `LONGEST_TIME`.
pub fn sum_elapsed(results: &Vec<BatchResult>) -> (elapsed: Option<u128>)
    ensures
        elapsed == if total_elapsed(results@) <= LONGEST_TIME {
            Some(total_elapsed(results@) as u128)
        } else {
            None
        },
{
    let mut elapsed: u128 = 0;
    let mut i: usize = 0;
    while i < results.len()
        invariant
            i <= results@.len(),
            elapsed == total_elapsed(results@.take(i as int)),
            elapsed <= LONGEST_TIME,
        decreases results@.len() - i,
    {
        assert(results@.take(i + 1).drop_last() == results@.take(i as int));
        proof {
            elapsed_grows(results@, i + 1);
        }
        if results[i].elapsed > LONGEST_TIME - elapsed {
            return None;
        }
        elapsed = elapsed + results[i].elapsed;
        i += 1;
    }
    assert(results@.take(i as int) == results@);
    Some(elapsed)
}

/// How a worker did.
pub fn summarize_worker(worker: &Worker) -> (summary: WorkerSummary)
    ensures
        summarizes(summary, *worker),
        summary.hostname@ == worker.hostname@,
        summary.total == worker.results@.len(),
        summary.passed == worker.results@.filter(
            |result: BatchResult| result.exit_code == Ok::<u32, String>(0),
        ).len(),
{
    let results = &worker.results;
    let mut count: usize = 0;
    let mut i: usize = 0;
    while i < results.len()
        invariant
            i <= results@.len(),
            count == passed_count(results@.take(i as int)),
            count <= i,
        decreases results@.len() - i,
    {
        assert(results@.take(i + 1).drop_last() == results@.take(i as int));
        if batch_passed(&results[i]) {
            count += 1;
        }
        i += 1;
    }
    assert(results@.take(i as int) == results@);
    proof {
        passed_are_counted(results@);
    }
    WorkerSummary {
        hostname: worker.hostname.clone(),
        passed: count,
        total: results.len(),
        elapsed: sum_elapsed(results),
    }
}

/// The failed batches of all workers, worker by worker.
pub fn collect_failures(workers: &Vec<Worker>) -> (failures: Vec<Failure>)
    ensures
        failure_models(failures@) == all_failures(workers@),
        failures@.len() == 0 <==> all_passed(workers@),
        failures@.len() == 0 <==> forall|i: int, j: int|
            0 <= i < workers@.len() && 0 <= j < workers@[i].results@.len() ==> (
            #[trigger] workers@[i].results@[j]).exit_code == Ok::<u32, String>(0),
{
    let mut failures: Vec<Failure> = Vec::new();
    let mut i: usize = 0;
    assert(failure_models(failures@) == Seq::<FailureModel>::empty());
    while i < workers.len()
        invariant
            i <= workers@.len(),
            failure_models(failures@) == all_failures(workers@.take(i as int)),
        decreases workers@.len() - i,
    {
        let worker = &workers[i];
        let ghost before = failure_models(failures@);
        let mut j: usize = 0;
        assert(worker.results@.take(0) == Seq::<BatchResult>::empty());
        while j < worker.results.len()
            invariant
                j <= worker.results@.len(),
                failure_models(failures@) == before + failed_results(
                    worker.hostname@,
                    worker.results@.take(j as int),
                ),
            decreases worker.results@.len() - j,
        {
            let result = &worker.results[j];
            assert(worker.results@.take(j + 1).drop_last() == worker.results@.take(j as int));
            if !batch_passed(result) {
                let ghost earlier = failures@;
                let failure = Failure {
                    hostname: worker.hostname.clone(),
                    batch_index: result.batch_index,
                    output: result.output.clone(),
                };
                failures.push(failure);
                assert(failure_models(failures@) == failure_models(earlier).push(failure@));
            }
            j += 1;
        }
        assert(worker.results@.take(j as int) == worker.results@);
        assert(workers@.take(i + 1).drop_last() == workers@.take(i as int));
        i += 1;
    }
    assert(workers@.take(i as int) == workers@);
    proof {
        no_failures_means_all_passed(workers@);
        failures_fail_the_run(workers@);
        assert(failure_models(failures@).len() == failures@.len());
    }
    failures
}

/// A worker has failed batches exactly where not all of its batches passed.
proof fn failed_results_count(hostname: Seq<char>, results: Seq<BatchResult>)
    ensures
        failed_results(hostname, results).len() + passed_count(results) == results.len(),
    decreases results.len(),
{
    if results.len() > 0 {
        failed_results_count(hostname, results.drop_last());
    }
}

/// Whether all batches of all workers passed.
pub open spec fn all_passed(workers: Seq<Worker>) -> bool {
    forall|i: int, j: int|
        0 <= i < workers.len() && 0 <= j < workers[i].results@.len() ==> passed(
            #[trigger] workers[i].results@[j],
        )
}

/// All batches passed where the count says so.
proof fn count_tells(results: Seq<BatchResult>)
    ensures
        passed_count(results) <= results.len(),
        passed_count(results) == results.len() <==> forall|j: int|
            0 <= j < results.len() ==> passed(#[trigger] results[j]),
    decreases results.len(),
{
    if results.len() > 0 {
        let head = results.drop_last();
        count_tells(head);
        if passed_count(results) == results.len() {
            assert forall|j: int| 0 <= j < results.len() implies passed(#[trigger] results[j]) by {
                if j < head.len() {
                    assert(head[j] == results[j]);
                }
            }
        }
        if forall|j: int| 0 <= j < results.len() ==> passed(#[trigger] results[j]) {
            assert forall|j: int| 0 <= j < head.len() implies passed(#[trigger] head[j]) by {
                assert(head[j] == results[j]);
            }
            assert(passed(results[results.len() - 1]));
        }
    }
}

/// There is nothing to report as failed exactly where all batches passed.
pub proof fn no_failures_means_all_passed(workers: Seq<Worker>)
    ensures
        all_failures(workers).len() == 0 <==> all_passed(workers),
    decreases workers.len(),
{
    if workers.len() > 0 {
        let head = workers.drop_last();
        let last = workers.last();
        no_failures_means_all_passed(head);
        failed_results_count(last.hostname@, last.results@);
        count_tells(last.results@);
        if all_failures(workers).len() == 0 {
            assert forall|i: int, j: int|
                0 <= i < workers.len() && 0 <= j < workers[i].results@.len() implies passed(
                #[trigger] workers[i].results@[j],
            ) by {
                if i < head.len() {
                    assert(head[i] == workers[i]);
                    assert(passed(head[i].results@[j]));
                }
            }
        }
        if all_passed(workers) {
            assert forall|i: int, j: int|
                0 <= i < head.len() && 0 <= j < head[i].results@.len() implies passed(
                #[trigger] head[i].results@[j],
            ) by {
                assert(head[i] == workers[i]);
                assert(passed(workers[i].results@[j]));
            }
            assert forall|j: int| 0 <= j < last.results@.len() implies passed(
                #[trigger] last.results@[j],
            ) by {
                assert(passed(workers[workers.len() - 1].results@[j]));
            }
        }
    }
}

/// The line for a worker, with its time in seconds as `seconds`.
pub open spec fn worker_text(
    hostname: Seq<char>,
    passed: nat,
    total: nat,
    seconds: Seq<char>,
) -> Seq<char> {
    if passed < total {
        "  ✗ "@ + hostname + ": "@ + decimal(passed) + "/"@ + decimal(total)
            + " batches passed ("@ + seconds + "s)"@
    } else {
        "  ✓ "@ + hostname + ": "@ + decimal(passed) + " batch"@ + plural(passed)
            + " passed ("@ + seconds + "s)"@
    }
}

/// The line for a worker, with its time in seconds as `seconds`.
pub fn worker_line(summary: &WorkerSummary, seconds: &str) -> (line: String)
    ensures
        line@ == worker_text(
            summary.hostname@,
            summary.passed as nat,
            summary.total as nat,
            seconds@,
        ),
{
    if summary.passed < summary.total {
        let mut line = "  ✗ ".to_owned();
        line.append(summary.hostname.as_str());
        line.append(": ");
        append_decimal(&mut line, summary.passed as u64);
        line.append("/");
        append_decimal(&mut line, summary.total as u64);
        line.append(" batches passed (");
        line.append(seconds);
        line.append("s)");
        line
    } else {
        let mut line = "  ✓ ".to_owned();
        line.append(summary.hostname.as_str());
        line.append(": ");
        append_decimal(&mut line, summary.passed as u64);
        line.append(" batch");
        line.append(plural_ending(summary.passed));
        line.append(" passed (");
        line.append(seconds);
        line.append("s)");
        line
    }
}

/// The line for the run, with its time in seconds as `seconds`.
pub open spec fn total_text(tests: nat, batches: nat, workers: nat, seconds: Seq<char>) -> Seq<
    char,
> {
    "Total: "@ + decimal(tests) + " tests in "@ + decimal(batches) + " batches across "@ + decimal(
        workers,
    ) + " worker(s), wall time "@ + seconds + "s"@
}

/// The line for the run, with its time in seconds as `seconds`.
pub fn total_line(tests: usize, batches: usize, workers: usize, seconds: &str) -> (line: String)
    ensures
        line@ == total_text(tests as nat, batches as nat, workers as nat, seconds@),
{
    let mut line = "Total: ".to_owned();
    append_decimal(&mut line, tests as u64);
    line.append(" tests in ");
    append_decimal(&mut line, batches as u64);
    line.append(" batches across ");
    append_decimal(&mut line, workers as u64);
    line.append(" worker(s), wall time ");
    line.append(seconds);
    line.append("s");
    line
}

/// The headline above what a failed batch wrote.
pub open spec fn headline_text(failure: FailureModel) -> Seq<char> {
    "── ["@ + failure.hostname + "] batch "@ + decimal(failure.batch_index as nat) + " ──"@
}

/// The headline above what a failed batch wrote.
pub fn failure_headline(failure: &Failure) -> (line: String)
    ensures
        line@ == headline_text(failure@),
{
    let mut line = "── [".to_owned();
    line.append(failure.hostname.as_str());
    line.append("] batch ");
    append_decimal(&mut line, failure.batch_index as u64);
    line.append(" ──");
    line
}

/// The lines for the workers, each with its time in seconds.
pub open spec fn worker_texts(summaries: Seq<WorkerSummary>, seconds: Seq<String>) -> Seq<
    Seq<char>,
> {
    Seq::new(
        summaries.len(),
        |i: int|
            worker_text(
                summaries[i].hostname@,
                summaries[i].passed as nat,
                summaries[i].total as nat,
                seconds[i]@,
            ),
    )
}

/// The lines for the failed batches: a blank line, the headline, the output.
pub open spec fn failure_texts(failures: Seq<FailureModel>) -> Seq<Seq<char>>
    decreases failures.len(),
{
    if failures.len() == 0 {
        Seq::empty()
    } else {
        failure_texts(failures.drop_last()) + seq![
            ""@,
            headline_text(failures.last()),
            failures.last().output,
        ]
    }
}

/// What the lines of the report are.
pub open spec fn report(
    summaries: Seq<WorkerSummary>,
    seconds: Seq<String>,
    tests: nat,
    batches: nat,
    wall: Seq<char>,
    failures: Seq<FailureModel>,
) -> Seq<Seq<char>> {
    let overview = seq![""@, "─── Summary ───"@] + worker_texts(
        summaries,
        seconds,
    ) + seq![""@, total_text(tests, batches, summaries.len(), wall)];
    if failures.len() == 0 {
        overview
    } else {
        overview + seq![""@, "─── Failure Details ───"@] + failure_texts(
            failures,
        )
    }
}

/// The lines of the report on a run. `seconds` are the times of the workers and
/// `wall` is that of the run.
pub fn report_lines(
    summaries: &Vec<WorkerSummary>,
    seconds: &Vec<String>,
    tests: usize,
    batches: usize,
    wall: &str,
    failures: &Vec<Failure>,
) -> (lines: Vec<String>)
    requires
        seconds@.len() == summaries@.len(),
    ensures
        texts(lines@) == report(
            summaries@,
            seconds@,
            tests as nat,
            batches as nat,
            wall@,
            failure_models(failures@),
        ),
{
    let mut lines: Vec<String> = Vec::new();
    lines.push("".to_owned());
    lines.push("─── Summary ───".to_owned());
    let ghost head = seq![""@, "─── Summary ───"@];
    let ghost all = worker_texts(summaries@, seconds@);
    let mut i: usize = 0;
    assert(texts(lines@) == head + all.take(0));
    while i < summaries.len()
        invariant
            i <= summaries@.len(),
            seconds@.len() == summaries@.len(),
            all == worker_texts(summaries@, seconds@),
            texts(lines@) == head + all.take(i as int),
        decreases summaries@.len() - i,
    {
        let ghost earlier = lines@;
        let line = worker_line(&summaries[i], seconds[i].as_str());
        lines.push(line);
        assert(texts(lines@) == texts(earlier).push(line@));
        assert(all.take(i + 1) == all.take(i as int).push(line@));
        i += 1;
    }
    assert(all.take(i as int) == all);
    let ghost earlier = lines@;
    let total = total_line(tests, batches, summaries.len(), wall);
    lines.push("".to_owned());
    lines.push(total);
    assert(texts(lines@) == texts(earlier) + seq![""@, total@]);
    if failures.len() > 0 {
        let ghost earlier = lines@;
        lines.push("".to_owned());
        lines.push("─── Failure Details ───".to_owned());
        assert(texts(lines@) == texts(earlier) + seq![""@, "─── Failure Details ───"@]);
        let ghost detailed = texts(lines@);
        let ghost models = failure_models(failures@);
        let mut j: usize = 0;
        assert(models.take(0) == Seq::<FailureModel>::empty());
        assert(texts(lines@) == detailed + failure_texts(models.take(0)));
        while j < failures.len()
            invariant
                j <= failures@.len(),
                models == failure_models(failures@),
                texts(lines@) == detailed + failure_texts(models.take(j as int)),
            decreases failures@.len() - j,
        {
            let failure = &failures[j];
            let ghost earlier = lines@;
            let headline = failure_headline(failure);
            lines.push("".to_owned());
            lines.push(headline);
            lines.push(failure.output.clone());
            assert(texts(lines@) == texts(earlier) + seq![""@, headline@, failure.output@]);
            assert(models.take(j + 1).drop_last() == models.take(j as int));
            assert(models.take(j + 1).last() == failure@);
            j += 1;
        }
        assert(models.take(j as int) == models);
    }
    lines
}

/// A batch passes where its command ended with exit code zero, and only there: any
/// other exit code is a failure, and so is a command that could not be run.
pub proof fn only_exit_code_zero_passes(result: BatchResult)
    ensures
        passed(result) <==> (result.exit_code matches Ok(code) && code == 0),
        result.exit_code is Err ==> !passed(result),
        result.exit_code matches Ok(code) && code != 0 ==> !passed(result),
{
}

/// One failed batch of any worker is enough for failures to be reported, and without
/// one there are none.
pub proof fn failures_fail_the_run(workers: Seq<Worker>)
    ensures
        all_failures(workers).len() == 0 <==> forall|i: int, j: int|
            0 <= i < workers.len() && 0 <= j < workers[i].results@.len() ==> (
            #[trigger] workers[i].results@[j]).exit_code == Ok::<u32, String>(0),
{
    no_failures_means_all_passed(workers);
    assert(all_passed(workers) <==> forall|i: int, j: int|
        0 <= i < workers.len() && 0 <= j < workers[i].results@.len() ==> (
        #[trigger] workers[i].results@[j]).exit_code == Ok::<u32, String>(0)) by {
        if all_passed(workers) {
            assert forall|i: int, j: int|
                0 <= i < workers.len() && 0 <= j < workers[i].results@.len() implies (
            #[trigger] workers[i].results@[j]).exit_code == Ok::<u32, String>(0) by {
                assert(passed(workers[i].results@[j]));
            }
        }
    }
}

/// The passed batches are counted: as many as a filter for exit code zero finds.
pub proof fn passed_are_counted(results: Seq<BatchResult>)
    ensures
        passed_count(results) == results.filter(
            |result: BatchResult| result.exit_code == Ok::<u32, String>(0),
        ).len(),
    decreases results.len(),
{
    reveal(Seq::filter);
    if results.len() > 0 {
        passed_are_counted(results.drop_last());
    }
}

/// The times of batches add up one by one.
pub proof fn times_add_up(results: Seq<BatchResult>)
    ensures
        total_elapsed(results) == results.fold_left(
            0nat,
            |sum: nat, result: BatchResult| sum + result.elapsed as nat,
        ),
    decreases results.len(),
{
    if results.len() > 0 {
        times_add_up(results.drop_last());
    }
}

/// What is reported as failed goes result by result and worker by worker: a result
/// is reported where its exit code is not zero or there is none, with the host name of
/// its worker, its number and its output, behind what came before it.
pub proof fn failures_go_by_result(
    hostname: Seq<char>,
    results: Seq<BatchResult>,
    result: BatchResult,
    workers: Seq<Worker>,
    worker: Worker,
)
    ensures
        failed_results(hostname, Seq::empty()) == Seq::<FailureModel>::empty(),
        failed_results(hostname, results.push(result)) == failed_results(hostname, results) + (
        if result.exit_code == Ok::<u32, String>(0) {
            Seq::empty()
        } else {
            seq![
                FailureModel {
                    hostname,
                    batch_index: result.batch_index,
                    output: result.output@,
                },
            ]
        }),
        all_failures(Seq::empty()) == Seq::<FailureModel>::empty(),
        all_failures(workers.push(worker)) == all_failures(workers) + failed_results(
            worker.hostname@,
            worker.results@,
        ),
{
    assert(results.push(result).drop_last() == results);
    assert(workers.push(worker).drop_last() == workers);
    assert(failed_results(hostname, results.push(result)) =~= failed_results(hostname, results) + (
    if result.exit_code == Ok::<u32, String>(0) {
        Seq::empty()
    } else {
        seq![FailureModel { hostname, batch_index: result.batch_index, output: result.output@ }]
    }));
}

/// The models of failures are those of each.
pub proof fn every_failure_has_its_model(failures: Seq<Failure>)
    ensures
        failure_models(failures).len() == failures.len(),
        forall|i: int|
            0 <= i < failures.len() ==> {
                &&& (#[trigger] failure_models(failures)[i]).hostname == failures[i].hostname@
                &&& failure_models(failures)[i].batch_index == failures[i].batch_index
                &&& failure_models(failures)[i].output == failures[i].output@
            },
{
}

/// What a summary says of its worker, value by value.
pub proof fn summary_says_how_a_worker_did(summary: WorkerSummary, worker: Worker)
    requires
        summarizes(summary, worker),
    ensures
        summary.hostname@ == worker.hostname@,
        summary.total == worker.results@.len(),
        summary.passed == worker.results@.filter(
            |result: BatchResult| result.exit_code == Ok::<u32, String>(0),
        ).len(),
        ({
            let sum = worker.results@.fold_left(
                0nat,
                |sum: nat, result: BatchResult| sum + result.elapsed as nat,
            );
            &&& sum <= LONGEST_TIME ==> summary.elapsed == Some(sum as u128)
            &&& sum > LONGEST_TIME ==> summary.elapsed is None
        }),
{
    passed_are_counted(worker.results@);
    times_add_up(worker.results@);
}

/// What the lines of a report name: a worker some of whose batches failed is marked
/// and gets both numbers, one whose batches all passed gets theirs, and the last line
/// has the numbers of tests, batches and workers.
pub proof fn lines_name_their_numbers(
    hostname: Seq<char>,
    passed: nat,
    total: nat,
    tests: nat,
    seconds: Seq<char>,
    failure: FailureModel,
)
    ensures
        passed < total ==> worker_text(hostname, passed, total, seconds) == "  ✗ "@ + hostname
            + ": "@ + decimal(passed) + "/"@ + decimal(total) + " batches passed ("@ + seconds
            + "s)"@,
        passed >= total && passed == 1 ==> worker_text(hostname, passed, total, seconds)
            == "  ✓ "@ + hostname + ": "@ + decimal(passed) + " batch"@ + ""@ + " passed ("@
            + seconds + "s)"@,
        passed >= total && passed != 1 ==> worker_text(hostname, passed, total, seconds)
            == "  ✓ "@ + hostname + ": "@ + decimal(passed) + " batch"@ + "es"@ + " passed ("@
            + seconds + "s)"@,
        total_text(tests, total, passed, seconds) == "Total: "@ + decimal(tests) + " tests in "@
            + decimal(total) + " batches across "@ + decimal(passed) + " worker(s), wall time "@
            + seconds + "s"@,
        headline_text(failure) == "── ["@ + failure.hostname + "] batch "@ + decimal(
            failure.batch_index as nat,
        ) + " ──"@,
{
}

/// Where the lines of a failure stand.
proof fn failure_lines(failures: Seq<FailureModel>, k: int)
    requires
        0 <= k < failures.len(),
    ensures
        failure_texts(failures).len() == 3 * failures.len(),
        failure_texts(failures)[3 * k] == ""@,
        failure_texts(failures)[3 * k + 1] == headline_text(failures[k]),
        failure_texts(failures)[3 * k + 2] == failures[k].output,
    decreases failures.len(),
{
    let head = failures.drop_last();
    if head.len() == 0 {
        assert(failure_texts(head).len() == 0);
    } else if k < head.len() {
        failure_lines(head, k);
    } else {
        failure_lines(head, 0);
    }
}

/// A report has a line for each worker and for the run, and below them, where batches
/// failed, three for each failure: a blank one, the headline and the whole output.
pub proof fn report_leaves_nothing_out(
    summaries: Seq<WorkerSummary>,
    seconds: Seq<String>,
    tests: nat,
    batches: nat,
    wall: Seq<char>,
    failures: Seq<FailureModel>,
    i: int,
    k: int,
)
    ensures
        ({
            let lines = report(summaries, seconds, tests, batches, wall, failures);
            let n = summaries.len() as int;
            &&& lines.len() == if failures.len() == 0 {
                n + 4
            } else {
                n + 6 + 3 * failures.len()
            }
            &&& lines[0] == ""@ && lines[1] == "─── Summary ───"@
            &&& 0 <= i < n ==> lines[2 + i] == worker_text(
                summaries[i].hostname@,
                summaries[i].passed as nat,
                summaries[i].total as nat,
                seconds[i]@,
            )
            &&& lines[n + 2] == ""@
            &&& lines[n + 3] == total_text(tests, batches, summaries.len(), wall)
            &&& 0 <= k < failures.len() ==> {
                &&& lines[n + 4] == ""@
                &&& lines[n + 5] == "─── Failure Details ───"@
                &&& lines[n + 6 + 3 * k] == ""@
                &&& lines[n + 7 + 3 * k] == headline_text(failures[k])
                &&& lines[n + 8 + 3 * k] == failures[k].output
            }
        }),
{
    if failures.len() > 0 {
        failure_lines(failures, 0);
    }
    if 0 <= k < failures.len() {
        failure_lines(failures, k);
    }
}

} // verus!
