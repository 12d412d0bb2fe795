//! The decisions of a run: whether there is something to run and someone to run
//! it, whether the workers are ready, and how the run ends.
use crate::batch::{create_batches, splits, Batch};
use crate::discovery::{sort_peers, Peer};
use crate::dispatch::{idle_workers, Dispatch, Worker};
use crate::nextest::ListedTest;
use crate::order::stable_sort_of;
use crate::summary::{all_failures, failure_models, failures_fail_the_run, Failure};
use crate::text::{append_decimal, decimal, decode_lossy, text_le, utf8_lossy};
use std::collections::VecDeque;
use vstd::prelude::*;

verus! {

/// Why a run ends without success.
pub enum RunError {
    /// The tests could not be listed.
    Listing { stderr: String },
    /// There are no tests.
    NoTests,
    /// There are no peers.
    NoPeers,
    /// The sources could not be packed.
    Packing { status: String },
    /// A worker cannot be connected to.
    Connect { peer: String },
    /// The sources could not be sent to a worker.
    Upload { hostname: String },
    /// The sources could not be unpacked on a worker.
    Unpack { hostname: String },
    /// The build on a worker failed.
    Build { hostname: String, code: u32 },
    /// The build on a worker could not be run.
    BuildCommand { hostname: String, cause: String },
    /// Some batches did not pass.
    Batches,
}

/// The words for an error.
pub open spec fn run_error_text(error: RunError) -> Seq<char> {
    match error {
        RunError::Listing { stderr } => "cargo nextest list failed:\n"@ + stderr@,
        RunError::NoTests => "No tests found by `cargo nextest list`"@,
        RunError::NoPeers => "No partest peers found on the local network.\nMake sure `partest daemon` is running on at least one machine."@,
        RunError::Packing { status } => "tar failed with status "@ + status@,
        RunError::Connect { peer } => "failed to connect to "@ + peer@,
        RunError::Upload { hostname } => "failed to upload source to "@ + hostname@,
        RunError::Unpack { hostname } => "failed to extract source on "@ + hostname@,
        RunError::Build { hostname, code } => "Pre-build failed on "@ + hostname@
            + " with exit code "@ + decimal(code as nat),
        RunError::BuildCommand { hostname, cause } => "Pre-build failed on "@ + hostname@ + ": "@
            + cause@,
        RunError::Batches => "Some batches had test failures"@,
    }
}

impl RunError {
    /// The words for the error.
    pub fn message(&self) -> (text: String)
        ensures
            text@ == run_error_text(*self),
    {
        match self {
            RunError::Listing { stderr } => "cargo nextest list failed:\n".to_owned().concat(
                stderr.as_str(),
            ),
            RunError::NoTests => "No tests found by `cargo nextest list`".to_owned(),
            RunError::NoPeers => "No partest peers found on the local network.\nMake sure `partest daemon` is running on at least one machine.".to_owned(),
            RunError::Packing { status } => "tar failed with status ".to_owned().concat(
                status.as_str(),
            ),
            RunError::Connect { peer } => "failed to connect to ".to_owned().concat(peer.as_str()),
            RunError::Upload { hostname } => "failed to upload source to ".to_owned().concat(
                hostname.as_str(),
            ),
            RunError::Unpack { hostname } => "failed to extract source on ".to_owned().concat(
                hostname.as_str(),
            ),
            RunError::Build { hostname, code } => {
                let mut text = "Pre-build failed on ".to_owned();
                text.append(hostname.as_str());
                text.append(" with exit code ");
                append_decimal(&mut text, *code as u64);
                text
            },
            RunError::BuildCommand { hostname, cause } => {
                let mut text = "Pre-build failed on ".to_owned();
                text.append(hostname.as_str());
                text.append(": ");
                text.append(cause.as_str());
                text
            },
            RunError::Batches => "Some batches had test failures".to_owned(),
        }
    }
}

/// Whether the tests were listed; where not, what was written about it.
pub fn check_listing(success: bool, stderr: &[u8]) -> (outcome: Result<(), RunError>)
    ensures
        success <==> outcome is Ok,
        outcome matches Err(error) ==> (error matches RunError::Listing { stderr: text } && text@
            == utf8_lossy(stderr@)),
{
    if success {
        Ok(())
    } else {
        Err(RunError::Listing { stderr: decode_lossy(stderr) })
    }
}

/// Whether the sources were packed; where not, the status of the command.
pub fn check_packing(success: bool, status: &str) -> (outcome: Result<(), RunError>)
    ensures
        success <==> outcome is Ok,
        outcome matches Err(error) ==> (error matches RunError::Packing { status: text } && text@
            == status@),
{
    if success {
        Ok(())
    } else {
        Err(RunError::Packing { status: status.to_owned() })
    }
}

/// The batches to run, where there are tests at all.
pub fn plan_batches(tests: Vec<ListedTest>, batch_size: usize) -> (batches: Result<
    VecDeque<Batch>,
    RunError,
>)
    requires
        tests@.len() > 0 ==> batch_size > 0,
    ensures
        match batches {
            Ok(batches) => tests@.len() > 0 && splits(tests@, batch_size as nat, batches@),
            Err(error) => tests@.len() == 0 && error is NoTests,
        },
{
    if tests.len() == 0 {
        Err(RunError::NoTests)
    } else {
        Ok(create_batches(tests, batch_size))
    }
}

/// The workers of a run, where there are peers at all.
pub fn plan_workers(peers: Vec<Peer>) -> (workers: Result<Vec<Peer>, RunError>)
    ensures
        match workers {
            Ok(workers) => peers@.len() > 0 && stable_sort_of(peers@, workers@),
            Err(error) => peers@.len() == 0 && error is NoPeers,
        },
        workers matches Ok(workers) ==> workers@.to_multiset() == peers@.to_multiset(),
        workers matches Ok(workers) ==> forall|i: int, j: int|
            0 <= i < j < workers@.len() ==> text_le(
                (#[trigger] workers@[i]).ip@,
                (#[trigger] workers@[j]).ip@,
            ),
{
    if peers.len() == 0 {
        Err(RunError::NoPeers)
    } else {
        Ok(sort_peers(peers))
    }
}

/// What to show of a build.
pub open spec fn build_text(hostname: Seq<char>, result: Result<u32, String>) -> Seq<char> {
    match result {
        Ok(code) => if code == 0 {
            hostname + "  — ✓ build complete"@
        } else {
            hostname + "  — ✗ build failed (exit "@ + decimal(code as nat) + ")"@
        },
        Err(_) => hostname + "  — ✗ build error"@,
    }
}

/// Whether a build succeeded.
pub open spec fn built(result: Result<u32, String>) -> bool {
    result == Ok::<u32, String>(0)
}

/// Whether an error is the right one for a build that did not succeed.
pub open spec fn build_error(
    hostname: Seq<char>,
    result: Result<u32, String>,
    error: RunError,
) -> bool {
    match result {
        Ok(code) => error matches RunError::Build { hostname: name, code: exit } && name@ == hostname
            && exit == code,
        Err(text) => error matches RunError::BuildCommand { hostname: name, cause } && name@
            == hostname && cause@ == text@,
    }
}

/// What to show of a build, and the error where it did not succeed.
pub fn judge_build(hostname: &str, result: &Result<u32, String>) -> (verdict: (
    String,
    Option<RunError>,
))
    ensures
        verdict.0@ == build_text(hostname@, *result),
        verdict.1 is None <==> (*result matches Ok(code) && code == 0),
        match verdict.1 {
            None => built(*result),
            Some(error) => !built(*result) && build_error(hostname@, *result, error),
        },
{
    let mut message = hostname.to_owned();
    match result {
        Ok(code) => if *code == 0 {
            message.append("  — ✓ build complete");
            (message, None)
        } else {
            message.append("  — ✗ build failed (exit ");
            append_decimal(&mut message, *code as u64);
            message.append(")");
            (message, Some(RunError::Build { hostname: hostname.to_owned(), code: *code }))
        },
        Err(cause) => {
            message.append("  — ✗ build error");
            (
                message,
                Some(
                    RunError::BuildCommand {
                        hostname: hostname.to_owned(),
                        cause: cause.clone(),
                    },
                ),
            )
        },
    }
}

/// What the builds on the workers amount to: the messages to show, worker by
/// worker up to the first that failed, and the error of that one.
pub struct BuildReport {
    pub messages: Vec<String>,
    pub failure: Option<RunError>,
}

/// How many of the builds succeeded before the first that did not.
pub open spec fn built_first(results: Seq<Result<u32, String>>) -> nat
    decreases results.len(),
{
    if results.len() == 0 || !built(results[0]) {
        0
    } else {
        1 + built_first(results.drop_first())
    }
}

/// The builds before the first that failed succeeded.
proof fn built_first_is(results: Seq<Result<u32, String>>, n: int)
    requires
        0 <= n <= results.len(),
        forall|i: int| 0 <= i < n ==> built(#[trigger] results[i]),
        n < results.len() ==> !built(results[n]),
    ensures
        built_first(results) == n,
    decreases n,
{
    if n > 0 {
        assert(built(results[0]));
        let rest = results.drop_first();
        assert forall|i: int| 0 <= i < n - 1 implies built(#[trigger] rest[i]) by {
            assert(rest[i] == results[i + 1]);
        }
        built_first_is(rest, n - 1);
    }
}

/// The builds that are counted as the first ones succeeded, and the next one, if
/// any, did not.
pub proof fn built_before_first(results: Seq<Result<u32, String>>)
    ensures
        built_first(results) <= results.len(),
        forall|i: int| 0 <= i < built_first(results) ==> built(#[trigger] results[i]),
        built_first(results) < results.len() ==> !built(results[built_first(results) as int]),
    decreases results.len(),
{
    if results.len() > 0 && built(results[0]) {
        let rest = results.drop_first();
        built_before_first(rest);
        assert forall|i: int| 0 <= i < built_first(results) implies built(#[trigger] results[i]) by {
            if i > 0 {
                assert(built(rest[i - 1]));
            }
        }
    }
}

/// Whether `messages` is what to show of the builds: one message per worker, up
/// to the first whose build failed.
pub open spec fn build_messages(
    hostnames: Seq<String>,
    results: Seq<Result<u32, String>>,
    messages: Seq<String>,
) -> bool {
    let n = built_first(results) as int;
    &&& messages.len() == if n < results.len() {
        n + 1
    } else {
        n
    }
    &&& forall|i: int|
        0 <= i < messages.len() ==> (#[trigger] messages[i])@ == build_text(
            hostnames[i]@,
            results[i],
        )
}

/// Goes through the builds in the order of the workers.
pub fn check_builds(hostnames: &Vec<String>, results: &Vec<Result<u32, String>>) -> (report:
    BuildReport)
    requires
        hostnames@.len() == results@.len(),
    ensures
        build_messages(hostnames@, results@, report.messages@),
        match report.failure {
            None => built_first(results@) == results@.len(),
            Some(error) => {
                let n = built_first(results@) as int;
                n < results@.len() && build_error(hostnames@[n]@, results@[n], error)
            },
        },
{
    let mut messages: Vec<String> = Vec::new();
    let mut i: usize = 0;
    while i < results.len()
        invariant
            i <= results@.len(),
            hostnames@.len() == results@.len(),
            messages@.len() == i,
            forall|j: int| 0 <= j < i ==> built(#[trigger] results@[j]),
            forall|j: int|
                0 <= j < i ==> (#[trigger] messages@[j])@ == build_text(
                    hostnames@[j]@,
                    results@[j],
                ),
        decreases results@.len() - i,
    {
        let (message, failure) = judge_build(hostnames[i].as_str(), &results[i]);
        messages.push(message);
        match failure {
            None => {},
            Some(error) => {
                proof {
                    built_first_is(results@, i as int);
                }
                return BuildReport { messages, failure: Some(error) };
            },
        }
        i += 1;
    }
    proof {
        built_first_is(results@, i as int);
    }
    BuildReport { messages, failure: None }
}

/// What comes of the builds: the messages to show, and the dispatch of the
/// batches or the reason why there is none.
pub struct DispatchStart {
    pub messages: Vec<String>,
    pub dispatch: Result<Dispatch, RunError>,
}

/// Starts handing out the batches, where all workers have built the tests.
pub fn begin_dispatch(
    batches: VecDeque<Batch>,
    hostnames: Vec<String>,
    builds: &Vec<Result<u32, String>>,
    release: bool,
    nextest_args: Vec<String>,
) -> (start: DispatchStart)
    requires
        hostnames@.len() == builds@.len(),
    ensures
        build_messages(hostnames@, builds@, start.messages@),
        start.dispatch is Ok <==> forall|i: int|
            0 <= i < builds@.len() ==> #[trigger] builds@[i] == Ok::<u32, String>(0),
        match start.dispatch {
            Ok(dispatch) => {
                &&& forall|i: int| 0 <= i < builds@.len() ==> built(#[trigger] builds@[i])
                &&& dispatch.queue@ == batches@
                &&& dispatch.release == release
                &&& dispatch.nextest_args == nextest_args
                &&& idle_workers(hostnames@, dispatch.workers@)
                &&& dispatch.serves(batches@)
            },
            Err(error) => {
                let n = built_first(builds@) as int;
                n < builds@.len() && build_error(hostnames@[n]@, builds@[n], error)
            },
        },
{
    let report = check_builds(&hostnames, builds);
    proof {
        built_before_first(builds@);
        only_exit_code_zero_is_built(builds@);
    }
    match report.failure {
        Some(error) => DispatchStart { messages: report.messages, dispatch: Err(error) },
        None => DispatchStart {
            messages: report.messages,
            dispatch: Ok(Dispatch::new(batches, hostnames, release, nextest_args)),
        },
    }
}

/// Whether a run ends well whose batches have all been run.
pub open spec fn ends_well(failures: Seq<Failure>) -> bool {
    failures.len() == 0
}

/// How a run ends whose batches have all been run.
pub fn conclude(failures: &Vec<Failure>) -> (outcome: Result<(), RunError>)
    ensures
        outcome is Ok <==> ends_well(failures@),
        failures@.len() == 0 <==> outcome is Ok,
        outcome matches Err(error) ==> error is Batches,
{
    if failures.len() == 0 {
        Ok(())
    } else {
        Err(RunError::Batches)
    }
}

/// A stage of a run.
#[derive(Debug, Clone, Copy, PartialEq, Eq)]
pub enum Stage {
    /// The tests are listed and split into batches.
    Listing,
    /// The peers are discovered.
    Discovery,
    /// The sources are packed.
    Packing,
    /// A peer is connected to.
    Connecting { peer: usize },
    /// The sources are sent to a peer.
    Uploading { peer: usize },
    /// The sources are unpacked on a peer.
    Unpacking { peer: usize },
    /// All peers build the tests.
    Building,
    /// The peers run the batches.
    Testing,
}

/// What follows a stage.
#[derive(Debug, PartialEq, Eq)]
pub enum Next<E> {
    /// Another stage.
    Go(Stage),
    /// The end of the run.
    End(Result<(), E>),
}

/// The stages of a run with a number of peers, in their order: all peers are
/// connected to before the first gets the sources, and each unpacks them before
/// the next gets them.
pub open spec fn stages(peers: usize) -> Seq<Stage> {
    seq![Stage::Listing, Stage::Discovery, Stage::Packing] + Seq::new(
        peers as nat,
        |i: int| Stage::Connecting { peer: i as usize },
    ) + Seq::new(
        2 * peers as nat,
        |i: int|
            if i % 2 == 0 {
                Stage::Uploading { peer: (i / 2) as usize }
            } else {
                Stage::Unpacking { peer: (i / 2) as usize }
            },
    ) + seq![Stage::Building, Stage::Testing]
}

/// The stage that follows another; none behind the last. How many peers there are
/// does not matter before they are discovered.
pub open spec fn next_stage(stage: Stage, peers: usize) -> Option<Stage> {
    match stage {
        Stage::Listing => Some(Stage::Discovery),
        Stage::Discovery => Some(Stage::Packing),
        Stage::Packing => if peers > 0 {
            Some(Stage::Connecting { peer: 0 })
        } else {
            Some(Stage::Building)
        },
        Stage::Connecting { peer } => if peer + 1 < peers {
            Some(Stage::Connecting { peer: (peer + 1) as usize })
        } else {
            Some(Stage::Uploading { peer: 0 })
        },
        Stage::Uploading { peer } => Some(Stage::Unpacking { peer }),
        Stage::Unpacking { peer } => if peer + 1 < peers {
            Some(Stage::Uploading { peer: (peer + 1) as usize })
        } else {
            Some(Stage::Building)
        },
        Stage::Building => Some(Stage::Testing),
        Stage::Testing => None,
    }
}

/// What follows a stage with an outcome: a failure ends the run, and so does the
/// success of the last stage.
pub open spec fn after<E>(stage: Stage, outcome: Result<(), E>, peers: usize) -> Next<E> {
    match outcome {
        Err(error) => Next::End(Err(error)),
        Ok(_) => match next_stage(stage, peers) {
            Some(stage) => Next::Go(stage),
            None => Next::End(Ok(())),
        },
    }
}

/// The first stage of a run.
pub fn first_stage() -> (stage: Stage)
    ensures
        stage == Stage::Listing,
{
    Stage::Listing
}

/// What follows a stage of a run with `peers` peers.
pub fn advance<E>(stage: Stage, outcome: Result<(), E>, peers: usize) -> (next: Next<E>)
    ensures
        next == after(stage, outcome, peers),
        outcome matches Err(error) ==> next == Next::<E>::End(Err(error)),
        outcome is Ok && stage is Testing ==> next == Next::<E>::End(Ok(())),
        outcome is Ok && !(stage is Testing) ==> next is Go,
{
    match outcome {
        Err(error) => Next::End(Err(error)),
        Ok(_) => match stage {
            Stage::Listing => Next::Go(Stage::Discovery),
            Stage::Discovery => Next::Go(Stage::Packing),
            Stage::Packing => if peers > 0 {
                Next::Go(Stage::Connecting { peer: 0 })
            } else {
                Next::Go(Stage::Building)
            },
            Stage::Connecting { peer } => if peer < peers && peer + 1 < peers {
                Next::Go(Stage::Connecting { peer: peer + 1 })
            } else {
                Next::Go(Stage::Uploading { peer: 0 })
            },
            Stage::Uploading { peer } => Next::Go(Stage::Unpacking { peer }),
            Stage::Unpacking { peer } => if peer < peers && peer + 1 < peers {
                Next::Go(Stage::Uploading { peer: peer + 1 })
            } else {
                Next::Go(Stage::Building)
            },
            Stage::Building => Next::Go(Stage::Testing),
            Stage::Testing => Next::End(Ok(())),
        },
    }
}

/// How a run ends that is at a stage, where the outcomes from there on are these;
/// not at all where it needs more of them.
pub open spec fn run_end<E>(stage: Stage, outcomes: Seq<Result<(), E>>, peers: usize) -> Option<
    Result<(), E>,
>
    decreases outcomes.len(),
{
    if outcomes.len() == 0 {
        None
    } else {
        match after(stage, outcomes[0], peers) {
            Next::End(end) => Some(end),
            Next::Go(stage) => run_end(stage, outcomes.drop_first(), peers),
        }
    }
}

/// The stages come in their order: a run begins with the first of them, each is
/// followed by the next, and nothing follows the last.
pub proof fn stages_come_in_order(peers: usize, k: int)
    requires
        0 <= k < stages(peers).len(),
    ensures
        stages(peers)[0] == Stage::Listing,
        next_stage(stages(peers)[k], peers) == if k + 1 < stages(peers).len() {
            Some(stages(peers)[k + 1])
        } else {
            None
        },
{
    let all = stages(peers);
    let n = peers as int;
    assert(all.len() == 5 + 3 * n);
    if 3 <= k < 3 + n {
        assert(all[k] == Stage::Connecting { peer: (k - 3) as usize });
    } else if 3 + n <= k < 3 + 3 * n {
        let i = k - 3 - n;
        assert(all[k] == if i % 2 == 0 {
            Stage::Uploading { peer: (i / 2) as usize }
        } else {
            Stage::Unpacking { peer: (i / 2) as usize }
        });
    }
    let j = k + 1;
    if 3 <= j < 3 + n {
        assert(all[j] == Stage::Connecting { peer: (j - 3) as usize });
    } else if 3 + n <= j < 3 + 3 * n {
        let i = j - 3 - n;
        assert(all[j] == if i % 2 == 0 {
            Stage::Uploading { peer: (i / 2) as usize }
        } else {
            Stage::Unpacking { peer: (i / 2) as usize }
        });
    }
}

/// From a stage on, a run passes over outcomes that are successes.
proof fn successes_are_passed<E>(peers: usize, at: int, outcomes: Seq<Result<(), E>>, k: int)
    requires
        0 <= at,
        0 <= k <= outcomes.len(),
        at + k < stages(peers).len(),
        forall|j: int| 0 <= j < k ==> (#[trigger] outcomes[j]) is Ok,
    ensures
        run_end(stages(peers)[at], outcomes, peers) == run_end(
            stages(peers)[at + k],
            outcomes.skip(k),
            peers,
        ),
    decreases k,
{
    if k == 0 {
        assert(outcomes.skip(0) == outcomes);
    } else {
        let rest = outcomes.drop_first();
        stages_come_in_order(peers, at);
        assert(outcomes[0] is Ok);
        assert forall|j: int| 0 <= j < k - 1 implies (#[trigger] rest[j]) is Ok by {
            assert(rest[j] == outcomes[j + 1]);
        }
        successes_are_passed(peers, at + 1, rest, k - 1);
        assert(rest.skip(k - 1) == outcomes.skip(k));
    }
}

/// A run succeeds where every stage does, and only then: with a success of each
/// stage, in their order, it ends well, and with fewer it has not ended.
pub proof fn run_succeeds_with_every_stage<E>(outcomes: Seq<Result<(), E>>, peers: usize)
    requires
        outcomes.len() <= stages(peers).len(),
        forall|j: int| 0 <= j < outcomes.len() ==> (#[trigger] outcomes[j]) is Ok,
    ensures
        run_end(Stage::Listing, outcomes, peers) == if outcomes.len() == stages(peers).len() {
            Some(Ok::<(), E>(()))
        } else {
            None
        },
{
    let n = outcomes.len() as int;
    stages_come_in_order(peers, 0);
    if n < stages(peers).len() {
        successes_are_passed(peers, 0, outcomes, n);
    } else {
        stages_come_in_order(peers, n - 1);
        successes_are_passed(peers, 0, outcomes, n - 1);
        assert(outcomes.skip(n - 1)[0] == outcomes[n - 1]);
    }
}

/// The first failure ends a run, with its error, whatever would come after it: no
/// stage behind it is reached, nor a peer behind the one that failed.
pub proof fn run_stops_at_first_failure<E>(outcomes: Seq<Result<(), E>>, peers: usize, k: int)
    requires
        0 <= k < outcomes.len(),
        k < stages(peers).len(),
        forall|j: int| 0 <= j < k ==> (#[trigger] outcomes[j]) is Ok,
        outcomes[k] is Err,
    ensures
        run_end(Stage::Listing, outcomes, peers) == Some(outcomes[k]),
        run_end(Stage::Listing, outcomes.take(k + 1), peers) == Some(outcomes[k]),
{
    stages_come_in_order(peers, 0);
    successes_are_passed(peers, 0, outcomes, k);
    assert(outcomes.skip(k)[0] == outcomes[k]);
    let few = outcomes.take(k + 1);
    assert forall|j: int| 0 <= j < k implies (#[trigger] few[j]) is Ok by {
        assert(few[j] == outcomes[j]);
    }
    successes_are_passed(peers, 0, few, k);
    assert(few.skip(k)[0] == outcomes[k]);
}

/// A worker has built the tests where its build ended with exit code zero, and only
/// there; so all have where no build is among the first that did not.
pub proof fn only_exit_code_zero_is_built(results: Seq<Result<u32, String>>)
    ensures
        forall|result: Result<u32, String>| #[trigger]
            built(result) <==> (result matches Ok(code) && code == 0),
        built_first(results) == results.len() <==> forall|i: int|
            0 <= i < results.len() ==> #[trigger] results[i] == Ok::<u32, String>(0),
        built_first(results) < results.len() ==> results[built_first(results) as int] != Ok::<
            u32,
            String,
        >(0) && forall|i: int|
            0 <= i < built_first(results) ==> #[trigger] results[i] == Ok::<u32, String>(0),
{
    built_before_first(results);
    if forall|i: int| 0 <= i < results.len() ==> #[trigger] results[i] == Ok::<u32, String>(0) {
        if built_first(results) < results.len() {
            assert(results[built_first(results) as int] == Ok::<u32, String>(0));
        }
    }
    assert forall|i: int| 0 <= i < built_first(results) implies #[trigger] results[i] == Ok::<
        u32,
        String,
    >(0) by {
        assert(built(results[i]));
    }
}

/// What is shown of a build, and the error that it ends the run with, name the worker
/// and the exit code.
pub proof fn builds_name_their_worker(
    hostname: Seq<char>,
    code: u32,
    cause: String,
    error: RunError,
)
    ensures
        build_text(hostname, Ok(0)) == hostname + "  — ✓ build complete"@,
        code != 0 ==> build_text(hostname, Ok(code)) == hostname + "  — ✗ build failed (exit "@
            + decimal(code as nat) + ")"@,
        build_text(hostname, Err(cause)) == hostname + "  — ✗ build error"@,
        build_error(hostname, Ok(code), error) ==> run_error_text(error) == "Pre-build failed on "@
            + hostname + " with exit code "@ + decimal(code as nat),
        build_error(hostname, Err(cause), error) ==> run_error_text(error)
            == "Pre-build failed on "@ + hostname + ": "@ + cause@,
{
}

/// Builds are shown worker by worker: each message is that of its worker and its
/// build, there is one for each worker up to the first whose build failed, and none
/// beyond.
pub proof fn builds_are_shown_in_order(
    hostnames: Seq<String>,
    results: Seq<Result<u32, String>>,
    messages: Seq<String>,
    i: int,
)
    requires
        build_messages(hostnames, results, messages),
        hostnames.len() == results.len(),
    ensures
        messages.len() <= results.len(),
        0 <= i < messages.len() ==> messages[i]@ == build_text(hostnames[i]@, results[i]),
        0 <= i < messages.len() - 1 ==> results[i] == Ok::<u32, String>(0),
        messages.len() < results.len() ==> messages.len() > 0 && results[messages.len() - 1]
            != Ok::<u32, String>(0),
{
    only_exit_code_zero_is_built(results);
    built_before_first(results);
}

/// The words for each error name what it is about.
pub proof fn run_errors_name_their_subject(text: String)
    ensures
        run_error_text(RunError::Listing { stderr: text }) == "cargo nextest list failed:\n"@
            + text@,
        run_error_text(RunError::Packing { status: text }) == "tar failed with status "@ + text@,
        run_error_text(RunError::Connect { peer: text }) == "failed to connect to "@ + text@,
        run_error_text(RunError::Upload { hostname: text }) == "failed to upload source to "@
            + text@,
        run_error_text(RunError::Unpack { hostname: text }) == "failed to extract source on "@
            + text@,
{
}

/// Which stages there are, with any number of peers: listing, discovery and packing
/// come first, each peer is connected to, then each gets the sources and unpacks them,
/// one peer after the other, and building and testing come last.
pub proof fn every_peer_has_its_stages(peers: usize, peer: usize)
    ensures
        ({
            let all = stages(peers);
            let n = peers as int;
            &&& all.len() == 3 * n + 5
            &&& all[0] == Stage::Listing && all[1] == Stage::Discovery && all[2] == Stage::Packing
            &&& peer < peers ==> {
                &&& all[3 + peer] == Stage::Connecting { peer }
                &&& all[3 + n + 2 * peer] == Stage::Uploading { peer }
                &&& all[4 + n + 2 * peer] == Stage::Unpacking { peer }
            }
            &&& all[3 * n + 3] == Stage::Building && all[3 * n + 4] == Stage::Testing
        }),
{
    let i: int = 2 * peer;
    assert(i / 2 == peer && i % 2 == 0);
    assert((i + 1) / 2 == peer && (i + 1) % 2 == 1);
}

/// What follows a stage: the stage behind it in their order after a success, the end
/// after the success of the last, and the end with the error after a failure.
pub proof fn stages_follow_their_order<E>(peers: usize, k: int, error: E)
    requires
        0 <= k < stages(peers).len(),
    ensures
        after(stages(peers)[k], Err::<(), E>(error), peers) == Next::End(Err::<(), E>(error)),
        k + 1 < stages(peers).len() ==> after(stages(peers)[k], Ok::<(), E>(()), peers)
            == Next::<E>::Go(stages(peers)[k + 1]),
        k + 1 == stages(peers).len() ==> after(stages(peers)[k], Ok::<(), E>(()), peers)
            == Next::<E>::End(Ok(())),
{
    stages_come_in_order(peers, k);
}

/// A run ends well where the command of every batch of every worker ended with exit
/// code zero, and only there: any other exit code, and any command that could not be
/// run, makes it end with an error.
pub proof fn run_ends_well_with_exit_code_zero(workers: Seq<Worker>, failures: Seq<Failure>)
    requires
        failure_models(failures) == all_failures(workers),
    ensures
        ends_well(failures) <==> forall|i: int, j: int|
            0 <= i < workers.len() && 0 <= j < workers[i].results@.len() ==> (
            #[trigger] workers[i].results@[j]).exit_code == Ok::<u32, String>(0),
{
    failures_fail_the_run(workers);
    assert(failure_models(failures).len() == failures.len());
}

} // verus!
