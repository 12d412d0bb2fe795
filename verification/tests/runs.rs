use partest::batch::create_batches;
use partest::dispatch::{BatchResult, Dispatch, Step, Worker};
use partest::nextest::ListedTest;
use partest::progress::{building_message, connecting_message, idle_message};
use partest::run::{
    advance, begin_dispatch, check_packing, conclude, first_stage, judge_build, Next, RunError,
    Stage,
};
use partest::summary::{
    batch_passed, collect_failures, report_lines, sum_elapsed, summarize_worker, LONGEST_TIME,
};

fn strings(items: &[&str]) -> Vec<String> {
    items.iter().map(|s| s.to_string()).collect()
}

fn listed(names: &[&str]) -> Vec<ListedTest> {
    names
        .iter()
        .map(|name| ListedTest { binary: "b".to_string(), name: name.to_string() })
        .collect()
}

fn result(batch_index: usize, exit_code: Result<u32, String>, elapsed: u128) -> BatchResult {
    BatchResult { batch_index, exit_code, elapsed, output: format!("out {batch_index}\n") }
}

fn worker(hostname: &str, results: Vec<BatchResult>) -> Worker {
    Worker { hostname: hostname.to_string(), running: None, results }
}

fn dispatch(tests: &[&str], size: usize, hostnames: &[&str]) -> Dispatch {
    let batches = create_batches(listed(tests), size);
    Dispatch::new(batches, strings(hostnames), true, strings(&["-v"]))
}

#[test]
fn an_idle_worker_takes_the_next_batch() {
    let mut dispatch = dispatch(&["a", "b", "m::c"], 2, &["one", "two"]);
    match dispatch.next_step(1) {
        Step::Run { index, command, message } => {
            assert_eq!(index, 1);
            assert_eq!(
                command,
                "cd ~/.partest-work/src && cargo nextest run --cargo-profile release \
                 -E '(binary_id(=b) & test(=a)) | (binary_id(=b) & test(=b))' -v"
            );
            assert_eq!(
                message,
                "two  \u{2014} \u{2699} batch 1/2 (2 tests) [queue: 1 remaining]"
            );
        }
        Step::Done { .. } => panic!("batches wait"),
    }
    assert_eq!(dispatch.workers[1].running, Some(1));
    assert_eq!(dispatch.workers[0].running, None);
    assert_eq!(dispatch.queue.len(), 1);
}

#[test]
fn a_worker_stops_when_nothing_waits() {
    let mut dispatch = dispatch(&["a"], 2, &["one", "two"]);
    match dispatch.next_step(0) {
        Step::Run { index, .. } => assert_eq!(index, 1),
        Step::Done { .. } => panic!("a batch waits"),
    }
    match dispatch.next_step(1) {
        Step::Done { message } => {
            assert_eq!(message, "two  \u{2014} \u{2713} done (ran 0 batches)")
        }
        Step::Run { .. } => panic!("nothing waits"),
    }
    dispatch.record(0, Ok(0), 5, "fine\n".to_string());
    assert_eq!(dispatch.workers[0].running, None);
    assert_eq!(dispatch.workers[0].results.len(), 1);
    assert_eq!(dispatch.workers[0].results[0].batch_index, 1);
    assert_eq!(dispatch.workers[0].results[0].output, "fine\n");
    match dispatch.next_step(0) {
        Step::Done { message } => {
            assert_eq!(message, "one  \u{2014} \u{2713} done (ran 1 batch)")
        }
        Step::Run { .. } => panic!("nothing waits"),
    }
}

#[test]
fn every_batch_runs_once() {
    let tests: Vec<String> = (0..23).map(|i| format!("m::t{i:02}")).collect();
    let names: Vec<&str> = tests.iter().map(|name| name.as_str()).collect();
    let batches = create_batches(listed(&names), 4);
    let mut dispatch =
        Dispatch::new(batches, strings(&["one", "two", "three"]), false, Vec::new());
    let turns = [0, 1, 1, 2, 1, 0, 1, 1, 2, 2, 0, 0, 1, 2, 0, 1, 2];
    for i in turns {
        if dispatch.workers[i].running.is_some() {
            dispatch.record(i, Ok(0), 1, String::new());
        } else {
            dispatch.next_step(i);
        }
    }
    assert_eq!(dispatch.queue.len(), 0);
    for i in 0..3 {
        if dispatch.workers[i].running.is_some() {
            dispatch.record(i, Ok(0), 1, String::new());
        }
        assert!(matches!(dispatch.next_step(i), Step::Done { .. }));
    }
    let mut numbers: Vec<usize> = Vec::new();
    for worker in &dispatch.workers {
        for result in &worker.results {
            numbers.push(result.batch_index);
        }
    }
    numbers.sort();
    assert_eq!(numbers, [1, 2, 3, 4, 5, 6]);
}

#[test]
fn builds_come_first() {
    let batches = create_batches(listed(&["a", "b"]), 1);
    let start = begin_dispatch(
        batches,
        strings(&["one", "two"]),
        &vec![Ok(0), Ok(0)],
        false,
        Vec::new(),
    );
    assert_eq!(
        start.messages,
        ["one  \u{2014} \u{2713} build complete", "two  \u{2014} \u{2713} build complete"]
    );
    match start.dispatch {
        Ok(dispatch) => {
            assert_eq!(dispatch.queue.len(), 2);
            assert_eq!(dispatch.workers.len(), 2);
            assert_eq!(dispatch.workers[1].hostname, "two");
        }
        Err(_) => panic!("all workers have built"),
    }
}

#[test]
fn the_first_failed_build_ends_the_run() {
    let batches = create_batches(listed(&["a"]), 1);
    let builds = vec![Ok(0), Ok(101), Err("gone".to_string())];
    let start =
        begin_dispatch(batches, strings(&["one", "two", "three"]), &builds, false, Vec::new());
    assert_eq!(
        start.messages,
        [
            "one  \u{2014} \u{2713} build complete",
            "two  \u{2014} \u{2717} build failed (exit 101)",
        ]
    );
    match start.dispatch {
        Err(error) => {
            assert_eq!(error.message(), "Pre-build failed on two with exit code 101")
        }
        Ok(_) => panic!("a build failed"),
    }
}

#[test]
fn a_build_that_cannot_run_is_an_error() {
    let (message, error) = judge_build("one", &Err("connection lost".to_string()));
    assert_eq!(message, "one  \u{2014} \u{2717} build error");
    assert_eq!(error.unwrap().message(), "Pre-build failed on one: connection lost");
    assert!(judge_build("one", &Ok(0)).1.is_none());
}

#[test]
fn packing_must_succeed() {
    assert!(check_packing(true, "exit status: 0").is_ok());
    match check_packing(false, "exit status: 2") {
        Err(error) => assert_eq!(error.message(), "tar failed with status exit status: 2"),
        Ok(()) => panic!("tar failed"),
    }
}

#[test]
fn errors_on_the_way_to_the_workers() {
    let hostname = "one".to_string();
    let peer = "one (10.0.0.7:22)".to_string();
    assert_eq!(RunError::Connect { peer }.message(), "failed to connect to one (10.0.0.7:22)");
    assert_eq!(
        RunError::Upload { hostname: hostname.clone() }.message(),
        "failed to upload source to one"
    );
    assert_eq!(RunError::Unpack { hostname }.message(), "failed to extract source on one");
}

#[test]
fn messages_before_the_batches() {
    assert_eq!(connecting_message("one"), "one  \u{2014} connecting");
    assert_eq!(building_message("one"), "one  \u{2014} \u{23f3} building tests...");
    assert_eq!(idle_message("one"), "one  \u{2014} \u{25cb} idle, waiting for batch");
}

#[test]
fn a_batch_passes_with_exit_code_zero_only() {
    assert!(batch_passed(&result(1, Ok(0), 0)));
    assert!(!batch_passed(&result(1, Ok(100), 0)));
    assert!(!batch_passed(&result(1, Err("lost".to_string()), 0)));
}

#[test]
fn times_add_up() {
    assert_eq!(sum_elapsed(&Vec::new()), Some(0));
    assert_eq!(sum_elapsed(&vec![result(1, Ok(0), 3), result(2, Ok(0), 4)]), Some(7));
    assert_eq!(sum_elapsed(&vec![result(1, Ok(0), LONGEST_TIME)]), Some(LONGEST_TIME));
    assert_eq!(sum_elapsed(&vec![result(1, Ok(0), LONGEST_TIME), result(2, Ok(0), 1)]), None);
    assert_eq!(LONGEST_TIME, std::time::Duration::MAX.as_nanos());
}

#[test]
fn a_run_without_failures() {
    let workers = vec![
        worker("one", vec![result(1, Ok(0), 1_500_000_000)]),
        worker("two", vec![result(2, Ok(0), 1), result(3, Ok(0), 2)]),
    ];
    let failures = collect_failures(&workers);
    assert!(failures.is_empty());
    assert!(conclude(&failures).is_ok());
    let summaries: Vec<_> = workers.iter().map(summarize_worker).collect();
    assert_eq!(summaries[0].elapsed, Some(1_500_000_000));
    let lines =
        report_lines(&summaries, &strings(&["1.5", "0.0"]), 30, 3, "2.0", &failures);
    assert_eq!(
        lines,
        [
            "",
            "\u{2500}\u{2500}\u{2500} Summary \u{2500}\u{2500}\u{2500}",
            "  \u{2713} one: 1 batch passed (1.5s)",
            "  \u{2713} two: 2 batches passed (0.0s)",
            "",
            "Total: 30 tests in 3 batches across 2 worker(s), wall time 2.0s",
        ]
    );
}

#[test]
fn failures_are_reported() {
    let workers = vec![
        worker("one", vec![result(1, Ok(0), 1), result(4, Ok(100), 2)]),
        worker("two", Vec::new()),
        worker("three", vec![result(2, Err("lost".to_string()), 1), result(3, Ok(0), 1)]),
    ];
    let failures = collect_failures(&workers);
    assert_eq!(failures.len(), 2);
    match conclude(&failures) {
        Err(error) => assert_eq!(error.message(), "Some batches had test failures"),
        Ok(()) => panic!("batches failed"),
    }
    let summaries: Vec<_> = workers.iter().map(summarize_worker).collect();
    let seconds = strings(&["0.1", "0.0", "0.2"]);
    let lines = report_lines(&summaries, &seconds, 8, 4, "0.3", &failures);
    assert_eq!(
        lines,
        [
            "",
            "\u{2500}\u{2500}\u{2500} Summary \u{2500}\u{2500}\u{2500}",
            "  \u{2717} one: 1/2 batches passed (0.1s)",
            "  \u{2713} two: 0 batches passed (0.0s)",
            "  \u{2717} three: 1/2 batches passed (0.2s)",
            "",
            "Total: 8 tests in 4 batches across 3 worker(s), wall time 0.3s",
            "",
            "\u{2500}\u{2500}\u{2500} Failure Details \u{2500}\u{2500}\u{2500}",
            "",
            "\u{2500}\u{2500} [one] batch 4 \u{2500}\u{2500}",
            "out 4\n",
            "",
            "\u{2500}\u{2500} [three] batch 2 \u{2500}\u{2500}",
            "out 2\n",
        ]
    );
}

#[test]
fn every_test_runs_once() {
    let tests: Vec<String> = (0..11).map(|i| format!("m::t{i:02}")).collect();
    let names: Vec<&str> = tests.iter().map(|name| name.as_str()).collect();
    let batches = create_batches(listed(&names), 3);
    let mut dispatch = Dispatch::new(batches, strings(&["one", "two"]), false, Vec::new());
    let mut run: Vec<String> = Vec::new();
    for i in [1, 0, 0, 1, 0, 1] {
        if let Step::Run { command, .. } = dispatch.next_step(i) {
            let expr = command.split('\'').nth(1).unwrap();
            run.extend(expr.split(" | ").map(|filter| filter.to_string()));
            dispatch.record(i, Ok(0), 1, String::new());
        }
    }
    let expected: Vec<String> = (0..11).map(|i| format!("(binary_id(=b) & test(=m::t{i:02}))")).collect();
    assert_eq!(run, expected);
}

fn stages_of(peers: usize, fail_at: Option<Stage>) -> (Vec<Stage>, Result<(), String>) {
    let mut stages = Vec::new();
    let mut stage = first_stage();
    loop {
        stages.push(stage);
        let outcome =
            if fail_at == Some(stage) { Err(format!("{stage:?}")) } else { Ok(()) };
        match advance(stage, outcome, peers) {
            Next::Go(next) => stage = next,
            Next::End(end) => return (stages, end),
        }
    }
}

#[test]
fn stages_come_in_order() {
    let expected = [
        Stage::Listing,
        Stage::Discovery,
        Stage::Packing,
        Stage::Connecting { peer: 0 },
        Stage::Connecting { peer: 1 },
        Stage::Uploading { peer: 0 },
        Stage::Unpacking { peer: 0 },
        Stage::Uploading { peer: 1 },
        Stage::Unpacking { peer: 1 },
        Stage::Building,
        Stage::Testing,
    ];
    assert_eq!(stages_of(2, None), (expected.to_vec(), Ok(())));
    for (k, stage) in expected.iter().enumerate() {
        let (stages, end) = stages_of(2, Some(*stage));
        assert_eq!(stages, expected[..k + 1]);
        assert_eq!(end, Err(format!("{stage:?}")));
    }
}
