use partest::batch::{build_filter_expr, create_batches};
use partest::nextest::{list_arguments, list_tests, ListedTest, TestSuite};
use partest::order::sort_by_text;
use partest::remote::{build_command, run_command};
use partest::run::{check_listing, plan_batches, RunError};
use partest::shell::append_word;

fn strings(items: &[&str]) -> Vec<String> {
    items.iter().map(|s| s.to_string()).collect()
}

fn listed(tests: &[(&str, &str)]) -> Vec<ListedTest> {
    tests
        .iter()
        .map(|(binary, name)| ListedTest { binary: binary.to_string(), name: name.to_string() })
        .collect()
}

fn of_b(names: &[&str]) -> Vec<ListedTest> {
    names
        .iter()
        .map(|name| ListedTest { binary: "b".to_string(), name: name.to_string() })
        .collect()
}

fn suite(binary: &str, testcases: &[&str]) -> TestSuite {
    TestSuite { binary: binary.to_string(), testcases: strings(testcases) }
}

#[test]
fn example_test() {}

#[test]
fn tests_are_listed_in_order() {
    let suites = vec![suite("zeta", &["b", "a"]), suite("alpha::bin/alpha", &["tests::x"])];
    assert_eq!(
        list_tests(&suites),
        listed(&[("alpha::bin/alpha", "tests::x"), ("zeta", "a"), ("zeta", "b")])
    );
}

#[test]
fn the_list_does_not_depend_on_the_order_of_the_report() {
    let one = vec![suite("b", &["y", "x"]), suite("a", &["z"])];
    let other = vec![suite("a", &["z"]), suite("b", &["x", "y"])];
    assert_eq!(list_tests(&one), list_tests(&other));
    assert_eq!(list_tests(&Vec::new()), Vec::<ListedTest>::new());
    let one = vec![suite("a::b", &["c"]), suite("a", &["b::c", "b"])];
    let other = vec![suite("a", &["b", "b::c"]), suite("a::b", &["c"])];
    let expected = listed(&[("a", "b"), ("a", "b::c"), ("a::b", "c")]);
    assert_eq!(list_tests(&one), expected);
    assert_eq!(list_tests(&other), expected);
}

#[test]
fn repeated_names_are_all_listed() {
    let suites = vec![suite("a", &["t", "t"])];
    assert_eq!(list_tests(&suites), listed(&[("a", "t"), ("a", "t")]));
}

#[test]
fn sorting_goes_by_code_point() {
    let names = strings(&["b", "a\u{e9}", "a", "B", "ab", "", "a\u{1f600}", "a\u{ffff}"]);
    let mut expected = names.clone();
    expected.sort();
    assert_eq!(sort_by_text(names), expected);
}

#[test]
fn batches_are_numbered_and_keep_the_order() {
    let tests = of_b(&["a", "b", "c", "d", "e"]);
    let batches = create_batches(tests.clone(), 2);
    assert_eq!(batches.len(), 3);
    let mut all: Vec<ListedTest> = Vec::new();
    for (i, batch) in batches.iter().enumerate() {
        assert_eq!(batch.index, i + 1);
        assert_eq!(batch.total, 3);
        all.extend(batch.tests.clone());
    }
    assert_eq!(all, tests);
    assert_eq!(batches[0].tests, of_b(&["a", "b"]));
    assert_eq!(batches[2].tests, of_b(&["e"]));
}

#[test]
fn batch_edges() {
    assert_eq!(create_batches(Vec::new(), 5).len(), 0);
    assert_eq!(create_batches(Vec::new(), usize::MAX).len(), 0);
    let exact = create_batches(of_b(&["a", "b", "c", "d"]), 2);
    assert_eq!(exact.len(), 2);
    assert_eq!(exact[1].tests, of_b(&["c", "d"]));
    for size in [2, 100, usize::MAX] {
        let single = create_batches(of_b(&["a", "b"]), size);
        assert_eq!(single.len(), 1);
        assert_eq!(single[0].index, 1);
        assert_eq!(single[0].total, 1);
        assert_eq!(single[0].tests, of_b(&["a", "b"]));
    }
}

#[test]
fn filters_name_binary_and_test() {
    assert_eq!(build_filter_expr(&[]), "");
    assert_eq!(
        build_filter_expr(&listed(&[("b", "m::t")])),
        "(binary_id(=b) & test(=m::t))"
    );
    assert_eq!(
        build_filter_expr(&listed(&[("b", "one"), ("b::it", "m::two")])),
        "(binary_id(=b) & test(=one)) | (binary_id(=b::it) & test(=m::two))"
    );
}

#[test]
fn filters_escape_what_ends_a_name() {
    assert_eq!(
        build_filter_expr(&listed(&[("b", "case(1, x)\\y")])),
        "(binary_id(=b) & test(=case(1\\, x\\)\\\\y))"
    );
}

#[test]
fn build_commands() {
    assert_eq!(build_command(false), "cd ~/.partest-work/src && cargo build --tests");
    assert_eq!(build_command(true), "cd ~/.partest-work/src && cargo build --tests --release");
}

#[test]
fn run_commands() {
    assert_eq!(
        run_command(false, &listed(&[("b", "m::t")]), &[]),
        "cd ~/.partest-work/src && cargo nextest run -E '(binary_id(=b) & test(=m::t))'"
    );
    assert_eq!(
        run_command(
            true,
            &listed(&[("b", "t"), ("b", "u")]),
            &strings(&["--no-capture", "-v"])
        ),
        "cd ~/.partest-work/src && cargo nextest run --cargo-profile release \
         -E '(binary_id(=b) & test(=t)) | (binary_id(=b) & test(=u))' --no-capture -v"
    );
    assert!(run_command(false, &listed(&[("b", "it's")]), &[])
        .ends_with(" -E '(binary_id(=b) & test(=it'\\''s))'"));
}

#[test]
fn extra_arguments_are_forwarded() {
    let tests = listed(&[("b", "t")]);
    let command = run_command(false, &tests, &strings(&["-E", "test(my_test)"]));
    assert!(command.ends_with("& test(=t))' -E 'test(my_test)'"));
    let command = run_command(false, &tests, &strings(&["a b", "", "it's", "$HOME", "-j=4"]));
    assert!(command.ends_with("))' 'a b' '' 'it'\\''s' '$HOME' -j=4"));
}

#[test]
fn words_are_quoted_where_they_must_be() {
    for (text, expected) in [
        ("--no-capture", "--no-capture"),
        ("a_b./=:,@%+Z9", "a_b./=:,@%+Z9"),
        ("", "''"),
        ("~", "'~'"),
        ("a;b", "'a;b'"),
        ("'", "''\\'''"),
        ("\u{e9}", "'\u{e9}'"),
    ] {
        let mut word = "x".to_string();
        append_word(&mut word, text);
        assert_eq!(word, format!("x{expected}"));
    }
}

#[test]
fn an_empty_list_is_an_error() {
    match plan_batches(Vec::new(), 10) {
        Err(error) => {
            assert!(matches!(error, RunError::NoTests));
            assert_eq!(error.message(), "No tests found by `cargo nextest list`");
        }
        Ok(_) => panic!("there is nothing to split"),
    }
    match plan_batches(of_b(&["a"]), usize::MAX) {
        Ok(batches) => assert_eq!(batches.len(), 1),
        Err(_) => panic!("there is a test"),
    }
}

#[test]
fn a_failed_listing_says_why() {
    assert!(check_listing(true, b"ignored").is_ok());
    match check_listing(false, b"no such\xff command") {
        Err(error) => {
            assert_eq!(error.message(), "cargo nextest list failed:\nno such\u{fffd} command")
        }
        Ok(()) => panic!("the listing failed"),
    }
}

#[test]
fn listing_arguments() {
    assert_eq!(list_arguments(), strings(&["nextest", "list", "--message-format", "json"]));
}
