//! The test list, and the arguments that make `cargo nextest` report it.
use crate::order::{
    filter_keeps_order, filter_shows_order, key_is, sort_by_text, sort_keeps_models,
    stable_sort_of, with_key, TextKey,
};
use crate::text::{text_le, texts};
use vstd::prelude::*;

verus! {

/// A test binary with the names of its tests.
pub struct TestSuite {
    pub binary: String,
    pub testcases: Vec<String>,
}

/// A test: the id of the binary that holds it, and its full name there.
#[derive(Debug, PartialEq, Eq)]
pub struct ListedTest {
    pub binary: String,
    pub name: String,
}

impl View for ListedTest {
    type V = (Seq<char>, Seq<char>);

    open spec fn view(&self) -> (Seq<char>, Seq<char>) {
        (self.binary@, self.name@)
    }
}

impl Clone for ListedTest {
    fn clone(&self) -> (copy: Self)
        ensures
            copy == *self,
    {
        ListedTest { binary: self.binary.clone(), name: self.name.clone() }
    }
}

/// Binaries and names of a list of tests.
pub open spec fn models(tests: Seq<ListedTest>) -> Seq<(Seq<char>, Seq<char>)> {
    tests.map_values(|test: ListedTest| test@)
}

/// A test's name, qualified by the binary that holds it.
pub open spec fn qualified(binary: Seq<char>, name: Seq<char>) -> Seq<char> {
    binary + "::"@ + name
}

/// The tests of one binary.
pub open spec fn suite_tests(suite: TestSuite) -> Seq<(Seq<char>, Seq<char>)> {
    suite.testcases@.map_values(|testcase: String| (suite.binary@, testcase@))
}

/// All tests, in the order in which they are reported.
pub open spec fn reported_tests(suites: Seq<TestSuite>) -> Seq<(Seq<char>, Seq<char>)>
    decreases suites.len(),
{
    if suites.len() == 0 {
        Seq::empty()
    } else {
        reported_tests(suites.drop_last()) + suite_tests(suites.last())
    }
}

/// The order of tests: by qualified name. Where two tests share it, as binary ids
/// can hold separators too, by binary.
pub open spec fn test_le(a: (Seq<char>, Seq<char>), b: (Seq<char>, Seq<char>)) -> bool {
    if qualified(a.0, a.1) == qualified(b.0, b.1) {
        text_le(a.0, b.0)
    } else {
        text_le(qualified(a.0, a.1), qualified(b.0, b.1))
    }
}

/// Whether tests are in ascending order.
pub open spec fn in_order(tests: Seq<(Seq<char>, Seq<char>)>) -> bool {
    vstd::relations::sorted_by(
        tests,
        |a: (Seq<char>, Seq<char>), b: (Seq<char>, Seq<char>)| test_le(a, b),
    )
}

/// Whether `tests` is the list of the reported tests, each as often as it is
/// reported, in ascending order.
pub open spec fn lists(suites: Seq<TestSuite>, tests: Seq<(Seq<char>, Seq<char>)>) -> bool {
    &&& in_order(tests)
    &&& tests.to_multiset() == reported_tests(suites).to_multiset()
}

impl TextKey for ListedTest {
    open spec fn key(&self) -> Seq<char> {
        qualified(self.binary@, self.name@)
    }

    fn key_text(&self) -> (text: String) {
        let mut text = self.binary.clone();
        text.append("::");
        text.append(self.name.as_str());
        text
    }
}

/// A test that is ordered by its binary alone.
pub(crate) struct ByBinary {
    pub(crate) test: ListedTest,
}

impl TextKey for ByBinary {
    open(crate) spec fn key(&self) -> Seq<char> {
        self.test.binary@
    }

    fn key_text(&self) -> (text: String) {
        self.test.binary.clone()
    }
}

/// The tests behind a list that is ordered by binary.
pub(crate) open(crate) spec fn inner(items: Seq<ByBinary>) -> Seq<ListedTest> {
    items.map_values(|item: ByBinary| item.test)
}

/// Sorting by binary first and by qualified name then keeps the tests, and puts
/// them in order.
proof fn two_sorts_order(
    reported: Seq<ByBinary>,
    grouped: Seq<ByBinary>,
    sorted: Seq<ListedTest>,
)
    requires
        stable_sort_of(reported, grouped),
        stable_sort_of(inner(grouped), sorted),
    ensures
        models(sorted).to_multiset() == models(inner(reported)).to_multiset(),
        in_order(models(sorted)),
{
    let by_binary = |item: ByBinary| item.test@;
    let binary_of = |m: (Seq<char>, Seq<char>)| m.0;
    let by_name = |test: ListedTest| test@;
    let name_of = |m: (Seq<char>, Seq<char>)| qualified(m.0, m.1);
    sort_keeps_models(reported, grouped, by_binary, binary_of);
    sort_keeps_models(inner(grouped), sorted, by_name, name_of);
    assert(models(inner(reported)) =~= reported.map_values(by_binary));
    assert(models(inner(grouped)) =~= grouped.map_values(by_binary));
    assert(models(inner(grouped)) == inner(grouped).map_values(by_name));
    assert(models(sorted) == sorted.map_values(by_name));
    let le = |a: ListedTest, b: ListedTest| text_le(a.binary@, b.binary@);
    let middle = inner(grouped);
    assert forall|i: int, j: int| 0 <= i < j < middle.len() implies #[trigger] le(
        middle[i],
        middle[j],
    ) by {
        assert(text_le(grouped[i].key(), grouped[j].key()));
    }
    assert forall|i: int, j: int| 0 <= i < j < sorted.len() implies test_le(
        #[trigger] models(sorted)[i],
        #[trigger] models(sorted)[j],
    ) by {
        assert(text_le(sorted[i].key(), sorted[j].key()));
        let key = sorted[i].key();
        if sorted[j].key() == key {
            let keep = key_is::<ListedTest>(key);
            filter_keeps_order(middle, keep, le);
            assert(with_key(sorted, key) == with_key(middle, key));
            filter_shows_order(sorted, keep, le);
            assert(le(sorted[i], sorted[j]));
        }
    }
}

/// All tests, in ascending order.
pub fn list_tests(suites: &Vec<TestSuite>) -> (tests: Vec<ListedTest>)
    ensures
        lists(suites@, models(tests@)),
{
    let mut reported: Vec<ByBinary> = Vec::new();
    let mut i: usize = 0;
    assert(models(inner(reported@)) == Seq::<(Seq<char>, Seq<char>)>::empty());
    while i < suites.len()
        invariant
            i <= suites@.len(),
            models(inner(reported@)) == reported_tests(suites@.take(i as int)),
        decreases suites@.len() - i,
    {
        let suite = &suites[i];
        let ghost before = models(inner(reported@));
        let mut j: usize = 0;
        assert(before == before + suite_tests(*suite).take(0));
        while j < suite.testcases.len()
            invariant
                j <= suite.testcases@.len(),
                models(inner(reported@)) == before + suite_tests(*suite).take(j as int),
            decreases suite.testcases@.len() - j,
        {
            let ghost earlier = models(inner(reported@));
            let test = ListedTest {
                binary: suite.binary.clone(),
                name: suite.testcases[j].clone(),
            };
            reported.push(ByBinary { test });
            assert(models(inner(reported@)) =~= earlier.push(test@));
            assert(suite_tests(*suite).take(j + 1) == suite_tests(*suite).take(j as int).push(
                test@,
            ));
            j += 1;
        }
        assert(suite_tests(*suite).take(j as int) == suite_tests(*suite));
        assert(suites@.take(i + 1).drop_last() == suites@.take(i as int));
        i += 1;
    }
    assert(suites@.take(i as int) == suites@);
    let ghost all = reported@;
    let grouped = sort_by_text(reported);
    let mut tests: Vec<ListedTest> = Vec::new();
    let mut k: usize = 0;
    while k < grouped.len()
        invariant
            k <= grouped@.len(),
            tests@ == inner(grouped@).take(k as int),
        decreases grouped@.len() - k,
    {
        tests.push(grouped[k].test.clone());
        k += 1;
    }
    assert(inner(grouped@).take(k as int) == inner(grouped@));
    let sorted = sort_by_text(tests);
    proof {
        two_sorts_order(all, grouped@, sorted@);
    }
    sorted
}

/// A binary and a qualified name tell the test.
proof fn same_binary_same_name(binary: Seq<char>, name: Seq<char>, other: Seq<char>)
    requires
        qualified(binary, name) == qualified(binary, other),
    ensures
        name == other,
{
    let n = (binary + "::"@).len() as int;
    assert(qualified(binary, name).skip(n) == name);
    assert(qualified(binary, other).skip(n) == other);
}

/// The order of tests is a total order.
proof fn test_order_is_total()
    ensures
        vstd::relations::total_ordering(
            |a: (Seq<char>, Seq<char>), b: (Seq<char>, Seq<char>)| test_le(a, b),
        ),
{
    assert forall|a: (Seq<char>, Seq<char>)| #[trigger] test_le(a, a) by {
        crate::text::text_le_reflexive(a.0);
    }
    assert forall|a: (Seq<char>, Seq<char>), b: (Seq<char>, Seq<char>)| #[trigger]
        test_le(a, b) && #[trigger] test_le(b, a) implies a == b by {
        if qualified(a.0, a.1) == qualified(b.0, b.1) {
            crate::text::text_le_antisymmetric(a.0, b.0);
            same_binary_same_name(a.0, a.1, b.1);
        } else {
            crate::text::text_le_antisymmetric(qualified(a.0, a.1), qualified(b.0, b.1));
        }
    }
    assert forall|a: (Seq<char>, Seq<char>), b: (Seq<char>, Seq<char>), c: (Seq<char>, Seq<char>)|
     #[trigger]
        test_le(a, b) && #[trigger] test_le(b, c) implies test_le(a, c) by {
        let (x, y, z) = (qualified(a.0, a.1), qualified(b.0, b.1), qualified(c.0, c.1));
        if x == y && y == z {
            crate::text::text_le_transitive(a.0, b.0, c.0);
        } else if x != y && y != z {
            crate::text::text_le_transitive(x, y, z);
            if x == z {
                crate::text::text_le_antisymmetric(x, y);
            }
        }
    }
    assert forall|a: (Seq<char>, Seq<char>), b: (Seq<char>, Seq<char>)| #[trigger]
        test_le(a, b) || #[trigger] test_le(b, a) by {
        crate::text::text_le_total(a.0, b.0);
        crate::text::text_le_total(qualified(a.0, a.1), qualified(b.0, b.1));
    }
}

/// The test list does not depend on the order in which binaries and tests are
/// reported: where two reports hold the same tests, their lists are the same.
pub proof fn list_is_independent_of_report_order(
    report: Seq<TestSuite>,
    other: Seq<TestSuite>,
    tests: Seq<(Seq<char>, Seq<char>)>,
    other_tests: Seq<(Seq<char>, Seq<char>)>,
)
    requires
        lists(report, tests),
        lists(other, other_tests),
        reported_tests(report).to_multiset() == reported_tests(other).to_multiset(),
    ensures
        tests == other_tests,
{
    test_order_is_total();
    vstd::seq_lib::lemma_sorted_unique(
        tests,
        other_tests,
        |a: (Seq<char>, Seq<char>), b: (Seq<char>, Seq<char>)| test_le(a, b),
    );
}

/// The arguments that make cargo report all tests in JSON.
pub fn list_arguments() -> (arguments: Vec<String>)
    ensures
        texts(arguments@) == seq!["nextest"@, "list"@, "--message-format"@, "json"@],
{
    let mut arguments: Vec<String> = Vec::new();
    arguments.push("nextest".to_owned());
    arguments.push("list".to_owned());
    arguments.push("--message-format".to_owned());
    arguments.push("json".to_owned());
    assert(texts(arguments@) =~= seq!["nextest"@, "list"@, "--message-format"@, "json"@]);
    arguments
}

/// The models of a list of tests are those of its tests, one for each.
pub proof fn every_test_has_its_model(tests: Seq<ListedTest>)
    ensures
        models(tests).len() == tests.len(),
        forall|i: int|
            0 <= i < tests.len() ==> #[trigger] models(tests)[i] == (
                tests[i].binary@,
                tests[i].name@,
            ),
{
}

/// Every test of every binary is reported.
proof fn reported_holds(suites: Seq<TestSuite>, i: int, j: int) -> (at: int)
    requires
        0 <= i < suites.len(),
        0 <= j < suites[i].testcases@.len(),
    ensures
        0 <= at < reported_tests(suites).len(),
        reported_tests(suites)[at] == (suites[i].binary@, suites[i].testcases@[j]@),
    decreases suites.len(),
{
    let earlier = reported_tests(suites.drop_last());
    if i == suites.len() - 1 {
        assert(suite_tests(suites.last())[j] == (suites[i].binary@, suites[i].testcases@[j]@));
        earlier.len() + j
    } else {
        let at = reported_holds(suites.drop_last(), i, j);
        assert(suites.drop_last()[i] == suites[i]);
        at
    }
}

/// What is reported is a test of some binary.
proof fn reported_is_held(suites: Seq<TestSuite>, at: int) -> (place: (int, int))
    requires
        0 <= at < reported_tests(suites).len(),
    ensures
        0 <= place.0 < suites.len(),
        0 <= place.1 < suites[place.0].testcases@.len(),
        reported_tests(suites)[at] == (
            suites[place.0].binary@,
            suites[place.0].testcases@[place.1]@,
        ),
    decreases suites.len(),
{
    let earlier = reported_tests(suites.drop_last());
    if at >= earlier.len() {
        (suites.len() - 1, at - earlier.len())
    } else {
        let place = reported_is_held(suites.drop_last(), at);
        assert(suites.drop_last()[place.0] == suites[place.0]);
        place
    }
}

/// As many tests are reported as the binaries hold together.
proof fn reported_length(suites: Seq<TestSuite>)
    ensures
        reported_tests(suites).len() == suites.fold_left(
            0nat,
            |n: nat, suite: TestSuite| n + suite.testcases@.len(),
        ),
    decreases suites.len(),
{
    if suites.len() > 0 {
        reported_length(suites.drop_last());
    }
}

/// The test list is complete: it holds every test of every binary, and is as long
/// as the binaries hold tests together.
pub proof fn list_holds_every_test(
    suites: Seq<TestSuite>,
    tests: Seq<ListedTest>,
    i: int,
    j: int,
)
    requires
        lists(suites, models(tests)),
    ensures
        0 <= i < suites.len() && 0 <= j < suites[i].testcases@.len() ==> exists|t: int|
            0 <= t < tests.len() && (#[trigger] tests[t]).binary@ == suites[i].binary@
                && tests[t].name@ == suites[i].testcases@[j]@,
        tests.len() == suites.fold_left(
            0nat,
            |n: nat, suite: TestSuite| n + suite.testcases@.len(),
        ),
{
    broadcast use vstd::seq_lib::group_to_multiset_ensures;

    let pairs = models(tests);
    let reported = reported_tests(suites);
    reported_length(suites);
    assert(pairs.to_multiset().len() == pairs.len());
    assert(reported.to_multiset().len() == reported.len());
    if 0 <= i < suites.len() && 0 <= j < suites[i].testcases@.len() {
        let at = reported_holds(suites, i, j);
        let pair = reported[at];
        assert(reported.contains(pair));
        assert(reported.to_multiset().count(pair) > 0);
        assert(pairs.contains(pair));
        let t = choose|t: int| 0 <= t < pairs.len() && pairs[t] == pair;
        assert(tests[t]@ == pair);
    }
}

/// The test list is sound: each listed test is a test of some binary, and the
/// names, with the binaries before them, ascend.
pub proof fn list_holds_only_tests(suites: Seq<TestSuite>, tests: Seq<ListedTest>, t: int)
    requires
        lists(suites, models(tests)),
    ensures
        0 <= t < tests.len() ==> exists|i: int, j: int|
            0 <= i < suites.len() && 0 <= j < suites[i].testcases@.len() && tests[t].binary@
                == suites[i].binary@ && tests[t].name@ == #[trigger] suites[i].testcases@[j]@,
        forall|a: int, b: int|
            0 <= a < b < tests.len() ==> text_le(
                (#[trigger] tests[a]).binary@ + "::"@ + tests[a].name@,
                (#[trigger] tests[b]).binary@ + "::"@ + tests[b].name@,
            ),
{
    broadcast use vstd::seq_lib::group_to_multiset_ensures;

    let pairs = models(tests);
    let reported = reported_tests(suites);
    if 0 <= t < tests.len() {
        let pair = pairs[t];
        assert(pairs.contains(pair));
        assert(pairs.to_multiset().count(pair) > 0);
        assert(reported.contains(pair));
        let at = choose|at: int| 0 <= at < reported.len() && reported[at] == pair;
        let place = reported_is_held(suites, at);
        assert(tests[t].name@ == suites[place.0].testcases@[place.1]@);
    }
    assert forall|a: int, b: int| 0 <= a < b < tests.len() implies text_le(
        (#[trigger] tests[a]).binary@ + "::"@ + tests[a].name@,
        (#[trigger] tests[b]).binary@ + "::"@ + tests[b].name@,
    ) by {
        let le = |x: (Seq<char>, Seq<char>), y: (Seq<char>, Seq<char>)| test_le(x, y);
        assert(vstd::relations::sorted_by(pairs, le));
        assert(le(pairs[a], pairs[b]));
        crate::text::text_le_reflexive(qualified(pairs[a].0, pairs[a].1));
    }
}

} // verus!
