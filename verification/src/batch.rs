//! Batches of tests: how a list of tests is split, and the filter expression
//! that selects the tests of a batch.
use crate::nextest::{models, ListedTest};
use crate::text::{chars_of, join_texts, joined, texts};
use std::collections::VecDeque;
use vstd::prelude::*;

verus! {

/// A part of the test list that one worker runs at a time.
pub struct Batch {
    /// The batch's number, counted from one.
    pub index: usize,
    /// How many batches the list was split into.
    pub total: usize,
    /// The tests of the batch.
    pub tests: Vec<ListedTest>,
}

/// How many batches of up to `size` tests `n` tests make.
pub open spec fn batch_count(n: nat, size: nat) -> nat {
    if n == 0 {
        0
    } else {
        ((n - 1) / size as int + 1) as nat
    }
}

/// The tests of the batch at position `i`: the next `size` tests, or what is
/// left of them.
pub open spec fn batch_tests(tests: Seq<ListedTest>, size: nat, i: int) -> Seq<ListedTest> {
    let start = i * size;
    let end = if start + size <= tests.len() { start + size } else { tests.len() as int };
    tests.subrange(start, end)
}

/// Whether `batches` is the list of tests split into batches of up to `size`.
pub open spec fn splits(tests: Seq<ListedTest>, size: nat, batches: Seq<Batch>) -> bool {
    &&& batches.len() == batch_count(tests.len(), size)
    &&& forall|i: int|
        0 <= i < batches.len() ==> {
            &&& (#[trigger] batches[i]).index == i + 1
            &&& batches[i].total == batches.len()
            &&& batches[i].tests@ == batch_tests(tests, size, i)
        }
}

/// The number of batches is the least one that has room for all tests.
proof fn count_is_least(n: nat, size: nat, k: nat)
    requires
        size > 0,
        k * size >= n,
        n == 0 ==> k == 0,
        n > 0 ==> k > 0 && (k - 1) * size < n,
    ensures
        k == batch_count(n, size),
{
    if n > 0 {
        let q = (n - 1) / size as int;
        let r = (n - 1) % size as int;
        vstd::arithmetic::div_mod::lemma_fundamental_div_mod(n - 1, size as int);
        assert(q + 1 == k) by (nonlinear_arith)
            requires
                n - 1 == size * q + r,
                0 <= r < size,
                k * size >= n,
                (k - 1) * size < n,
                size > 0,
        ;
    }
}

/// Split a flat test list into batches.
pub fn create_batches(tests: Vec<ListedTest>, batch_size: usize) -> (batches: VecDeque<Batch>)
    requires
        batch_size > 0,
    ensures
        splits(tests@, batch_size as nat, batches@),
        forall|i: int|
            0 <= i < batches@.len() ==> (#[trigger] batches@[i]).index == i + 1 && batches@[i].total
                == batches@.len(),
{
    proof {
        count_fits(tests@.len(), batch_size as nat);
        count_is_small(tests@.len(), batch_size as nat);
    }
    let total_batches: usize = if tests.len() == 0 {
        0
    } else {
        (tests.len() - 1) / batch_size + 1
    };
    let mut batches: VecDeque<Batch> = VecDeque::new();
    let mut start: usize = 0;
    let ghost size = batch_size as nat;
    assert(0 * size == 0);
    while start < tests.len()
        invariant
            size == batch_size,
            batch_size > 0,
            total_batches == batch_count(tests@.len(), size),
            start == if batches@.len() * size <= tests@.len() {
                (batches@.len() * size) as int
            } else {
                tests@.len() as int
            },
            batches@.len() == 0 ==> start == 0,
            batches@.len() > 0 ==> (batches@.len() - 1) * size < tests@.len(),
            batches@.len() <= start,
            forall|i: int|
                0 <= i < batches@.len() ==> {
                    &&& (#[trigger] batches@[i]).index == i + 1
                    &&& batches@[i].total == total_batches
                    &&& batches@[i].tests@ == batch_tests(tests@, size, i)
                },
        decreases tests@.len() - start,
    {
        let ghost k = batches@.len();
        assert(start == k * size);
        assert((k + 1) * size == k * size + size) by (nonlinear_arith);
        assert((k + 1 - 1) * size == k * size);
        let end: usize = if tests.len() - start <= batch_size {
            tests.len()
        } else {
            start + batch_size
        };
        let mut chunk: Vec<ListedTest> = Vec::new();
        let mut at: usize = start;
        while at < end
            invariant
                start <= at <= end <= tests@.len(),
                chunk@ == tests@.subrange(start as int, at as int),
            decreases end - at,
        {
            chunk.push(tests[at].clone());
            at += 1;
        }
        let index: usize = batches.len() + 1;
        batches.push_back(Batch { index, total: total_batches, tests: chunk });
        start = end;
    }
    proof {
        count_is_least(tests@.len(), size, batches@.len());
    }
    batches
}

/// The tests of all batches, one batch after the other.
pub open spec fn all_tests(batches: Seq<Batch>) -> Seq<ListedTest>
    decreases batches.len(),
{
    if batches.len() == 0 {
        Seq::empty()
    } else {
        all_tests(batches.drop_last()) + batches.last().tests@
    }
}

/// With `k` batches there is room for all tests, and no room with one less.
proof fn count_fits(n: nat, size: nat)
    requires
        size > 0,
    ensures
        batch_count(n, size) * size >= n,
        n > 0 ==> batch_count(n, size) > 0 && (batch_count(n, size) - 1) * size < n,
        n == 0 ==> batch_count(n, size) == 0,
{
    if n > 0 {
        let q = (n - 1) / size as int;
        let r = (n - 1) % size as int;
        vstd::arithmetic::div_mod::lemma_fundamental_div_mod(n - 1, size as int);
        assert(q >= 0 && (q + 1) * size >= n && (q + 1 - 1) * size < n) by (nonlinear_arith)
            requires
                n - 1 == size * q + r,
                0 <= r < size,
                size > 0,
                n > 0,
        ;
    }
}

/// There are no more batches than tests.
proof fn count_is_small(n: nat, size: nat)
    requires
        size > 0,
    ensures
        batch_count(n, size) <= n,
{
    if n > 0 {
        let q = (n - 1) / size as int;
        let r = (n - 1) % size as int;
        vstd::arithmetic::div_mod::lemma_fundamental_div_mod(n - 1, size as int);
        assert(q <= n - 1) by (nonlinear_arith)
            requires
                n - 1 == size * q + r,
                0 <= r,
                size > 0,
                n > 0,
        ;
    }
}

/// The first `k` batches hold the first tests, up to what `k` batches have
/// room for.
proof fn first_batches(tests: Seq<ListedTest>, size: nat, batches: Seq<Batch>, k: int)
    requires
        size > 0,
        splits(tests, size, batches),
        0 <= k <= batches.len(),
    ensures
        k * size <= tests.len() ==> all_tests(batches.take(k)) == tests.take(k * size),
        k * size > tests.len() ==> all_tests(batches.take(k)) == tests,
    decreases k,
{
    if k == 0 {
        assert(0 * size == 0);
        assert(batches.take(0) == Seq::<Batch>::empty());
        assert(tests.take(0) == Seq::<ListedTest>::empty());
    } else {
        first_batches(tests, size, batches, k - 1);
        count_fits(tests.len(), size);
        let m = batches.len();
        assert((k - 1) * size <= (m - 1) * size) by (nonlinear_arith)
            requires
                k <= m,
                size > 0,
        ;
        assert((k - 1) * size >= 0) by (nonlinear_arith)
            requires
                k >= 1,
                size > 0,
        ;
        assert(k * size == (k - 1) * size + size) by (nonlinear_arith);
        assert(batches.take(k).drop_last() == batches.take(k - 1));
        let last = batches[k - 1];
        assert(last.tests@ == batch_tests(tests, size, k - 1));
        if k * size <= tests.len() {
            assert(tests.take((k - 1) * size) + last.tests@ == tests.take(k * size));
        } else {
            assert(tests.take((k - 1) * size) + last.tests@ == tests);
        }
    }
}

/// Splitting loses no test, repeats none and keeps their order: the tests of
/// all batches, one batch after the other, are the list that was split.
pub proof fn batches_hold_every_test(tests: Seq<ListedTest>, size: nat, batches: Seq<Batch>)
    requires
        size > 0,
        splits(tests, size, batches),
    ensures
        all_tests(batches) == tests,
{
    count_fits(tests.len(), size);
    first_batches(tests, size, batches, batches.len() as int);
    assert(batches.take(batches.len() as int) == batches);
    if batches.len() * size <= tests.len() {
        assert(tests.take((batches.len() * size) as int) == tests);
    }
}

/// No batch is empty or holds more than `size` tests, and only the last one may
/// hold fewer.
pub proof fn batches_are_full(tests: Seq<ListedTest>, size: nat, batches: Seq<Batch>, i: int)
    requires
        size > 0,
        splits(tests, size, batches),
        0 <= i < batches.len(),
    ensures
        1 <= batches[i].tests@.len() <= size,
        i < batches.len() - 1 ==> batches[i].tests@.len() == size,
{
    let m = batches.len();
    count_fits(tests.len(), size);
    assert(batches[i].tests@ == batch_tests(tests, size, i));
    assert(0 <= i * size && i * size <= (m - 1) * size) by (nonlinear_arith)
        requires
            0 <= i <= m - 1,
            size > 0,
    ;
    if i < m - 1 {
        assert(i * size + size <= (m - 1) * size) by (nonlinear_arith)
            requires
                i + 1 <= m - 1,
                size > 0,
        ;
    }
}

/// Whether a test stands at place `j` of the batch at position `i`.
pub open spec fn holds_test(batches: Seq<Batch>, i: int, j: int, test: ListedTest) -> bool {
    &&& 0 <= i < batches.len()
    &&& 0 <= j < batches[i].tests@.len()
    &&& batches[i].tests@[j] == test
}

/// A test's position in the list gives its batch and its place there.
pub proof fn position_of_test(tests: Seq<ListedTest>, size: nat, batches: Seq<Batch>, position: int)
    requires
        size > 0,
        splits(tests, size, batches),
        0 <= position < tests.len(),
    ensures
        holds_test(batches, position / size as int, position % size as int, tests[position]),
{
    let i = position / size as int;
    let j = position % size as int;
    let m = batches.len();
    count_fits(tests.len(), size);
    vstd::arithmetic::div_mod::lemma_fundamental_div_mod(position, size as int);
    assert(position == i * size + j && 0 <= i < m && 0 <= i * size) by (nonlinear_arith)
        requires
            position == size * i + j,
            0 <= j < size,
            0 <= position < m * size,
            size > 0,
    ;
    assert(batches[i].tests@ == batch_tests(tests, size, i));
}

/// A place in a batch belongs to one position in the list.
pub(crate) proof fn test_of_place(
    tests: Seq<ListedTest>,
    size: nat,
    batches: Seq<Batch>,
    i: int,
    j: int,
) -> (position: int)
    requires
        size > 0,
        splits(tests, size, batches),
        0 <= i < batches.len(),
        0 <= j < batches[i].tests@.len(),
    ensures
        0 <= position < tests.len(),
        position / size as int == i,
        batches[i].tests@[j] == tests[position],
{
    batches_are_full(tests, size, batches, i);
    assert(batches[i].tests@ == batch_tests(tests, size, i));
    let m = batches.len();
    count_fits(tests.len(), size);
    assert(0 <= i * size && i * size <= (m - 1) * size) by (nonlinear_arith)
        requires
            0 <= i <= m - 1,
            size > 0,
    ;
    vstd::arithmetic::div_mod::lemma_fundamental_div_mod_converse(
        i * size + j,
        size as int,
        i,
        j,
    );
    i * size + j
}

/// A character of a name in a filter: those that end a name, and the one that
/// escapes them, are escaped.
pub open spec fn escaped_char(c: char) -> Seq<char> {
    if c == '\\' || c == ')' || c == ',' {
        seq!['\\', c]
    } else {
        seq![c]
    }
}

/// A name as it stands in a filter.
pub open spec fn escaped(name: Seq<char>) -> Seq<char>
    decreases name.len(),
{
    if name.len() == 0 {
        Seq::empty()
    } else {
        escaped(name.drop_last()) + escaped_char(name.last())
    }
}

/// The filter that selects one test: the test of this name in the binary of this
/// id.
pub open spec fn test_filter(test: (Seq<char>, Seq<char>)) -> Seq<char> {
    "(binary_id(="@ + escaped(test.0) + ") & test(="@ + escaped(test.1) + "))"@
}

/// The filters of a list of tests.
pub open spec fn test_filters(tests: Seq<(Seq<char>, Seq<char>)>) -> Seq<Seq<char>> {
    tests.map_values(|test: (Seq<char>, Seq<char>)| test_filter(test))
}

/// The filter expression for a list of tests: one filter each, any of which
/// may match.
pub open spec fn filter_expr(tests: Seq<ListedTest>) -> Seq<char> {
    joined(test_filters(models(tests)), " | "@)
}

/// Appends a name as it stands in a filter.
fn append_escaped(out: &mut String, name: &str)
    ensures
        final(out)@ == old(out)@ + escaped(name@),
{
    let chars = chars_of(name);
    let ghost before = out@;
    let mut i: usize = 0;
    assert(escaped(chars@.take(0)) == Seq::<char>::empty());
    while i < chars.len()
        invariant
            i <= chars@.len(),
            out@ == before + escaped(chars@.take(i as int)),
        decreases chars@.len() - i,
    {
        let c = chars[i];
        let ghost shorter = out@;
        if c == '\\' || c == ')' || c == ',' {
            out.push('\\');
        }
        out.push(c);
        assert(out@ == shorter + escaped_char(c));
        assert(chars@.take(i + 1).drop_last() == chars@.take(i as int));
        assert(chars@.take(i + 1).last() == c);
        assert(out@ == before + escaped(chars@.take(i + 1)));
        i += 1;
    }
    assert(chars@.take(i as int) == chars@);
}

/// Build a nextest `-E` filter expression for an exact set of tests.
pub fn build_filter_expr(tests: &[ListedTest]) -> (expr: String)
    ensures
        expr@ == filter_expr(tests@),
{
    let mut filters: Vec<String> = Vec::new();
    let mut i: usize = 0;
    while i < tests.len()
        invariant
            i <= tests@.len(),
            filters@.len() == i,
            forall|j: int| 0 <= j < i ==> (#[trigger] filters@[j])@ == test_filter(tests@[j]@),
        decreases tests@.len() - i,
    {
        let mut filter = "(binary_id(=".to_owned();
        append_escaped(&mut filter, tests[i].binary.as_str());
        filter.append(") & test(=");
        append_escaped(&mut filter, tests[i].name.as_str());
        filter.append("))");
        filters.push(filter);
        i += 1;
    }
    assert(texts(filters@) =~= test_filters(models(tests@)));
    join_texts(filters.as_slice(), " | ")
}

/// Whether a text begins with another.
pub open spec fn begins_with(text: Seq<char>, start: Seq<char>) -> bool {
    start.len() <= text.len() && text.take(start.len() as int) == start
}

/// Reads a name up to the parenthesis that closes it: the name, and what follows
/// the parenthesis. `name` is what has been read of it.
pub open spec fn read_name(text: Seq<char>, name: Seq<char>) -> Option<(Seq<char>, Seq<char>)>
    decreases text.len(),
{
    if text.len() == 0 || text[0] == ',' {
        None
    } else if text[0] == ')' {
        Some((name, text.skip(1)))
    } else if text[0] != '\\' {
        read_name(text.skip(1), name.push(text[0]))
    } else if text.len() > 1 && (text[1] == '\\' || text[1] == ')' || text[1] == ',') {
        read_name(text.skip(2), name.push(text[1]))
    } else {
        None
    }
}

/// Reads the filter for one test: the test, and what follows the filter.
pub open spec fn read_filter(text: Seq<char>) -> Option<((Seq<char>, Seq<char>), Seq<char>)> {
    if !begins_with(text, "(binary_id(="@) {
        None
    } else {
        match read_name(text.skip("(binary_id(="@.len() as int), Seq::empty()) {
            None => None,
            Some((binary, rest)) => if !begins_with(rest, " & test(="@) {
                None
            } else {
                match read_name(rest.skip(" & test(="@.len() as int), Seq::empty()) {
                    None => None,
                    Some((name, end)) => if begins_with(end, ")"@) {
                        Some(((binary, name), end.skip(1)))
                    } else {
                        None
                    },
                }
            },
        }
    }
}

/// Reading a name uses up some of the text.
pub proof fn name_is_not_empty(text: Seq<char>, name: Seq<char>)
    ensures
        read_name(text, name) matches Some((_, rest)) ==> rest.len() < text.len(),
    decreases text.len(),
{
    if text.len() > 0 && text[0] != ',' && text[0] != ')' {
        if text[0] != '\\' {
            name_is_not_empty(text.skip(1), name.push(text[0]));
        } else if text.len() > 1 {
            name_is_not_empty(text.skip(2), name.push(text[1]));
        }
    }
}

/// Reading a filter uses up some of the text.
pub proof fn filter_is_not_empty(text: Seq<char>)
    ensures
        read_filter(text) matches Some((_, rest)) ==> rest.len() < text.len(),
{
    reveal_strlit(")");
    let first = text.skip("(binary_id(="@.len() as int);
    name_is_not_empty(first, Seq::empty());
    if let Some((_, rest)) = read_name(first, Seq::empty()) {
        name_is_not_empty(rest.skip(" & test(="@.len() as int), Seq::empty());
    }
}

/// What nextest takes an expression of such filters to say of a test: whether it
/// matches, which it does where any of the filters names the test's binary and
/// the test. Nothing where the text is no such expression.
pub open spec fn expression_value(expr: Seq<char>, test: (Seq<char>, Seq<char>)) -> Option<bool>
    decreases expr.len(),
{
    match read_filter(expr) {
        None => None,
        Some((named, rest)) => if rest.len() == 0 {
            Some(named == test)
        } else if begins_with(rest, " | "@) {
            proof {
                filter_is_not_empty(expr);
            }
            match expression_value(rest.skip(" | "@.len() as int), test) {
                None => None,
                Some(others) => Some(named == test || others),
            }
        } else {
            None
        },
    }
}

/// Whether an expression matches a test.
pub open spec fn selects(expr: Seq<char>, test: (Seq<char>, Seq<char>)) -> bool {
    expression_value(expr, test) == Some(true)
}

/// An escaped name is read as the name.
proof fn escaped_name_is_read(name: Seq<char>, rest: Seq<char>, before: Seq<char>)
    ensures
        read_name(escaped(name) + rest, before) == read_name(rest, before + name),
    decreases name.len(),
{
    if name.len() == 0 {
        assert(escaped(name) + rest == rest);
        assert(before + name == before);
    } else {
        let c = name.last();
        let head = name.drop_last();
        let more = escaped_char(c) + rest;
        assert(escaped(name) + rest == escaped(head) + more);
        escaped_name_is_read(head, more, before);
        assert((before + head).push(c) == before + name);
        if c == '\\' || c == ')' || c == ',' {
            assert(more[0] == '\\' && more[1] == c);
            assert(more.skip(2) == rest);
        } else {
            assert(more[0] == c);
            assert(more.skip(1) == rest);
        }
    }
}

/// The filter for a test is read as the test.
proof fn filter_is_read(test: (Seq<char>, Seq<char>), rest: Seq<char>)
    ensures
        read_filter(test_filter(test) + rest) == Some((test, rest)),
        test_filter(test).len() > 0,
{
    reveal_strlit("(binary_id(=");
    reveal_strlit(") & test(=");
    reveal_strlit(" & test(=");
    reveal_strlit("))");
    reveal_strlit(")");
    let empty = Seq::<char>::empty();
    let text = test_filter(test) + rest;
    let start = "(binary_id(="@;
    let middle = " & test(="@;
    let end = seq![')'] + rest;
    let closed = seq![')'] + end;
    let second = middle + escaped(test.1) + closed;
    let first = seq![')'] + second;
    assert(text == start + (escaped(test.0) + first));
    assert(text.take(start.len() as int) == start);
    assert(text.skip(start.len() as int) == escaped(test.0) + first);
    escaped_name_is_read(test.0, first, empty);
    assert(empty + test.0 == test.0);
    assert(first[0] == ')');
    assert(first.skip(1) == second);
    assert(second.take(middle.len() as int) == middle);
    assert(second.skip(middle.len() as int) == escaped(test.1) + closed);
    escaped_name_is_read(test.1, closed, empty);
    assert(empty + test.1 == test.1);
    assert(closed[0] == ')');
    assert(closed.skip(1) == end);
    assert(end.take(1) == ")"@);
    assert(end.skip(1) == rest);
}

/// Joined parts begin with the first of them.
proof fn joined_first(parts: Seq<Seq<char>>, separator: Seq<char>)
    requires
        parts.len() > 1,
    ensures
        joined(parts, separator) == parts[0] + (separator + joined(
            parts.drop_first(),
            separator,
        )),
    decreases parts.len(),
{
    let tail = parts.drop_first();
    if parts.len() == 2 {
        assert(parts.drop_last().len() == 1);
        assert(joined(parts.drop_last(), separator) == parts[0]);
        assert(joined(tail, separator) == parts[1]);
    } else {
        joined_first(parts.drop_last(), separator);
        assert(parts.drop_last().drop_first() == tail.drop_last());
    }
    assert(joined(parts, separator) =~= parts[0] + (separator + joined(tail, separator)));
}

/// The expression of one filter says whether it names the test.
proof fn last_filter_is_read(named: (Seq<char>, Seq<char>), test: (Seq<char>, Seq<char>))
    ensures
        expression_value(test_filter(named), test) == Some(named == test),
{
    let empty = Seq::<char>::empty();
    filter_is_read(named, empty);
    assert(test_filter(named) == test_filter(named) + empty);
}

/// A filter before other filters matches what it names, besides what they match.
proof fn next_filter_is_read(
    named: (Seq<char>, Seq<char>),
    others: Seq<char>,
    test: (Seq<char>, Seq<char>),
)
    requires
        expression_value(others, test) is Some,
    ensures
        expression_value(test_filter(named) + (" | "@ + others), test) == Some(
            named == test || expression_value(others, test)->0,
        ),
{
    reveal_strlit(" | ");
    let rest = " | "@ + others;
    filter_is_read(named, rest);
    assert(rest.take(3) == " | "@);
    assert(rest.skip(3) == others);
}

/// A list holds its first item and what the rest of it holds.
proof fn first_or_rest<A>(items: Seq<A>, item: A)
    requires
        items.len() > 0,
    ensures
        items.contains(item) <==> items[0] == item || items.drop_first().contains(item),
{
    let tail = items.drop_first();
    if items.contains(item) {
        let i = choose|i: int| 0 <= i < items.len() && items[i] == item;
        if i > 0 {
            assert(tail[i - 1] == item);
        }
    }
    if tail.contains(item) {
        let i = choose|i: int| 0 <= i < tail.len() && tail[i] == item;
        assert(items[i + 1] == item);
    }
}

/// An expression for a list of tests matches the tests of the list.
proof fn expression_is_read(tests: Seq<(Seq<char>, Seq<char>)>, test: (Seq<char>, Seq<char>))
    requires
        tests.len() > 0,
    ensures
        expression_value(joined(test_filters(tests), " | "@), test) == Some(tests.contains(test)),
    decreases tests.len(),
{
    let filters = test_filters(tests);
    let tail = tests.drop_first();
    first_or_rest(tests, test);
    if tests.len() == 1 {
        last_filter_is_read(tests[0], test);
        assert(joined(filters, " | "@) == test_filter(tests[0]));
    } else {
        joined_first(filters, " | "@);
        assert(filters.drop_first() == test_filters(tail));
        expression_is_read(tail, test);
        next_filter_is_read(tests[0], joined(test_filters(tail), " | "@), test);
    }
}

/// Whether a list holds the test of a name in a binary.
pub open spec fn is_listed(tests: Seq<ListedTest>, binary: Seq<char>, name: Seq<char>) -> bool {
    exists|i: int|
        0 <= i < tests.len() && (#[trigger] tests[i]).binary@ == binary && tests[i].name@ == name
}

/// The expression for a list of tests selects exactly these tests: it matches a
/// test of a binary if and only if that test of that binary is listed, whatever
/// characters the names hold.
pub proof fn expression_selects_exactly_the_listed(
    tests: Seq<ListedTest>,
    binary: Seq<char>,
    name: Seq<char>,
)
    ensures
        selects(filter_expr(tests), (binary, name)) <==> is_listed(tests, binary, name),
        tests.len() > 0 ==> expression_value(filter_expr(tests), (binary, name)) is Some,
{
    let pairs = models(tests);
    if tests.len() > 0 {
        expression_is_read(pairs, (binary, name));
        if pairs.contains((binary, name)) {
            let i = choose|i: int| 0 <= i < pairs.len() && pairs[i] == (binary, name);
            assert(tests[i].binary@ == binary && tests[i].name@ == name);
        }
        if is_listed(tests, binary, name) {
            let i = choose|i: int|
                0 <= i < tests.len() && (#[trigger] tests[i]).binary@ == binary && tests[i].name@
                    == name;
            assert(pairs[i] == (binary, name));
        }
    } else {
        reveal_strlit("(binary_id(=");
        assert(filter_expr(tests).len() == 0);
    }
}

/// Every test stands at one place: the batch at the quotient of its position and
/// the size holds it at the remainder. There are just enough batches for that, each
/// holds as many tests as the size, but for the last, which holds what is left, and
/// they are numbered from one.
pub proof fn batches_are_consecutive(
    tests: Seq<ListedTest>,
    size: nat,
    batches: Seq<Batch>,
    position: int,
    i: int,
)
    requires
        size > 0,
        splits(tests, size, batches),
    ensures
        0 <= position < tests.len() ==> position / size as int <= batches.len() - 1
            && batches[position / size as int].tests@[position % size as int] == tests[position],
        batches.len() * size >= tests.len(),
        tests.len() > 0 ==> (batches.len() - 1) * size < tests.len(),
        tests.len() == 0 ==> batches.len() == 0,
        0 <= i < batches.len() ==> {
            &&& batches[i].index == i + 1
            &&& batches[i].total == batches.len()
            &&& batches[i].tests@.len() == if i < batches.len() - 1 {
                size as int
            } else {
                tests.len() - (batches.len() - 1) * size
            }
        },
{
    count_fits(tests.len(), size);
    if 0 <= position < tests.len() {
        position_of_test(tests, size, batches, position);
    }
    if 0 <= i < batches.len() {
        batches_are_full(tests, size, batches, i);
        assert(batches[i].tests@ == batch_tests(tests, size, i));
        let m = batches.len();
        assert(m * size == (m - 1) * size + size) by (nonlinear_arith);
    }
}

/// What the filter of a test says, whatever the names are: the id of its binary and
/// its own name, each behind an equals sign, both of which must hold.
pub proof fn filter_names_binary_and_test(test: (Seq<char>, Seq<char>))
    requires
        forall|i: int|
            0 <= i < test.0.len() ==> (#[trigger] test.0[i]) != '\\' && test.0[i] != ')' && test.0[i]
                != ',',
        forall|i: int|
            0 <= i < test.1.len() ==> (#[trigger] test.1[i]) != '\\' && test.1[i] != ')' && test.1[i]
                != ',',
    ensures
        test_filter(test) == "(binary_id(="@ + test.0 + ") & test(="@ + test.1 + "))"@,
{
    plain_name_is_kept(test.0);
    plain_name_is_kept(test.1);
}

/// A name without characters to escape stands in a filter as it is.
proof fn plain_name_is_kept(name: Seq<char>)
    requires
        forall|i: int|
            0 <= i < name.len() ==> (#[trigger] name[i]) != '\\' && name[i] != ')' && name[i] != ',',
    ensures
        escaped(name) == name,
    decreases name.len(),
{
    if name.len() > 0 {
        let head = name.drop_last();
        assert forall|i: int| 0 <= i < head.len() implies (#[trigger] head[i]) != '\\' && head[i]
            != ')' && head[i] != ',' by {
            assert(head[i] == name[i]);
        }
        plain_name_is_kept(head);
        assert(name[name.len() - 1] == name.last());
        assert(head.push(name.last()) == name);
    }
}

/// Escaping goes character by character: a backslash comes before a backslash, a
/// closing parenthesis and a comma, and before nothing else.
pub proof fn escaping_goes_by_character(first: Seq<char>, second: Seq<char>, c: char)
    ensures
        escaped(first + second) == escaped(first) + escaped(second),
        escaped(Seq::empty()) == Seq::<char>::empty(),
        escaped(seq![c]) == if c == '\\' || c == ')' || c == ',' {
            seq!['\\', c]
        } else {
            seq![c]
        },
    decreases second.len(),
{
    reveal_with_fuel(escaped, 2);
    assert(seq![c].drop_last() == Seq::<char>::empty());
    if second.len() == 0 {
        assert(first + second == first);
    } else {
        escaping_goes_by_character(first, second.drop_last(), c);
        assert((first + second).drop_last() == first + second.drop_last());
    }
}

/// The expression for a list goes test by test: that of one test is its filter,
/// and where two lists follow each other, what either selects is selected.
pub proof fn expression_goes_by_test(
    first: Seq<ListedTest>,
    test: ListedTest,
    second: Seq<ListedTest>,
)
    ensures
        filter_expr(Seq::empty()) == Seq::<char>::empty(),
        filter_expr(seq![test]) == test_filter((test.binary@, test.name@)),
        first.len() > 0 && second.len() > 0 ==> filter_expr(first + second) == filter_expr(first)
            + " | "@ + filter_expr(second),
{
    crate::text::joining_goes_by_part(
        test_filters(models(first)),
        test_filter(test@),
        test_filters(models(second)),
        " | "@,
    );
    assert(test_filters(models(first + second)) =~= test_filters(models(first)) + test_filters(
        models(second),
    ));
    assert(test_filters(models(seq![test])) =~= seq![test_filter(test@)]);
    assert(test_filters(models(Seq::empty())) =~= Seq::<Seq<char>>::empty());
}

} // verus!
