//! Text as sequences of characters: ordering, joining, numbers, columns.
use vstd::prelude::*;

verus! {

/// `String::push`: the character goes to the end of the text.
pub assume_specification[ String::push ](s: &mut String, ch: char)
    ensures
        final(s)@ == old(s)@.push(ch),
;

/// What lossy decoding makes of bytes that need not be UTF-8.
pub uninterp spec fn utf8_lossy(bytes: Seq<u8>) -> Seq<char>;

/// `String::from_utf8_lossy`: the decoded text is a function of the bytes, and
/// bytes that are UTF-8 decode to the text that they encode. Where replacement
/// characters go in other bytes is left to the name.
#[verifier::external_body]
pub(crate) fn decode_lossy(bytes: &[u8]) -> (text: String)
    ensures
        text@ == utf8_lossy(bytes@),
        vstd::utf8::valid_utf8(bytes@) ==> text@ == vstd::utf8::decode_utf8(bytes@),
{
    String::from_utf8_lossy(bytes).into_owned()
}

/// The texts of a list of strings.
pub open spec fn texts(strings: Seq<String>) -> Seq<Seq<char>> {
    strings.map_values(|s: String| s@)
}

/// The order of texts: by code point, the first difference decides, and a
/// prefix comes before what extends it.
pub open spec fn text_le(a: Seq<char>, b: Seq<char>) -> bool
    decreases a.len(),
{
    if a.len() == 0 {
        true
    } else if b.len() == 0 {
        false
    } else if a[0] == b[0] {
        text_le(a.drop_first(), b.drop_first())
    } else {
        (a[0] as int) < (b[0] as int)
    }
}

/// Whether `a` stands at or before `b` in the order of texts.
pub fn stands_before(a: &str, b: &str) -> (before: bool)
    ensures
        before == text_le(a@, b@),
{
    let mut left = a.chars();
    let mut right = b.chars();
    loop
        invariant
            vstd::std_specs::iter::IteratorSpec::obeys_prophetic_iter_laws(&left),
            vstd::std_specs::iter::IteratorSpec::obeys_prophetic_iter_laws(&right),
            vstd::std_specs::iter::IteratorSpec::decrease(&left) is Some,
            text_le(a@, b@) == text_le(vstd::std_specs::iter::IteratorSpec::remaining(&left), vstd::std_specs::iter::IteratorSpec::remaining(&right)),
        decreases vstd::std_specs::iter::IteratorSpec::decrease(&left)->0,
    {
        let x = left.next();
        let y = right.next();
        match x {
            None => {
                return true;
            },
            Some(x) => match y {
                None => {
                    return false;
                },
                Some(y) => {
                    if x != y {
                        return x < y;
                    }
                },
            },
        }
    }
}

/// Any text stands at or before itself.
pub proof fn text_le_reflexive(a: Seq<char>)
    ensures
        text_le(a, a),
    decreases a.len(),
{
    if a.len() > 0 {
        text_le_reflexive(a.drop_first());
    }
}

/// Two texts that stand at or before each other are the same text.
pub proof fn text_le_antisymmetric(a: Seq<char>, b: Seq<char>)
    requires
        text_le(a, b),
        text_le(b, a),
    ensures
        a == b,
    decreases a.len(),
{
    if a.len() > 0 && b.len() > 0 {
        text_le_antisymmetric(a.drop_first(), b.drop_first());
        assert(a == seq![a[0]] + a.drop_first());
        assert(b == seq![b[0]] + b.drop_first());
    } else {
        assert(a == b);
    }
}

/// The order of texts carries over a middle text.
pub proof fn text_le_transitive(a: Seq<char>, b: Seq<char>, c: Seq<char>)
    requires
        text_le(a, b),
        text_le(b, c),
    ensures
        text_le(a, c),
    decreases a.len(),
{
    if a.len() > 0 && b.len() > 0 && c.len() > 0 && a[0] == b[0] && b[0] == c[0] {
        text_le_transitive(a.drop_first(), b.drop_first(), c.drop_first());
    }
}

/// Of any two texts one stands at or before the other.
pub proof fn text_le_total(a: Seq<char>, b: Seq<char>)
    ensures
        text_le(a, b) || text_le(b, a),
    decreases a.len(),
{
    if a.len() > 0 && b.len() > 0 && a[0] == b[0] {
        text_le_total(a.drop_first(), b.drop_first());
    }
}

/// The character for a digit below ten.
pub open spec fn digit_char(digit: nat) -> char {
    (('0' as nat) + digit) as char
}

/// The decimal notation of a number, without leading zeros.
pub open spec fn decimal(n: nat) -> Seq<char>
    decreases n,
{
    if n < 10 {
        seq![digit_char(n)]
    } else {
        decimal(n / 10).push(digit_char(n % 10))
    }
}

/// Appends the decimal notation of `n`.
pub fn append_decimal(out: &mut String, n: u64)
    ensures
        final(out)@ == old(out)@ + decimal(n as nat),
    decreases n,
{
    if n >= 10 {
        append_decimal(out, n / 10);
    }
    let digit: u8 = (n % 10) as u8;
    out.push((48u8 + digit) as char);
}

/// The decimal notation of `n`.
pub fn decimal_text(n: u64) -> (text: String)
    ensures
        text@ == decimal(n as nat),
{
    let mut text = String::new();
    append_decimal(&mut text, n);
    text
}

/// Whether `c` is one of the ten decimal digits.
pub open spec fn is_digit(c: char) -> bool {
    '0' as int <= c as int <= '9' as int
}

/// The number that a run of decimal digits stands for.
pub open spec fn number(digits: Seq<char>) -> nat
    decreases digits.len(),
{
    if digits.len() == 0 {
        0
    } else {
        number(digits.drop_last()) * 10 + (digits.last() as nat - '0' as nat) as nat
    }
}

/// What is left of a text when one leading plus sign is taken off.
pub open spec fn without_plus(s: Seq<char>) -> Seq<char> {
    if s.len() > 0 && s[0] == '+' {
        s.drop_first()
    } else {
        s
    }
}

/// The port that a text names: digits with an optional leading plus sign, of a
/// value that fits in sixteen bits. Any other text names none.
pub open spec fn port_number(s: Seq<char>) -> Option<u16> {
    let digits = without_plus(s);
    if digits.len() > 0 && (forall|i: int| 0 <= i < digits.len() ==> is_digit(#[trigger] digits[i]))
        && number(digits) <= u16::MAX {
        Some(number(digits) as u16)
    } else {
        None
    }
}

/// The characters of a text as a vector.
pub fn chars_of(s: &str) -> (chars: Vec<char>)
    ensures
        chars@ == s@,
{
    let mut chars: Vec<char> = Vec::new();
    for c in it: s.chars()
        invariant
            chars@ == it.seq().take(it.index() as int),
            it.seq() == s@,
    {
        chars.push(c);
    }
    chars
}

/// The text of `chars[from..to]`.
pub fn text_between(chars: &Vec<char>, from: usize, to: usize) -> (text: String)
    requires
        from <= to <= chars@.len(),
    ensures
        text@ == chars@.subrange(from as int, to as int),
{
    let mut text = String::new();
    let mut i: usize = from;
    while i < to
        invariant
            from <= i <= to <= chars@.len(),
            text@ == chars@.subrange(from as int, i as int),
        decreases to - i,
    {
        text.push(chars[i]);
        i += 1;
    }
    text
}

/// A prefix of a run of digits stands for no more than the whole.
proof fn number_grows(digits: Seq<char>, n: int)
    requires
        0 <= n <= digits.len(),
    ensures
        number(digits.take(n)) <= number(digits),
    decreases digits.len() - n,
{
    if n < digits.len() {
        number_grows(digits, n + 1);
        assert(digits.take(n + 1).drop_last() == digits.take(n));
    } else {
        assert(digits.take(n) == digits);
    }
}

/// Reads a port number.
pub fn parse_port(s: &str) -> (port: Option<u16>)
    ensures
        port == port_number(s@),
{
    let chars = chars_of(s);
    let start: usize = if chars.len() > 0 && chars[0] == '+' {
        1
    } else {
        0
    };
    let ghost digits = without_plus(s@);
    assert(digits == s@.skip(start as int));
    if start == chars.len() {
        return None;
    }
    let mut value: u32 = 0;
    let mut i: usize = start;
    assert(digits.take(0) == Seq::<char>::empty());
    while i < chars.len()
        invariant
            start <= i <= chars@.len(),
            chars@ == s@,
            digits == without_plus(s@),
            digits == s@.skip(start as int),
            forall|j: int| 0 <= j < i - start ==> is_digit(#[trigger] digits[j]),
            value == number(digits.take(i - start)),
            value <= u16::MAX,
        decreases chars@.len() - i,
    {
        let c = chars[i];
        assert(digits[i - start] == c);
        if !('0' <= c && c <= '9') {
            return None;
        }
        assert(digits.take(i + 1 - start).drop_last() == digits.take(i - start));
        value = value * 10 + (c as u32 - 48);
        if value > 65535 {
            proof {
                number_grows(digits, i + 1 - start);
            }
            return None;
        }
        i += 1;
    }
    assert(digits.take(i - start) == digits);
    Some(value as u16)
}

/// Decimal notation consists of digits and stands for its number.
proof fn decimal_digits(n: nat)
    ensures
        decimal(n).len() > 0,
        forall|i: int| 0 <= i < decimal(n).len() ==> is_digit(#[trigger] decimal(n)[i]),
        number(decimal(n)) == n,
    decreases n,
{
    reveal_with_fuel(number, 2);
    if n >= 10 {
        decimal_digits(n / 10);
        assert(decimal(n).drop_last() == decimal(n / 10));
    } else {
        assert(decimal(n).drop_last() == Seq::<char>::empty());
    }
}

/// A port written in decimal reads back as itself.
pub proof fn port_reads_back(port: u16)
    ensures
        port_number(decimal(port as nat)) == Some(port),
{
    decimal_digits(port as nat);
    assert(is_digit(decimal(port as nat)[0]));
}

/// The parts in order, with `separator` between neighbours.
pub open spec fn joined(parts: Seq<Seq<char>>, separator: Seq<char>) -> Seq<char>
    decreases parts.len(),
{
    if parts.len() == 0 {
        Seq::empty()
    } else if parts.len() == 1 {
        parts[0]
    } else {
        joined(parts.drop_last(), separator) + separator + parts.last()
    }
}

/// Joins the parts with `separator` between neighbours.
pub fn join_texts(parts: &[String], separator: &str) -> (text: String)
    ensures
        text@ == joined(texts(parts@), separator@),
{
    let mut text = String::new();
    let mut i: usize = 0;
    while i < parts.len()
        invariant
            0 <= i <= parts@.len(),
            text@ == joined(texts(parts@).take(i as int), separator@),
        decreases parts@.len() - i,
    {
        let ghost done = texts(parts@).take(i as int);
        let ghost next = texts(parts@).take(i + 1);
        if i > 0 {
            text.append(separator);
        }
        text.append(parts[i].as_str());
        assert(next.drop_last() == done);
        assert(next.last() == parts@[i as int]@);
        i += 1;
    }
    assert(texts(parts@).take(i as int) == texts(parts@));
    text
}

/// A run of `n` equal characters.
pub open spec fn run_of(c: char, n: nat) -> Seq<char> {
    Seq::new(n, |i: int| c)
}

/// Appends `n` times the character `c`.
pub fn append_run(out: &mut String, c: char, n: usize)
    ensures
        final(out)@ == old(out)@ + run_of(c, n as nat),
{
    let mut i: usize = 0;
    while i < n
        invariant
            i <= n,
            out@ == old(out)@ + run_of(c, i as nat),
        decreases n - i,
    {
        out.push(c);
        i += 1;
    }
}

/// A text filled up with blanks on the right to at least `width` characters.
pub open spec fn padded(s: Seq<char>, width: nat) -> Seq<char> {
    if s.len() >= width {
        s
    } else {
        s + run_of(' ', (width - s.len()) as nat)
    }
}

/// Appends `s`, filled up with blanks to at least `width` characters.
pub fn append_padded(out: &mut String, s: &str, width: usize)
    ensures
        final(out)@ == old(out)@ + padded(s@, width as nat),
{
    out.append(s);
    let len: usize = s.unicode_len();
    if len < width {
        append_run(out, ' ', width - len);
    }
}

/// The texts of a list are those of its strings, one for each.
pub proof fn every_string_has_its_text(strings: Seq<String>)
    ensures
        texts(strings).len() == strings.len(),
        forall|i: int| 0 <= i < strings.len() ==> #[trigger] texts(strings)[i] == strings[i]@,
{
}

/// The first difference between two texts decides which comes first: the one
/// whose character there has the smaller code point.
pub proof fn first_difference_decides(
    common: Seq<char>,
    smaller: char,
    larger: char,
    left: Seq<char>,
    right: Seq<char>,
)
    requires
        (smaller as int) < (larger as int),
    ensures
        text_le(common + seq![smaller] + left, common + seq![larger] + right),
        !text_le(common + seq![larger] + right, common + seq![smaller] + left),
    decreases common.len(),
{
    let a = common + seq![smaller] + left;
    let b = common + seq![larger] + right;
    if common.len() > 0 {
        let rest = common.drop_first();
        first_difference_decides(rest, smaller, larger, left, right);
        assert(a.drop_first() == rest + seq![smaller] + left);
        assert(b.drop_first() == rest + seq![larger] + right);
    } else {
        assert(a[0] == smaller && b[0] == larger);
    }
}

/// A text comes before any that extends it.
pub proof fn prefix_comes_first(text: Seq<char>, more: Seq<char>)
    requires
        more.len() > 0,
    ensures
        text_le(text, text + more),
        !text_le(text + more, text),
    decreases text.len(),
{
    if text.len() > 0 {
        prefix_comes_first(text.drop_first(), more);
        assert((text + more).drop_first() == text.drop_first() + more);
    }
}

/// Decimal notation goes place by place: a number below ten is its digit, and the
/// notation of ten times a number and a digit is that of the number with the digit
/// behind it.
pub proof fn decimal_goes_by_place(n: nat, digit: nat)
    requires
        digit < 10,
    ensures
        decimal(digit) == seq![('0' as nat + digit) as char],
        n > 0 ==> decimal(n * 10 + digit) == decimal(n) + seq![('0' as nat + digit) as char],
{
    if n > 0 {
        assert((n * 10 + digit) / 10 == n);
        assert((n * 10 + digit) % 10 == digit);
    }
}

/// A digit zero in front changes nothing of the number.
proof fn leading_zero(digits: Seq<char>)
    ensures
        number(seq!['0'] + digits) == number(digits),
    decreases digits.len(),
{
    let longer = seq!['0'] + digits;
    reveal_with_fuel(number, 2);
    if digits.len() == 0 {
        assert(longer.drop_last() == digits);
    } else {
        leading_zero(digits.drop_last());
        assert(longer.drop_last() == seq!['0'] + digits.drop_last());
    }
}

/// Which texts name a port: one leading plus sign and leading zeros do not matter,
/// a number that does not fit in sixteen bits is no port, and neither is an empty
/// text or one with any other character in it.
pub proof fn ports_are_numbers(text: Seq<char>, n: nat, before: Seq<char>, c: char, behind: Seq<char>)
    ensures
        port_number(Seq::empty()) is None,
        text.len() > 0 && text[0] != '+' ==> port_number(seq!['+'] + text) == port_number(text),
        text.len() > 0 && text[0] != '+' ==> port_number(seq!['0'] + text) == port_number(text),
        n > 65535 ==> port_number(decimal(n)) is None,
        n <= 65535 ==> port_number(decimal(n)) == Some(n as u16),
        !('0' as int <= c as int <= '9' as int) && (c != '+' || before.len() > 0) ==> port_number(
            before + seq![c] + behind,
        ) is None,
{
    if text.len() > 0 && text[0] != '+' {
        let signed = seq!['+'] + text;
        assert(signed.drop_first() == text);
        let zero = seq!['0'] + text;
        leading_zero(text);
        assert(without_plus(zero) == zero);
        if forall|i: int| 0 <= i < text.len() ==> is_digit(#[trigger] text[i]) {
            assert forall|i: int| 0 <= i < zero.len() implies is_digit(#[trigger] zero[i]) by {
                if i > 0 {
                    assert(zero[i] == text[i - 1]);
                }
            }
        } else {
            let i = choose|i: int| 0 <= i < text.len() && !is_digit(#[trigger] text[i]);
            assert(zero[i + 1] == text[i]);
        }
    }
    decimal_digits(n);
    assert(is_digit(decimal(n)[0]));
    assert(without_plus(decimal(n)) == decimal(n));
    if !('0' as int <= c as int <= '9' as int) && (c != '+' || before.len() > 0) {
        let whole = before + seq![c] + behind;
        let at = before.len() as int;
        assert(whole[at] == c);
        let digits = without_plus(whole);
        if whole[0] == '+' {
            assert(digits[at - 1] == c);
        } else {
            assert(digits[at] == c);
        }
    }
}

/// Joining goes part by part: nothing gives the empty text, one part is itself, and
/// two lists of parts that follow each other are joined with the separator between
/// them.
pub proof fn joining_goes_by_part(
    first: Seq<Seq<char>>,
    part: Seq<char>,
    second: Seq<Seq<char>>,
    separator: Seq<char>,
)
    ensures
        joined(Seq::empty(), separator) == Seq::<char>::empty(),
        joined(seq![part], separator) == part,
        first.len() > 0 && second.len() > 0 ==> joined(first + second, separator) == joined(
            first,
            separator,
        ) + separator + joined(second, separator),
    decreases second.len(),
{
    if first.len() > 0 && second.len() > 0 {
        let all = first + second;
        assert(all.drop_last() == first + second.drop_last());
        if second.len() == 1 {
            assert(first + second.drop_last() == first);
        } else {
            joining_goes_by_part(first, part, second.drop_last(), separator);
        }
        assert(joined(all, separator) =~= joined(first, separator) + separator + joined(
            second,
            separator,
        ));
    }
}

/// A filled up text is the text, followed by blanks alone, and has the width where
/// the text is not wider.
pub proof fn padding_is_blank(text: Seq<char>, width: nat)
    ensures
        padded(text, width).len() == if text.len() < width {
            width
        } else {
            text.len()
        },
        padded(text, width).take(text.len() as int) == text,
        forall|i: int|
            text.len() <= i < padded(text, width).len() ==> #[trigger] padded(text, width)[i] == ' ',
        forall|c: char, i: int| 0 <= i < width ==> #[trigger] run_of(c, width)[i] == c,
        forall|c: char| (#[trigger] run_of(c, width)).len() == width,
{
}

} // verus!
