//! Arguments in a shell command: how an argument is written so that a shell
//! takes it as one word, and how a shell reads words back.
use crate::text::{chars_of, texts};
use vstd::prelude::*;

verus! {

/// Whether a character stands for itself to a shell wherever it is written.
pub open spec fn is_plain(c: char) -> bool {
    ||| 'a' as int <= c as int <= 'z' as int
    ||| 'A' as int <= c as int <= 'Z' as int
    ||| '0' as int <= c as int <= '9' as int
    ||| c == '-' || c == '_' || c == '.' || c == '/' || c == '=' || c == ':' || c == ',' || c == '@'
        || c == '%' || c == '+'
}

/// Whether a character stands for itself to a shell wherever it is written.
fn plain(c: char) -> (yes: bool)
    ensures
        yes == is_plain(c),
{
    ('a' <= c && c <= 'z') || ('A' <= c && c <= 'Z') || ('0' <= c && c <= '9') || c == '-' || c
        == '_' || c == '.' || c == '/' || c == '=' || c == ':' || c == ',' || c == '@' || c == '%'
        || c == '+'
}

/// Whether a text needs no quotes: it is not empty, and all of its characters
/// stand for themselves.
pub open spec fn is_bare(text: Seq<char>) -> bool {
    text.len() > 0 && forall|i: int| 0 <= i < text.len() ==> is_plain(#[trigger] text[i])
}

/// A character between single quotes. A single quote itself cannot stand there:
/// the quotes are closed before it and opened again behind it.
pub open spec fn quoted_char(c: char) -> Seq<char> {
    if c == '\'' {
        seq!['\'', '\\', '\'', '\'']
    } else {
        seq![c]
    }
}

/// A text as it stands between single quotes.
pub open spec fn between_quotes(text: Seq<char>) -> Seq<char>
    decreases text.len(),
{
    if text.len() == 0 {
        Seq::empty()
    } else {
        between_quotes(text.drop_last()) + quoted_char(text.last())
    }
}

/// A text as one word of a shell command: as it is where it needs no quotes,
/// else in single quotes.
pub open spec fn shell_word(text: Seq<char>) -> Seq<char> {
    if is_bare(text) {
        text
    } else {
        seq!['\''] + between_quotes(text) + seq!['\'']
    }
}

/// The arguments as words of a shell command, each with a blank before it.
pub open spec fn forwarded(arguments: Seq<Seq<char>>) -> Seq<char>
    decreases arguments.len(),
{
    if arguments.len() == 0 {
        Seq::empty()
    } else {
        forwarded(arguments.drop_last()) + seq![' '] + shell_word(arguments.last())
    }
}

/// Appends a text as one word of a shell command.
pub fn append_word(out: &mut String, text: &str)
    ensures
        final(out)@ == old(out)@ + shell_word(text@),
{
    let chars = chars_of(text);
    let mut i: usize = 0;
    while i < chars.len() && plain(chars[i])
        invariant
            i <= chars@.len(),
            forall|j: int| 0 <= j < i ==> is_plain(#[trigger] chars@[j]),
        ensures
            i < chars@.len() ==> !is_plain(chars@[i as int]),
        decreases chars@.len() - i,
    {
        i += 1;
    }
    if chars.len() > 0 && i == chars.len() {
        out.append(text);
        return ;
    }
    let ghost before = out@;
    out.push('\'');
    let mut k: usize = 0;
    assert(between_quotes(chars@.take(0)) == Seq::<char>::empty());
    while k < chars.len()
        invariant
            k <= chars@.len(),
            out@ == before + seq!['\''] + between_quotes(chars@.take(k as int)),
        decreases chars@.len() - k,
    {
        let c = chars[k];
        let ghost shorter = out@;
        if c == '\'' {
            out.push('\'');
            out.push('\\');
            out.push('\'');
            out.push('\'');
        } else {
            out.push(c);
        }
        assert(out@ == shorter + quoted_char(c));
        assert(chars@.take(k + 1).drop_last() == chars@.take(k as int));
        assert(chars@.take(k + 1).last() == c);
        assert(out@ == before + seq!['\''] + between_quotes(chars@.take(k + 1)));
        k += 1;
    }
    assert(chars@.take(k as int) == chars@);
    out.push('\'');
    assert(out@ == before + shell_word(text@));
}

/// Appends arguments as words of a shell command, each with a blank before it.
pub fn append_arguments(out: &mut String, arguments: &[String])
    ensures
        final(out)@ == old(out)@ + forwarded(texts(arguments@)),
{
    let ghost before = out@;
    let mut i: usize = 0;
    assert(out@ == before + forwarded(texts(arguments@).take(0)));
    while i < arguments.len()
        invariant
            i <= arguments@.len(),
            out@ == before + forwarded(texts(arguments@).take(i as int)),
        decreases arguments@.len() - i,
    {
        let ghost longer = texts(arguments@).take(i + 1);
        assert(longer.drop_last() == texts(arguments@).take(i as int));
        assert(longer.last() == arguments@[i as int]@);
        out.push(' ');
        append_word(out, arguments[i].as_str());
        assert(out@ == before + forwarded(longer));
        i += 1;
    }
    assert(texts(arguments@).take(i as int) == texts(arguments@));
}

/// Where a shell stands while it reads words.
pub struct Reading {
    /// The words that have ended.
    pub words: Seq<Seq<char>>,
    /// The word that has begun, if any.
    pub word: Option<Seq<char>>,
    /// Whether a single quote is open.
    pub quoted: bool,
}

impl Reading {
    /// What has been read of the word.
    pub open spec fn so_far(self) -> Seq<char> {
        match self.word {
            Some(word) => word,
            None => Seq::empty(),
        }
    }

    /// The word goes on, or begins, with a character.
    pub open spec fn with_char(self, c: char) -> Reading {
        Reading { word: Some(self.so_far().push(c)), ..self }
    }

    /// A single quote opens or closes. Between quotes a word has begun, though
    /// it may be empty.
    pub open spec fn with_quote(self) -> Reading {
        Reading { word: Some(self.so_far()), quoted: !self.quoted, ..self }
    }

    /// The word, if any, has ended.
    pub open spec fn with_end(self) -> Reading {
        match self.word {
            Some(word) => Reading { words: self.words.push(word), word: None, ..self },
            None => self,
        }
    }
}

/// How a shell reads on: between single quotes every character but the quote
/// stands for itself. Elsewhere a blank ends a word, a backslash takes the
/// meaning from the character behind it, and plain characters stand for
/// themselves. Other characters mean something else than words to a shell: a text
/// that holds one there is not read as words, nor is one whose quotes are not
/// closed.
pub open spec fn read_words(text: Seq<char>, at: Reading) -> Option<Seq<Seq<char>>>
    decreases text.len(),
{
    if text.len() == 0 {
        if at.quoted {
            None
        } else {
            Some(at.with_end().words)
        }
    } else if text[0] == '\'' {
        read_words(text.skip(1), at.with_quote())
    } else if at.quoted || is_plain(text[0]) {
        read_words(text.skip(1), at.with_char(text[0]))
    } else if text[0] == ' ' {
        read_words(text.skip(1), at.with_end())
    } else if text[0] == '\\' && text.len() > 1 && text[1] != '\n' {
        read_words(text.skip(2), at.with_char(text[1]))
    } else {
        None
    }
}

/// The words that a shell reads in a part of a command; none where it takes the
/// part for more than words.
pub open spec fn shell_words(text: Seq<char>) -> Option<Seq<Seq<char>>> {
    read_words(text, Reading { words: Seq::empty(), word: None, quoted: false })
}

/// A text between quotes is read as it was before it was quoted.
proof fn quoted_text_is_read(text: Seq<char>, rest: Seq<char>, at: Reading)
    requires
        at.quoted,
        at.word is Some,
    ensures
        read_words(between_quotes(text) + rest, at) == read_words(
            rest,
            (Reading { word: Some(at.so_far() + text), ..at }),
        ),
    decreases text.len(),
{
    if text.len() == 0 {
        assert(between_quotes(text) + rest == rest);
        assert(at.so_far() + text == at.so_far());
    } else {
        let c = text.last();
        let head = text.drop_last();
        let more = quoted_char(c) + rest;
        let then = Reading { word: Some(at.so_far() + head), ..at };
        let end = Reading { word: Some(at.so_far() + text), ..at };
        assert(between_quotes(text) + rest == between_quotes(head) + more);
        quoted_text_is_read(head, more, at);
        assert(then.so_far().push(c) == at.so_far() + text);
        if c == '\'' {
            let closed = then.with_quote();
            assert(more[0] == '\'');
            assert(read_words(more, then) == read_words(more.skip(1), closed));
            assert(more.skip(1)[0] == '\\' && more.skip(1)[1] == '\'');
            assert(more.skip(1).skip(2) == more.skip(3));
            assert(read_words(more.skip(1), closed) == read_words(
                more.skip(3),
                closed.with_char(c),
            ));
            assert(more.skip(3)[0] == '\'');
            assert(more.skip(3).skip(1) == rest);
            assert(closed.with_char(c).with_quote() == end);
        } else {
            assert(more[0] == c);
            assert(more.skip(1) == rest);
            assert(then.with_char(c) == end);
        }
    }
}

/// Plain characters are read as they are.
proof fn plain_text_is_read(text: Seq<char>, rest: Seq<char>, at: Reading)
    requires
        is_bare(text),
        !at.quoted,
    ensures
        read_words(text + rest, at) == read_words(
            rest,
            (Reading { word: Some(at.so_far() + text), ..at }),
        ),
    decreases text.len(),
{
    let c = text[0];
    let tail = text.skip(1);
    assert((text + rest)[0] == c);
    assert((text + rest).skip(1) == tail + rest);
    let then = at.with_char(c);
    if tail.len() == 0 {
        assert(tail + rest == rest);
        assert(at.so_far() + text == at.so_far().push(c));
    } else {
        assert forall|i: int| 0 <= i < tail.len() implies is_plain(#[trigger] tail[i]) by {
            assert(tail[i] == text[i + 1]);
        }
        plain_text_is_read(tail, rest, then);
        assert(then.so_far() + tail == at.so_far() + text);
    }
}

/// A word is read as the text that it was made of.
proof fn word_is_read(text: Seq<char>, rest: Seq<char>, at: Reading)
    requires
        !at.quoted,
        at.word is None,
    ensures
        read_words(shell_word(text) + rest, at) == read_words(
            rest,
            (Reading { word: Some(text), ..at }),
        ),
{
    assert(at.so_far() + text == text);
    if is_bare(text) {
        plain_text_is_read(text, rest, at);
    } else {
        let whole = shell_word(text) + rest;
        let opened = at.with_quote();
        let closing = seq!['\''] + rest;
        assert(whole[0] == '\'');
        assert(whole.skip(1) == between_quotes(text) + closing);
        quoted_text_is_read(text, closing, opened);
        assert(opened.so_far() + text == text);
        let inside = Reading { word: Some(text), ..opened };
        assert(closing[0] == '\'');
        assert(closing.skip(1) == rest);
        assert(inside.with_quote() == (Reading { word: Some(text), ..at }));
    }
}

/// Arguments are read as the words that they are.
proof fn arguments_are_read(arguments: Seq<Seq<char>>, rest: Seq<char>)
    requires
        arguments.len() > 0,
    ensures
        shell_words(forwarded(arguments) + rest) == read_words(
            rest,
            (Reading {
                words: arguments.drop_last(),
                word: Some(arguments.last()),
                quoted: false,
            }),
        ),
    decreases arguments.len(),
{
    let head = arguments.drop_last();
    let word = shell_word(arguments.last());
    let more = seq![' '] + word + rest;
    let next = Reading { words: head, word: None, quoted: false };
    assert(forwarded(arguments) + rest == forwarded(head) + more);
    assert(more[0] == ' ');
    assert(more.skip(1) == word + rest);
    if head.len() == 0 {
        assert(forwarded(head) + more == more);
        assert(head == Seq::<Seq<char>>::empty());
    } else {
        arguments_are_read(head, more);
        let at = Reading { words: head.drop_last(), word: Some(head.last()), quoted: false };
        assert(head.drop_last().push(head.last()) == head);
        assert(at.with_end() == next);
    }
    word_is_read(arguments.last(), rest, next);
}

/// Arguments arrive whole: the words that a shell reads in forwarded arguments
/// are exactly these arguments, whatever characters they hold.
pub proof fn arguments_arrive_whole(arguments: Seq<Seq<char>>)
    ensures
        shell_words(forwarded(arguments)) == Some(arguments),
{
    if arguments.len() > 0 {
        let empty = Seq::<char>::empty();
        arguments_are_read(arguments, empty);
        assert(forwarded(arguments) + empty == forwarded(arguments));
        assert(arguments.drop_last().push(arguments.last()) == arguments);
    }
}

/// Letters, digits and ten marks stand for themselves to a shell; no other
/// character does, blanks, quotes and the characters that shells act on among them.
pub proof fn few_characters_are_plain(c: char)
    ensures
        is_plain(c) <==> ('a' as int <= c as int <= 'z' as int || 'A' as int <= c as int
            <= 'Z' as int || '0' as int <= c as int <= '9' as int || seq![
            '-',
            '_',
            '.',
            '/',
            '=',
            ':',
            ',',
            '@',
            '%',
            '+',
        ].contains(c)),
{
    let marks = seq!['-', '_', '.', '/', '=', ':', ',', '@', '%', '+'];
    assert(marks[0] == '-' && marks[1] == '_' && marks[2] == '.' && marks[3] == '/' && marks[4]
        == '=' && marks[5] == ':' && marks[6] == ',' && marks[7] == '@' && marks[8] == '%'
        && marks[9] == '+');
}

/// A text without single quotes is a word as it is where all of its characters are
/// plain, and else, or where it is empty, between single quotes.
pub proof fn word_is_bare_or_quoted(text: Seq<char>)
    requires
        forall|i: int| 0 <= i < text.len() ==> #[trigger] text[i] != '\'',
    ensures
        text.len() > 0 && (forall|i: int| 0 <= i < text.len() ==> is_plain(#[trigger] text[i]))
            ==> shell_word(text) == text,
        text.len() == 0 || (exists|i: int| 0 <= i < text.len() && !is_plain(#[trigger] text[i]))
            ==> shell_word(text) == seq!['\''] + text + seq!['\''],
{
    text_without_quotes(text);
}

/// Without single quotes a text stands between quotes as it is.
proof fn text_without_quotes(text: Seq<char>)
    requires
        forall|i: int| 0 <= i < text.len() ==> #[trigger] text[i] != '\'',
    ensures
        between_quotes(text) == text,
    decreases text.len(),
{
    if text.len() > 0 {
        let head = text.drop_last();
        assert forall|i: int| 0 <= i < head.len() implies #[trigger] head[i] != '\'' by {
            assert(head[i] == text[i]);
        }
        text_without_quotes(head);
        assert(text[text.len() - 1] == text.last());
        assert(head.push(text.last()) == text);
    }
}

/// A text with a single quote in it is a word in quotes, and what stands between
/// them goes character by character: a single quote closes the quotes, is written
/// behind a backslash, and opens them again.
pub proof fn quoting_goes_by_character(first: Seq<char>, second: Seq<char>, c: char)
    ensures
        between_quotes(first + second) == between_quotes(first) + between_quotes(second),
        between_quotes(Seq::empty()) == Seq::<char>::empty(),
        between_quotes(seq![c]) == if c == '\'' {
            seq!['\'', '\\', '\'', '\'']
        } else {
            seq![c]
        },
        first.contains('\'') ==> shell_word(first) == seq!['\''] + between_quotes(first) + seq![
            '\'',
        ],
    decreases second.len(),
{
    reveal_with_fuel(between_quotes, 2);
    assert(seq![c].drop_last() == Seq::<char>::empty());
    if second.len() == 0 {
        assert(first + second == first);
    } else {
        quoting_goes_by_character(first, second.drop_last(), c);
        assert((first + second).drop_last() == first + second.drop_last());
    }
    if first.contains('\'') {
        let i = choose|i: int| 0 <= i < first.len() && first[i] == '\'';
        assert(!is_plain(first[i]));
    }
}

/// Forwarding goes argument by argument: a blank and the word of each, in order.
pub proof fn forwarding_goes_by_argument(
    first: Seq<Seq<char>>,
    argument: Seq<char>,
    second: Seq<Seq<char>>,
)
    ensures
        forwarded(Seq::empty()) == Seq::<char>::empty(),
        forwarded(seq![argument]) == seq![' '] + shell_word(argument),
        forwarded(first + second) == forwarded(first) + forwarded(second),
    decreases second.len(),
{
    reveal_with_fuel(forwarded, 2);
    assert(seq![argument].drop_last() == Seq::<Seq<char>>::empty());
    assert(forwarded(seq![argument]) =~= seq![' '] + shell_word(argument));
    if second.len() == 0 {
        assert(first + second == first);
    } else {
        forwarding_goes_by_argument(first, argument, second.drop_last());
        assert((first + second).drop_last() == first + second.drop_last());
    }
}

} // verus!
