//! The output of a command, line by line: the bytes of its two streams are put
//! into lines as they arrive, and a line is decoded when it is complete.
use crate::text::{decode_lossy, texts, utf8_lossy};
use vstd::prelude::*;
use vstd::utf8::{decode_utf8, is_continuation_byte, valid_utf8};

verus! {

/// The byte that ends a line.
pub const LINE_FEED: u8 = 10;

/// Bytes of one stream that stand next to each other in a line.
#[derive(Debug, PartialEq, Eq)]
pub struct Piece {
    /// Whether they come from the standard error.
    pub stderr: bool,
    pub bytes: Vec<u8>,
}

/// What a piece of a line is.
pub struct PieceModel {
    pub stderr: bool,
    pub bytes: Seq<u8>,
}

impl View for Piece {
    type V = PieceModel;

    open spec fn view(&self) -> PieceModel {
        PieceModel { stderr: self.stderr, bytes: self.bytes@ }
    }
}

/// The pieces of a line.
pub open spec fn line_model(line: Seq<Piece>) -> Seq<PieceModel> {
    line.map_values(|piece: Piece| piece@)
}

/// The pieces of a list of lines.
pub open spec fn line_models(lines: Seq<Vec<Piece>>) -> Seq<Seq<PieceModel>> {
    lines.map_values(|line: Vec<Piece>| line_model(line@))
}

/// How many bytes the character takes that a byte begins.
pub open spec fn char_width(first: u8) -> nat {
    if 0xf0 <= first <= 0xf7 {
        4
    } else if 0xe0 <= first <= 0xef {
        3
    } else if 0xc0 <= first <= 0xdf {
        2
    } else {
        1
    }
}

/// Whether bytes begin a character and do not end it.
pub open spec fn unfinished(bytes: Seq<u8>) -> bool {
    &&& 0 < bytes.len() < char_width(bytes[0])
    &&& forall|i: int| 1 <= i < bytes.len() ==> is_continuation_byte(#[trigger] bytes[i])
}

/// Whether bytes begin a character and do not end it.
fn is_unfinished(bytes: &Vec<u8>) -> (yes: bool)
    ensures
        yes == unfinished(bytes@),
{
    if bytes.len() == 0 {
        return false;
    }
    let first: u8 = bytes[0];
    let width: usize = if 0xf0 <= first && first <= 0xf7 {
        4
    } else if 0xe0 <= first && first <= 0xef {
        3
    } else if 0xc0 <= first && first <= 0xdf {
        2
    } else {
        1
    };
    if bytes.len() >= width {
        return false;
    }
    let mut i: usize = 1;
    while i < bytes.len()
        invariant
            1 <= i <= bytes@.len(),
            forall|j: int| 1 <= j < i ==> is_continuation_byte(#[trigger] bytes@[j]),
        decreases bytes@.len() - i,
    {
        if bytes[i] < 0x80 || bytes[i] > 0xbf {
            assert(!is_continuation_byte(bytes@[i as int]));
            return false;
        }
        i += 1;
    }
    true
}

/// What has arrived and is not part of a complete line: the line that has begun,
/// and of each stream the bytes of a character that is not finished. These join
/// the line when the character is finished, so that bytes of the other stream do
/// not get into it.
pub struct Pending {
    pub line: Seq<PieceModel>,
    pub out: Seq<u8>,
    pub err: Seq<u8>,
}

/// A line with more bytes of a stream at its end.
pub open spec fn extended(line: Seq<PieceModel>, stderr: bool, bytes: Seq<u8>) -> Seq<PieceModel> {
    if bytes.len() == 0 {
        line
    } else if line.len() > 0 && line.last().stderr == stderr {
        line.drop_last().push(PieceModel { stderr, bytes: line.last().bytes + bytes })
    } else {
        line.push(PieceModel { stderr, bytes })
    }
}

impl Pending {
    /// Nothing has arrived.
    pub open spec fn none() -> Pending {
        Pending { line: Seq::empty(), out: Seq::empty(), err: Seq::empty() }
    }

    /// The bytes of the unfinished character of a stream.
    pub open spec fn held(self, stderr: bool) -> Seq<u8> {
        if stderr {
            self.err
        } else {
            self.out
        }
    }

    /// The same with another unfinished character of a stream.
    pub open spec fn holding(self, stderr: bool, bytes: Seq<u8>) -> Pending {
        if stderr {
            Pending { err: bytes, ..self }
        } else {
            Pending { out: bytes, ..self }
        }
    }

    /// The same with more bytes of a stream in the line, and no unfinished
    /// character of it.
    pub open spec fn showing(self, stderr: bool, bytes: Seq<u8>) -> Pending {
        Pending { line: extended(self.line, stderr, bytes), ..self.holding(stderr, Seq::empty()) }
    }

    /// The line at the end of the output, with what is left of unfinished
    /// characters.
    pub open spec fn last_line(self) -> Seq<PieceModel> {
        extended(extended(self.line, false, self.out), true, self.err)
    }
}

/// What comes of one more byte of a stream: the line that it completes, if any,
/// and what is pending then. A byte that leaves its character unfinished is held
/// back; one that finishes it, or cannot be part of it, makes the bytes that were
/// held back part of the line.
pub open spec fn step(at: Pending, stderr: bool, byte: u8) -> (Option<Seq<PieceModel>>, Pending) {
    let held = at.held(stderr);
    let shown = at.showing(stderr, held);
    if unfinished(held.push(byte)) {
        (None, at.holding(stderr, held.push(byte)))
    } else if is_continuation_byte(byte) {
        (None, at.showing(stderr, held.push(byte)))
    } else if unfinished(seq![byte]) {
        (None, shown.holding(stderr, seq![byte]))
    } else if byte == LINE_FEED {
        (Some(shown.line), Pending { line: Seq::empty(), ..shown })
    } else {
        (None, shown.showing(stderr, seq![byte]))
    }
}

/// What comes of bytes, each with the stream that it is from: the lines that they
/// complete, and what is pending then.
pub open spec fn fed(at: Pending, bytes: Seq<(bool, u8)>) -> (Seq<Seq<PieceModel>>, Pending)
    decreases bytes.len(),
{
    if bytes.len() == 0 {
        (Seq::empty(), at)
    } else {
        let (lines, then) = fed(at, bytes.drop_last());
        match step(then, bytes.last().0, bytes.last().1) {
            (Some(line), next) => (lines.push(line), next),
            (None, next) => (lines, next),
        }
    }
}

/// Bytes that are all from one stream.
pub open spec fn from_one(stderr: bool, bytes: Seq<u8>) -> Seq<(bool, u8)> {
    bytes.map_values(|byte: u8| (stderr, byte))
}

/// The lines of the output of a command that has ended.
pub open spec fn output_lines(bytes: Seq<(bool, u8)>) -> Seq<Seq<PieceModel>> {
    let (lines, then) = fed(Pending::none(), bytes);
    if then.last_line().len() == 0 {
        lines
    } else {
        lines.push(then.last_line())
    }
}

/// The text of a line: what its pieces decode to, one after the other.
pub open spec fn line_text(line: Seq<PieceModel>) -> Seq<char>
    decreases line.len(),
{
    if line.len() == 0 {
        Seq::empty()
    } else {
        line_text(line.drop_last()) + utf8_lossy(line.last().bytes)
    }
}

/// Whether all pieces of a line are UTF-8.
pub open spec fn is_utf8(line: Seq<PieceModel>) -> bool {
    forall|i: int| 0 <= i < line.len() ==> valid_utf8((#[trigger] line[i]).bytes)
}

/// The text that the pieces of a line encode, one after the other.
pub open spec fn encoded_text(line: Seq<PieceModel>) -> Seq<char>
    decreases line.len(),
{
    if line.len() == 0 {
        Seq::empty()
    } else {
        encoded_text(line.drop_last()) + decode_utf8(line.last().bytes)
    }
}

/// Whether a text is what a line decodes to: the text that its bytes encode where
/// they are UTF-8, and the lossy decoding of any other bytes.
pub open spec fn decodes(line: Seq<PieceModel>, text: Seq<char>) -> bool {
    &&& text == line_text(line)
    &&& is_utf8(line) ==> text == encoded_text(line)
}

/// Whether texts are what lines decode to, one by one.
pub open spec fn all_decode(lines: Seq<Seq<PieceModel>>, decoded: Seq<Seq<char>>) -> bool {
    &&& decoded.len() == lines.len()
    &&& forall|i: int| 0 <= i < lines.len() ==> decodes(lines[i], #[trigger] decoded[i])
}

/// Decodes a line.
pub fn decode_line(line: &Vec<Piece>) -> (text: String)
    ensures
        decodes(line_model(line@), text@),
{
    let mut text = String::new();
    let ghost model = line_model(line@);
    let mut i: usize = 0;
    assert(model.take(0) == Seq::<PieceModel>::empty());
    while i < line.len()
        invariant
            i <= line@.len(),
            model == line_model(line@),
            text@ == line_text(model.take(i as int)),
            is_utf8(model) ==> text@ == encoded_text(model.take(i as int)),
        decreases line@.len() - i,
    {
        assert(model.take(i + 1).drop_last() == model.take(i as int));
        assert(model.take(i + 1).last() == model[i as int]);
        text.append(decode_lossy(line[i].bytes.as_slice()).as_str());
        i += 1;
    }
    assert(model.take(i as int) == model);
    text
}

/// Decodes lines, one by one.
pub fn decode_lines(lines: &Vec<Vec<Piece>>) -> (decoded: Vec<String>)
    ensures
        all_decode(line_models(lines@), texts(decoded@)),
{
    let mut decoded: Vec<String> = Vec::new();
    let mut i: usize = 0;
    while i < lines.len()
        invariant
            i <= lines@.len(),
            decoded@.len() == i,
            forall|j: int|
                0 <= j < i ==> decodes(line_model(lines@[j]@), (#[trigger] decoded@[j])@),
        decreases lines@.len() - i,
    {
        decoded.push(decode_line(&lines[i]));
        i += 1;
    }
    assert forall|j: int| 0 <= j < lines@.len() implies decodes(
        line_models(lines@)[j],
        #[trigger] texts(decoded@)[j],
    ) by {
        assert(decodes(line_model(lines@[j]@), decoded@[j]@));
    }
    decoded
}

/// Puts the bytes of both streams of a command into lines.
pub struct LineBuffer {
    line: Vec<Piece>,
    out: Vec<u8>,
    err: Vec<u8>,
}

impl LineBuffer {
    /// What has arrived and is not part of a complete line.
    pub closed spec fn pending(&self) -> Pending {
        Pending { line: line_model(self.line@), out: self.out@, err: self.err@ }
    }

    /// Nothing has arrived yet.
    pub fn new() -> (buffer: Self)
        ensures
            buffer.pending() == Pending::none(),
    {
        let buffer = LineBuffer { line: Vec::new(), out: Vec::new(), err: Vec::new() };
        assert(buffer.pending().line == Seq::<PieceModel>::empty());
        assert(buffer.pending().out == Seq::<u8>::empty());
        assert(buffer.pending().err == Seq::<u8>::empty());
        buffer
    }

    /// Takes out the bytes of the unfinished character of a stream.
    fn take_held(&mut self, stderr: bool) -> (held: Vec<u8>)
        ensures
            held@ == old(self).pending().held(stderr),
            final(self).pending() == old(self).pending().holding(stderr, Seq::empty()),
    {
        let mut held: Vec<u8> = Vec::new();
        if stderr {
            std::mem::swap(&mut held, &mut self.err);
        } else {
            std::mem::swap(&mut held, &mut self.out);
        }
        assert(self.pending() == old(self).pending().holding(stderr, Seq::empty()));
        held
    }

    /// Holds back the bytes of an unfinished character of a stream.
    fn hold(&mut self, stderr: bool, bytes: Vec<u8>)
        ensures
            final(self).pending() == old(self).pending().holding(stderr, bytes@),
    {
        if stderr {
            self.err = bytes;
        } else {
            self.out = bytes;
        }
    }

    /// Adds bytes of a stream to the line.
    fn show(&mut self, stderr: bool, bytes: Vec<u8>)
        ensures
            final(self).pending() == (Pending {
                line: extended(old(self).pending().line, stderr, bytes@),
                ..old(self).pending()
            }),
    {
        let ghost before = self.line@;
        let n: usize = self.line.len();
        if bytes.len() == 0 {
            return ;
        }
        if n > 0 && self.line[n - 1].stderr == stderr {
            let mut bytes = bytes;
            let ghost more = bytes@;
            let last = self.line.pop();
            if let Some(last) = last {
                let mut last = last;
                last.bytes.append(&mut bytes);
                self.line.push(last);
                assert(line_model(self.line@) =~= line_model(before).drop_last().push(
                    PieceModel { stderr, bytes: line_model(before).last().bytes + more },
                ));
            }
        } else {
            self.line.push(Piece { stderr, bytes });
            assert(line_model(self.line@) =~= line_model(before).push(
                PieceModel { stderr, bytes: bytes@ },
            ));
        }
    }

    /// Takes in one byte of a stream and returns the line that it completes.
    fn push_byte(&mut self, stderr: bool, byte: u8) -> (line: Option<Vec<Piece>>)
        ensures
            final(self).pending() == step(old(self).pending(), stderr, byte).1,
            match line {
                Some(line) => step(old(self).pending(), stderr, byte).0 == Some(
                    line_model(line@),
                ),
                None => step(old(self).pending(), stderr, byte).0 is None,
            },
    {
        let ghost at = self.pending();
        let mut held = self.take_held(stderr);
        let ghost before = held@;
        held.push(byte);
        if is_unfinished(&held) {
            self.hold(stderr, held);
            return None;
        }
        if 0x80 <= byte && byte <= 0xbf {
            self.show(stderr, held);
            return None;
        }
        held.pop();
        assert(held@ == before);
        self.show(stderr, held);
        assert(self.pending() == at.showing(stderr, before));
        let mut single: Vec<u8> = Vec::new();
        single.push(byte);
        assert(single@ == seq![byte]);
        if is_unfinished(&single) {
            self.hold(stderr, single);
            None
        } else if byte == LINE_FEED {
            let mut line: Vec<Piece> = Vec::new();
            std::mem::swap(&mut line, &mut self.line);
            assert(self.pending().line == Seq::<PieceModel>::empty());
            Some(line)
        } else {
            self.show(stderr, single);
            None
        }
    }

    /// Takes in bytes of a stream and returns the lines that they complete.
    pub fn push_bytes(&mut self, stderr: bool, bytes: &[u8]) -> (lines: Vec<Vec<Piece>>)
        ensures
            line_models(lines@) == fed(old(self).pending(), from_one(stderr, bytes@)).0,
            final(self).pending() == fed(old(self).pending(), from_one(stderr, bytes@)).1,
    {
        let ghost at = self.pending();
        let ghost all = from_one(stderr, bytes@);
        let mut lines: Vec<Vec<Piece>> = Vec::new();
        let mut i: usize = 0;
        assert(all.take(0) == Seq::<(bool, u8)>::empty());
        assert(line_models(lines@) == Seq::<Seq<PieceModel>>::empty());
        while i < bytes.len()
            invariant
                i <= bytes@.len(),
                all == from_one(stderr, bytes@),
                line_models(lines@) == fed(at, all.take(i as int)).0,
                self.pending() == fed(at, all.take(i as int)).1,
            decreases bytes@.len() - i,
        {
            assert(all.take(i + 1).drop_last() == all.take(i as int));
            assert(all.take(i + 1).last() == (stderr, bytes@[i as int]));
            let ghost earlier = lines@;
            match self.push_byte(stderr, bytes[i]) {
                Some(line) => {
                    lines.push(line);
                    assert(line_models(lines@) =~= line_models(earlier).push(line_model(line@)));
                },
                None => {},
            }
            i += 1;
        }
        assert(all.take(i as int) == all);
        lines
    }

    /// Ends the output: the line that was not ended by a line feed. It has no
    /// pieces where there is none.
    pub fn finish(self) -> (line: Vec<Piece>)
        ensures
            line_model(line@) == self.pending().last_line(),
    {
        let mut buffer = self;
        let ghost at = buffer.pending();
        let out = buffer.take_held(false);
        buffer.show(false, out);
        let err = buffer.take_held(true);
        buffer.show(true, err);
        assert(buffer.pending().line == at.last_line());
        buffer.line
    }
}

/// Feeding bytes in two parts is feeding them at once.
pub proof fn fed_in_parts(at: Pending, first: Seq<(bool, u8)>, second: Seq<(bool, u8)>)
    ensures
        fed(at, first + second).0 == fed(at, first).0 + fed(fed(at, first).1, second).0,
        fed(at, first + second).1 == fed(fed(at, first).1, second).1,
    decreases second.len(),
{
    if second.len() == 0 {
        assert(first + second == first);
    } else {
        fed_in_parts(at, first, second.drop_last());
        assert((first + second).drop_last() == first + second.drop_last());
    }
}

/// Output cut at its line feeds: the complete lines, without their line feeds,
/// and what follows the last line feed.
pub open spec fn cut(bytes: Seq<u8>) -> (Seq<Seq<u8>>, Seq<u8>)
    decreases bytes.len(),
{
    if bytes.len() == 0 {
        (Seq::empty(), Seq::empty())
    } else {
        let (lines, rest) = cut(bytes.drop_last());
        if bytes.last() == LINE_FEED {
            (lines.push(rest), Seq::empty())
        } else {
            (lines, rest.push(bytes.last()))
        }
    }
}

/// Lines written one below the other, each ended by a line feed.
pub open spec fn written(lines: Seq<Seq<u8>>) -> Seq<u8>
    decreases lines.len(),
{
    if lines.len() == 0 {
        Seq::empty()
    } else {
        written(lines.drop_last()) + lines.last().push(LINE_FEED)
    }
}

/// Whether bytes are free of line feeds.
pub open spec fn one_line(bytes: Seq<u8>) -> bool {
    forall|i: int| 0 <= i < bytes.len() ==> bytes[i] != LINE_FEED
}

/// Cutting loses nothing: the complete lines, written out, followed by the
/// rest are the output. No line and no rest holds a line feed.
pub proof fn cut_reassembles(bytes: Seq<u8>)
    ensures
        written(cut(bytes).0) + cut(bytes).1 == bytes,
        forall|i: int| 0 <= i < cut(bytes).0.len() ==> one_line(#[trigger] cut(bytes).0[i]),
        one_line(cut(bytes).1),
    decreases bytes.len(),
{
    if bytes.len() > 0 {
        cut_reassembles(bytes.drop_last());
        let (lines, rest) = cut(bytes.drop_last());
        assert(bytes == bytes.drop_last().push(bytes.last()));
        if bytes.last() == LINE_FEED {
            assert(lines.push(rest).drop_last() == lines);
        }
        assert(written(cut(bytes).0) + cut(bytes).1 == bytes);
    }
}

/// The lines that were handed on once the output has ended, before they are
/// decoded.
pub open spec fn handed_on(bytes: Seq<u8>) -> Seq<Seq<u8>> {
    let (lines, rest) = cut(bytes);
    if rest.len() == 0 {
        lines
    } else {
        lines.push(rest)
    }
}

/// The lines that were handed on are complete: written out they are the output,
/// with a line feed at its end where non-empty output lacks one.
pub proof fn handed_on_is_complete(bytes: Seq<u8>)
    ensures
        written(handed_on(bytes)) == if bytes.len() == 0 || bytes.last() == LINE_FEED {
            bytes
        } else {
            bytes.push(LINE_FEED)
        },
{
    cut_reassembles(bytes);
    let (lines, rest) = cut(bytes);
    if rest.len() == 0 {
        assert(written(lines) == bytes);
        if bytes.len() > 0 {
            assert(bytes.last() == LINE_FEED);
        }
    } else {
        assert(lines.push(rest).drop_last() == lines);
        assert(bytes.last() == rest.last());
    }
}

/// The texts that UTF-8 lines encode.
pub open spec fn line_texts(lines: Seq<Seq<u8>>) -> Seq<Seq<char>> {
    lines.map_values(|line: Seq<u8>| decode_utf8(line))
}

/// What has been captured of some lines, each ended by a line feed.
pub open spec fn captured(lines: Seq<Seq<char>>) -> Seq<char>
    decreases lines.len(),
{
    if lines.len() == 0 {
        Seq::empty()
    } else {
        captured(lines.drop_last()) + lines.last() + "\n"@
    }
}

/// A line feed before UTF-8 is decoded by itself.
proof fn line_feed_is_decoded(rest: Seq<u8>)
    requires
        valid_utf8(seq![LINE_FEED] + rest),
    ensures
        valid_utf8(rest),
        decode_utf8(seq![LINE_FEED] + rest) == seq!['\n'] + decode_utf8(
            rest,
        ),
{
    let bytes = seq![LINE_FEED] + rest;
    assert(bytes[0] == 10u8);
    assert(10u8 & 0x7fu8 == 10u8) by (bit_vector);
    assert(vstd::utf8::pop_first_scalar(bytes) == rest);
    assert(vstd::utf8::decode_first_scalar(bytes) == 10u32);
}

/// UTF-8 that is cut at line feeds is UTF-8 on both sides of each, and decodes to
/// its decoded lines.
proof fn lines_are_decoded(lines: Seq<Seq<u8>>, rest: Seq<u8>)
    requires
        valid_utf8(written(lines) + rest),
    ensures
        forall|i: int| 0 <= i < lines.len() ==> valid_utf8(#[trigger] lines[i]),
        valid_utf8(rest),
        decode_utf8(written(lines) + rest) == captured(line_texts(lines))
            + decode_utf8(rest),
    decreases lines.len(),
{
    if lines.len() == 0 {
        assert(written(lines) + rest == rest);
        assert(captured(line_texts(lines)) == Seq::<char>::empty());
    } else {
        reveal_strlit("\n");
        let head = lines.drop_last();
        let line = lines.last();
        let ended = seq![LINE_FEED] + rest;
        let more = line + ended;
        assert(written(lines) + rest == written(head) + more);
        lines_are_decoded(head, more);
        let n = line.len() as int;
        assert(more[n] == LINE_FEED);
        assert(!is_continuation_byte(more[n]));
        vstd::utf8::is_char_boundary_iff_not_is_continuation_byte(more, n);
        vstd::utf8::valid_utf8_split(more, n);
        vstd::utf8::decode_utf8_split(more, n);
        assert(more.subrange(0, n) == line);
        assert(more.subrange(n, more.len() as int) == ended);
        line_feed_is_decoded(rest);
        assert forall|i: int| 0 <= i < lines.len() implies valid_utf8(
            #[trigger] lines[i],
        ) by {
            if i < head.len() {
                assert(lines[i] == head[i]);
            }
        }
        assert(line_texts(lines).drop_last() == line_texts(head));
        assert(line_texts(lines).last() == decode_utf8(line));
    }
}

/// Text is captured whole: where output is UTF-8, so is each line that is handed
/// on, and what is captured of the decoded lines is the text of the output, with
/// a line feed at its end where a non-empty text lacks one.
pub proof fn captured_text_is_complete(bytes: Seq<u8>)
    requires
        valid_utf8(bytes),
    ensures
        forall|i: int|
            0 <= i < handed_on(bytes).len() ==> valid_utf8(
                #[trigger] handed_on(bytes)[i],
            ),
        captured(line_texts(handed_on(bytes))) == if bytes.len() == 0 || bytes.last()
            == LINE_FEED {
            decode_utf8(bytes)
        } else {
            decode_utf8(bytes) + "\n"@
        },
{
    handed_on_is_complete(bytes);
    cut_reassembles(bytes);
    let (lines, rest) = cut(bytes);
    let all = handed_on(bytes);
    lines_are_decoded(lines, rest);
    if rest.len() == 0 {
        if bytes.len() > 0 {
            assert(written(lines) == bytes);
            assert(bytes.last() == LINE_FEED);
        }
        assert(captured(line_texts(all)) == decode_utf8(bytes));
    } else {
        assert(bytes.last() == rest.last());
        assert(line_texts(all).drop_last() == line_texts(lines));
        assert(line_texts(all).last() == decode_utf8(rest));
    }
}

/// A line that holds bytes of one stream alone.
pub open spec fn whole(stderr: bool, bytes: Seq<u8>) -> Seq<PieceModel> {
    extended(Seq::empty(), stderr, bytes)
}

/// Lines that hold bytes of one stream alone.
pub open spec fn wholes(stderr: bool, lines: Seq<Seq<u8>>) -> Seq<Seq<PieceModel>> {
    lines.map_values(|line: Seq<u8>| whole(stderr, line))
}

/// A line of one stream that is extended is a line of that stream.
proof fn whole_extended(stderr: bool, bytes: Seq<u8>, more: Seq<u8>)
    ensures
        extended(whole(stderr, bytes), stderr, more) == whole(stderr, bytes + more),
{
    assert(bytes + more == bytes || more.len() > 0);
    if bytes.len() == 0 {
        assert(bytes + more == more);
    } else if more.len() > 0 {
        assert(whole(stderr, bytes).drop_last() == Seq::<PieceModel>::empty());
    }
}

/// Where all bytes are from one stream, what is in the line and what is held back
/// is what follows the last line feed.
proof fn one_stream_state(stderr: bool, bytes: Seq<u8>) -> (now: Seq<u8>)
    ensures
        ({
            let (lines, then) = fed(Pending::none(), from_one(stderr, bytes));
            &&& lines == wholes(stderr, cut(bytes).0)
            &&& then.line == whole(stderr, now)
            &&& now + then.held(stderr) == cut(bytes).1
            &&& then.held(!stderr).len() == 0
        }),
    decreases bytes.len(),
{
    let all = from_one(stderr, bytes);
    if bytes.len() == 0 {
        Seq::empty()
    } else {
        let head = bytes.drop_last();
        let byte = bytes.last();
        let earlier = one_stream_state(stderr, head);
        assert(all.drop_last() == from_one(stderr, head));
        assert(all.last() == (stderr, byte));
        let (lines, at) = fed(Pending::none(), from_one(stderr, head));
        let held = at.held(stderr);
        let rest = cut(head).1;
        whole_extended(stderr, earlier, held);
        whole_extended(stderr, earlier, held.push(byte));
        whole_extended(stderr, rest, seq![byte]);
        assert(earlier + held.push(byte) == rest.push(byte));
        assert(rest + seq![byte] == rest.push(byte));
        if unfinished(held.push(byte)) {
            assert(byte != LINE_FEED) by {
                if held.len() > 0 {
                    assert(is_continuation_byte(held.push(byte)[held.len() as int]));
                }
            }
            earlier
        } else if is_continuation_byte(byte) {
            assert(rest.push(byte) + Seq::<u8>::empty() == rest.push(byte));
            rest.push(byte)
        } else if unfinished(seq![byte]) {
            rest
        } else if byte == LINE_FEED {
            assert(wholes(stderr, cut(head).0.push(rest)) =~= wholes(stderr, cut(head).0).push(
                whole(stderr, rest),
            ));
            Seq::empty()
        } else {
            assert(rest.push(byte) + Seq::<u8>::empty() == rest.push(byte));
            rest.push(byte)
        }
    }
}

/// The output of a command that writes to one stream is cut at its line feeds,
/// whatever bytes it consists of.
pub proof fn one_stream_is_cut(stderr: bool, bytes: Seq<u8>)
    ensures
        output_lines(from_one(stderr, bytes)) == wholes(stderr, handed_on(bytes)),
{
    let now = one_stream_state(stderr, bytes);
    let (lines, then) = fed(Pending::none(), from_one(stderr, bytes));
    let rest = cut(bytes).1;
    whole_extended(stderr, now, then.held(stderr));
    assert(then.last_line() == whole(stderr, rest));
    if rest.len() > 0 {
        assert(wholes(stderr, cut(bytes).0.push(rest)) =~= wholes(stderr, cut(bytes).0).push(
            whole(stderr, rest),
        ));
    }
}

/// The bytes of a stream among the bytes of both, without line feeds.
pub open spec fn line_bytes_of(bytes: Seq<(bool, u8)>, stderr: bool) -> Seq<u8>
    decreases bytes.len(),
{
    if bytes.len() == 0 {
        Seq::empty()
    } else {
        let earlier = line_bytes_of(bytes.drop_last(), stderr);
        if bytes.last().0 == stderr && bytes.last().1 != LINE_FEED {
            earlier.push(bytes.last().1)
        } else {
            earlier
        }
    }
}

/// The bytes of a stream in a line.
pub open spec fn in_line(line: Seq<PieceModel>, stderr: bool) -> Seq<u8>
    decreases line.len(),
{
    if line.len() == 0 {
        Seq::empty()
    } else {
        in_line(line.drop_last(), stderr) + if line.last().stderr == stderr {
            line.last().bytes
        } else {
            Seq::empty()
        }
    }
}

/// The bytes of a stream in a list of lines.
pub open spec fn in_lines(lines: Seq<Seq<PieceModel>>, stderr: bool) -> Seq<u8>
    decreases lines.len(),
{
    if lines.len() == 0 {
        Seq::empty()
    } else {
        in_lines(lines.drop_last(), stderr) + in_line(lines.last(), stderr)
    }
}

/// Extending a line adds the bytes to those of their stream.
proof fn extended_adds(line: Seq<PieceModel>, from: bool, bytes: Seq<u8>, stderr: bool)
    ensures
        in_line(extended(line, from, bytes), stderr) == in_line(line, stderr) + if from == stderr {
            bytes
        } else {
            Seq::empty()
        },
{
    let longer = extended(line, from, bytes);
    if bytes.len() == 0 {
        assert(in_line(line, stderr) + bytes == in_line(line, stderr));
    } else if line.len() > 0 && line.last().stderr == from {
        assert(longer.drop_last() == line.drop_last());
    } else {
        assert(longer.drop_last() == line);
    }
    assert(in_line(longer, stderr) =~= in_line(line, stderr) + if from == stderr {
        bytes
    } else {
        Seq::empty()
    });
}

/// What one more byte does to the bytes of a stream.
proof fn step_adds(at: Pending, from: bool, byte: u8, stderr: bool)
    ensures
        ({
            let (line, then) = step(at, from, byte);
            let ended = match line {
                Some(line) => in_line(line, stderr),
                None => Seq::empty(),
            };
            ended + in_line(then.line, stderr) + then.held(stderr) == in_line(at.line, stderr)
                + at.held(stderr) + if from == stderr && byte != LINE_FEED {
                seq![byte]
            } else {
                Seq::empty()
            }
        }),
{
    let held = at.held(from);
    let (line, then) = step(at, from, byte);
    let before = in_line(at.line, stderr);
    extended_adds(at.line, from, held, stderr);
    extended_adds(at.line, from, held.push(byte), stderr);
    extended_adds(extended(at.line, from, held), from, seq![byte], stderr);
    if unfinished(held.push(byte)) {
        assert(byte != LINE_FEED) by {
            if held.len() > 0 {
                assert(is_continuation_byte(held.push(byte)[held.len() as int]));
            }
        }
    }
    let ended = match line {
        Some(line) => in_line(line, stderr),
        None => Seq::empty(),
    };
    let more = if from == stderr && byte != LINE_FEED {
        seq![byte]
    } else {
        Seq::empty()
    };
    assert(ended + in_line(then.line, stderr) + then.held(stderr) =~= before + at.held(stderr)
        + more);
}

/// Concatenation can be grouped in any way.
proof fn regrouped(
    start: Seq<u8>,
    end: Seq<u8>,
    parts: (Seq<u8>, Seq<u8>, Seq<u8>),
    others: (Seq<u8>, Seq<u8>, Seq<u8>),
)
    requires
        end == parts.0 + parts.1 + parts.2,
        end == others.0 + others.1 + others.2,
    ensures
        start + parts.0 + parts.1 + parts.2 == start + others.0 + others.1 + others.2,
{
    assert(start + parts.0 + parts.1 + parts.2 == start + end);
    assert(start + others.0 + others.1 + others.2 == start + end);
}

/// The bytes of a stream are in the lines, in the line that has begun, or held
/// back.
proof fn fed_keeps(bytes: Seq<(bool, u8)>, stderr: bool)
    ensures
        ({
            let (lines, then) = fed(Pending::none(), bytes);
            in_lines(lines, stderr) + in_line(then.line, stderr) + then.held(stderr)
                == line_bytes_of(bytes, stderr)
        }),
    decreases bytes.len(),
{
    if bytes.len() > 0 {
        let head = bytes.drop_last();
        fed_keeps(head, stderr);
        let (lines, at) = fed(Pending::none(), head);
        step_adds(at, bytes.last().0, bytes.last().1, stderr);
        let (all, then) = fed(Pending::none(), bytes);
        let earlier = in_lines(lines, stderr);
        let ended = match step(at, bytes.last().0, bytes.last().1).0 {
            Some(line) => in_line(line, stderr),
            None => Seq::empty(),
        };
        let more = if bytes.last().0 == stderr && bytes.last().1 != LINE_FEED {
            seq![bytes.last().1]
        } else {
            Seq::empty()
        };
        assert(in_lines(all, stderr) == earlier + ended) by {
            if step(at, bytes.last().0, bytes.last().1).0 is Some {
                assert(all.drop_last() == lines);
            }
        }
        regrouped(
            earlier,
            ended + in_line(then.line, stderr) + then.held(stderr),
            (ended, in_line(then.line, stderr), then.held(stderr)),
            (in_line(at.line, stderr), at.held(stderr), more),
        );
        assert(line_bytes_of(bytes, stderr) == line_bytes_of(head, stderr) + more);
    }
}

/// Nothing is lost of either stream, and nothing changes its order there: the
/// lines of the output hold exactly the bytes that the stream brought, apart from
/// its line feeds.
pub proof fn lines_hold_every_byte(bytes: Seq<(bool, u8)>, stderr: bool)
    ensures
        in_lines(output_lines(bytes), stderr) == line_bytes_of(bytes, stderr),
{
    fed_keeps(bytes, stderr);
    let (lines, then) = fed(Pending::none(), bytes);
    let last = then.last_line();
    extended_adds(then.line, false, then.out, stderr);
    extended_adds(extended(then.line, false, then.out), true, then.err, stderr);
    if last.len() > 0 {
        assert(lines.push(last).drop_last() == lines);
    }
    assert(in_lines(output_lines(bytes), stderr) =~= line_bytes_of(bytes, stderr));
}

/// All bytes of a stream among the bytes of both.
pub open spec fn bytes_of(bytes: Seq<(bool, u8)>, stderr: bool) -> Seq<u8>
    decreases bytes.len(),
{
    if bytes.len() == 0 {
        Seq::empty()
    } else {
        let later = bytes_of(bytes.drop_first(), stderr);
        if bytes[0].0 == stderr {
            seq![bytes[0].1] + later
        } else {
            later
        }
    }
}

/// Whether the pieces of a stream in a line are UTF-8.
pub open spec fn pieces_are_utf8(line: Seq<PieceModel>, stderr: bool) -> bool {
    forall|i: int|
        0 <= i < line.len() && (#[trigger] line[i]).stderr == stderr ==> valid_utf8(line[i].bytes)
}

/// An unfinished character is not UTF-8 by itself.
proof fn unfinished_is_not_utf8(bytes: Seq<u8>)
    requires
        unfinished(bytes),
    ensures
        !valid_utf8(bytes),
{
}

/// In UTF-8 a byte that does not leave its character unfinished ends it.
proof fn byte_ends_character(held: Seq<u8>, byte: u8, later: Seq<u8>)
    requires
        held.len() == 0 || unfinished(held),
        valid_utf8(held + (seq![byte] + later)),
        !unfinished(held.push(byte)),
    ensures
        valid_utf8(held.push(byte)),
        valid_utf8(later),
        is_continuation_byte(byte) <==> held.len() > 0,
{
    reveal_with_fuel(valid_utf8, 2);
    let all = held + (seq![byte] + later);
    let n = held.len() as int;
    assert(all[n] == byte);
    assert(all[0] == held.push(byte)[0]);
    if n > 0 {
        assert(is_continuation_byte(byte)) by {
            assert(n < char_width(all[0]));
            assert(is_continuation_byte(all[n]));
        }
        if n + 1 < char_width(all[0]) {
            assert forall|i: int| 1 <= i < n + 1 implies is_continuation_byte(
                #[trigger] held.push(byte)[i],
            ) by {
                if i < n {
                    assert(held.push(byte)[i] == held[i]);
                }
            }
            assert(unfinished(held.push(byte)));
        }
    }
    assert(vstd::utf8::length_of_first_scalar(all) == n + 1);
    assert(vstd::utf8::pop_first_scalar(all) == later);
    assert(held.push(byte) == all.take(n + 1));
    assert(vstd::utf8::pop_first_scalar(held.push(byte)) == Seq::<u8>::empty());
    assert(vstd::utf8::valid_first_scalar(held.push(byte)));
}

/// Extending a line by UTF-8 keeps the pieces of a stream UTF-8.
proof fn extended_is_utf8(line: Seq<PieceModel>, from: bool, bytes: Seq<u8>, stderr: bool)
    requires
        pieces_are_utf8(line, stderr),
        from == stderr ==> valid_utf8(bytes),
    ensures
        pieces_are_utf8(extended(line, from, bytes), stderr),
{
    let longer = extended(line, from, bytes);
    if bytes.len() > 0 && line.len() > 0 && line.last().stderr == from && from == stderr {
        let last = line[line.len() - 1];
        vstd::utf8::valid_utf8_concat(last.bytes, bytes);
    }
    assert forall|i: int|
        0 <= i < longer.len() && (#[trigger] longer[i]).stderr == stderr implies valid_utf8(
        longer[i].bytes,
    ) by {
        if i < line.len() && longer[i] == line[i] {
            assert(line[i].stderr == stderr);
        }
    }
}

/// Where a stream brings UTF-8, its pieces stay UTF-8 byte by byte.
proof fn fed_is_utf8(at: Pending, bytes: Seq<(bool, u8)>, stderr: bool)
    requires
        pieces_are_utf8(at.line, stderr),
        at.held(stderr).len() == 0 || unfinished(at.held(stderr)),
        valid_utf8(at.held(stderr) + bytes_of(bytes, stderr)),
    ensures
        ({
            let (lines, then) = fed(at, bytes);
            &&& forall|i: int| 0 <= i < lines.len() ==> pieces_are_utf8(#[trigger] lines[i], stderr)
            &&& pieces_are_utf8(then.line, stderr)
            &&& then.held(stderr).len() == 0
        }),
    decreases bytes.len(),
{
    if bytes.len() == 0 {
        let held = at.held(stderr);
        assert(held + bytes_of(bytes, stderr) == held);
        if held.len() > 0 {
            unfinished_is_not_utf8(held);
        }
    } else {
        let (from, byte) = bytes[0];
        let first = seq![bytes[0]];
        let rest = bytes.drop_first();
        let later = bytes_of(rest, stderr);
        let held = at.held(from);
        let (line, then) = step(at, from, byte);
        assert(bytes == first + rest);
        fed_in_parts(at, first, rest);
        assert(first.drop_last() == Seq::<(bool, u8)>::empty());
        assert(fed(at, first.drop_last()) == (Seq::<Seq<PieceModel>>::empty(), at));
        assert(fed(at, first).1 == then);
        if from == stderr {
            assert(held + (seq![byte] + later) == held.push(byte) + later);
            if !unfinished(held.push(byte)) {
                byte_ends_character(held, byte, later);
                assert(Seq::<u8>::empty() + later == later);
                if !is_continuation_byte(byte) {
                    assert(held.push(byte) == seq![byte]);
                }
            }
        }
        assert(from == stderr ==> valid_utf8(Seq::<u8>::empty()));
        if from != stderr || !unfinished(held.push(byte)) {
            extended_is_utf8(at.line, from, held.push(byte), stderr);
            if from != stderr || held.len() == 0 {
                extended_is_utf8(at.line, from, held, stderr);
                extended_is_utf8(extended(at.line, from, held), from, seq![byte], stderr);
            }
        }
        fed_is_utf8(then, rest, stderr);
        let (more, end) = fed(then, rest);
        let lines = fed(at, bytes).0;
        assert forall|i: int| 0 <= i < lines.len() implies pieces_are_utf8(
            #[trigger] lines[i],
            stderr,
        ) by {
            let n = fed(at, first).0.len() as int;
            if i >= n {
                assert(lines[i] == more[i - n]);
            } else {
                assert(lines[i] == fed(at, first).0[i]);
            }
        }
    }
}

/// Characters are not torn apart: where a stream brings UTF-8, every piece of it
/// in the lines of the output is UTF-8, however its bytes and those of the other
/// stream come one among the other.
pub proof fn characters_stay_whole(bytes: Seq<(bool, u8)>, stderr: bool)
    requires
        valid_utf8(bytes_of(bytes, stderr)),
    ensures
        forall|i: int|
            0 <= i < output_lines(bytes).len() ==> pieces_are_utf8(
                #[trigger] output_lines(bytes)[i],
                stderr,
            ),
{
    let none = Pending::none();
    assert(none.held(stderr) + bytes_of(bytes, stderr) == bytes_of(bytes, stderr));
    fed_is_utf8(none, bytes, stderr);
    let (lines, then) = fed(none, bytes);
    extended_is_utf8(then.line, false, then.out, stderr);
    extended_is_utf8(extended(then.line, false, then.out), true, then.err, stderr);
}

/// Pieces and lines have their models one by one, and bytes of one stream are all of
/// these bytes.
pub proof fn models_leave_nothing_out(
    line: Seq<Piece>,
    lines: Seq<Vec<Piece>>,
    stderr: bool,
    bytes: Seq<u8>,
)
    ensures
        line_model(line).len() == line.len(),
        forall|i: int|
            0 <= i < line.len() ==> (#[trigger] line_model(line)[i]).stderr == line[i].stderr
                && line_model(line)[i].bytes == line[i].bytes@,
        line_models(lines).len() == lines.len(),
        forall|i: int|
            0 <= i < lines.len() ==> #[trigger] line_models(lines)[i] == line_model(lines[i]@),
        from_one(stderr, bytes).len() == bytes.len(),
        forall|i: int|
            0 <= i < bytes.len() ==> #[trigger] from_one(stderr, bytes)[i] == (stderr, bytes[i]),
{
}

/// The text of a line goes piece by piece: what each decodes to, in order. Texts of
/// lines are that of each line.
pub proof fn decoding_goes_by_piece(
    line: Seq<PieceModel>,
    piece: PieceModel,
    lines: Seq<Seq<PieceModel>>,
    decoded: Seq<Seq<char>>,
    i: int,
)
    ensures
        line_text(Seq::empty()) == Seq::<char>::empty(),
        line_text(line.push(piece)) == line_text(line) + utf8_lossy(piece.bytes),
        encoded_text(Seq::empty()) == Seq::<char>::empty(),
        encoded_text(line.push(piece)) == encoded_text(line) + decode_utf8(piece.bytes),
        all_decode(lines, decoded) ==> decoded.len() == lines.len(),
        all_decode(lines, decoded) && 0 <= i < lines.len() ==> {
            &&& decoded[i] == line_text(lines[i])
            &&& (forall|j: int| 0 <= j < lines[i].len() ==> valid_utf8(lines[i][j].bytes))
                ==> decoded[i] == encoded_text(lines[i])
        },
{
    assert(line.push(piece).drop_last() == line);
    if all_decode(lines, decoded) && 0 <= i < lines.len() {
        assert(decodes(lines[i], decoded[i]));
    }
}

/// The bytes of a line in the order in which they joined it, each with the stream
/// that it is from.
pub open spec fn arrived(line: Seq<PieceModel>) -> Seq<(bool, u8)>
    decreases line.len(),
{
    if line.len() == 0 {
        Seq::empty()
    } else {
        arrived(line.drop_last()) + Seq::new(
            line.last().bytes.len(),
            |i: int| (line.last().stderr, line.last().bytes[i]),
        )
    }
}

/// Extending a line adds the bytes at its end.
proof fn extended_arrives(line: Seq<PieceModel>, stderr: bool, bytes: Seq<u8>)
    ensures
        arrived(extended(line, stderr, bytes)) == arrived(line) + Seq::new(
            bytes.len(),
            |i: int| (stderr, bytes[i]),
        ),
{
    let longer = extended(line, stderr, bytes);
    let more = Seq::new(bytes.len(), |i: int| (stderr, bytes[i]));
    if bytes.len() == 0 {
        assert(arrived(line) + more == arrived(line));
    } else if line.len() > 0 && line.last().stderr == stderr {
        assert(longer.drop_last() == line.drop_last());
        assert(arrived(longer) =~= arrived(line) + more);
    } else {
        assert(longer.drop_last() == line);
        assert(arrived(longer) =~= arrived(line) + more);
    }
}

/// A line that is extended twice is extended by both.
proof fn extended_twice(line: Seq<PieceModel>, stderr: bool, first: Seq<u8>, second: Seq<u8>)
    ensures
        extended(extended(line, stderr, first), stderr, second) == extended(
            line,
            stderr,
            first + second,
        ),
{
    if second.len() == 0 {
        assert(first + second == first);
    } else if first.len() == 0 {
        assert(first + second == second);
    } else {
        let once = extended(line, stderr, first);
        if line.len() > 0 && line.last().stderr == stderr {
            assert(once.drop_last() == line.drop_last());
            assert(line.last().bytes + first + second == line.last().bytes + (first + second));
        } else {
            assert(once.drop_last() == line);
        }
    }
}

/// Bytes of one stream that hold no line feed join the line, but for those of a
/// character that they leave unfinished.
proof fn burst_joins(at: Pending, stderr: bool, bytes: Seq<u8>) -> (shown: Seq<u8>)
    requires
        at.held(stderr).len() == 0,
        one_line(bytes),
    ensures
        ({
            let (lines, then) = fed(at, from_one(stderr, bytes));
            &&& lines.len() == 0
            &&& shown + then.held(stderr) == bytes
            &&& then.line == extended(at.line, stderr, shown)
            &&& then.held(!stderr) == at.held(!stderr)
        }),
    decreases bytes.len(),
{
    let all = from_one(stderr, bytes);
    if bytes.len() == 0 {
        Seq::empty()
    } else {
        let head = bytes.drop_last();
        let byte = bytes.last();
        assert(bytes[bytes.len() - 1] != LINE_FEED);
        assert forall|i: int| 0 <= i < head.len() implies head[i] != LINE_FEED by {
            assert(head[i] == bytes[i]);
        }
        let earlier = burst_joins(at, stderr, head);
        assert(all.drop_last() == from_one(stderr, head));
        assert(all.last() == (stderr, byte));
        let now = fed(at, from_one(stderr, head)).1;
        let held = now.held(stderr);
        extended_twice(at.line, stderr, earlier, held);
        extended_twice(at.line, stderr, earlier, held.push(byte));
        extended_twice(at.line, stderr, head, seq![byte]);
        assert(head + seq![byte] == bytes);
        assert(earlier + held.push(byte) == (earlier + held).push(byte));
        assert(head.push(byte) == bytes);
        let none = Seq::<u8>::empty();
        assert(bytes + none == bytes);
        if unfinished(held.push(byte)) {
            earlier
        } else if is_continuation_byte(byte) {
            bytes
        } else if unfinished(seq![byte]) {
            head
        } else {
            bytes
        }
    }
}

/// Feeding UTF-8 of one stream leaves no character unfinished.
proof fn burst_finishes(at: Pending, stderr: bool, bytes: Seq<u8>)
    requires
        at.held(stderr).len() == 0,
        valid_utf8(bytes),
    ensures
        fed(at, from_one(stderr, bytes)).1.held(stderr).len() == 0,
{
    let all = from_one(stderr, bytes);
    let clear = Pending { line: Seq::empty(), ..at };
    bytes_of_one(stderr, bytes);
    assert(clear.held(stderr) + bytes == bytes);
    fed_is_utf8(clear, all, stderr);
    held_needs_no_line(at, clear, all, stderr);
}

/// All bytes of one stream are those of this stream.
proof fn bytes_of_one(stderr: bool, bytes: Seq<u8>)
    ensures
        bytes_of(from_one(stderr, bytes), stderr) == bytes,
    decreases bytes.len(),
{
    if bytes.len() > 0 {
        bytes_of_one(stderr, bytes.drop_first());
        assert(from_one(stderr, bytes).drop_first() == from_one(stderr, bytes.drop_first()));
        assert(bytes == seq![bytes[0]] + bytes.drop_first());
    }
}

/// What is held back does not depend on the line.
proof fn held_needs_no_line(a: Pending, b: Pending, bytes: Seq<(bool, u8)>, stderr: bool)
    requires
        a.out == b.out,
        a.err == b.err,
    ensures
        fed(a, bytes).1.out == fed(b, bytes).1.out,
        fed(a, bytes).1.err == fed(b, bytes).1.err,
    decreases bytes.len(),
{
    if bytes.len() > 0 {
        held_needs_no_line(a, b, bytes.drop_last(), stderr);
    }
}

/// Text joins the line as it arrives: where a stream has no character unfinished,
/// UTF-8 of it without line feeds is added behind what is in the line, whole and in
/// order, whichever stream that is from. No line is completed by it, and what is held
/// back of the other stream stays.
pub proof fn text_joins_as_it_arrives(at: Pending, stderr: bool, bytes: Seq<u8>)
    requires
        at.held(stderr).len() == 0,
        valid_utf8(bytes),
        forall|i: int| 0 <= i < bytes.len() ==> bytes[i] != 10u8,
    ensures
        ({
            let (lines, then) = fed(at, Seq::new(bytes.len(), |i: int| (stderr, bytes[i])));
            &&& lines.len() == 0
            &&& arrived(then.line) == arrived(at.line) + Seq::new(
                bytes.len(),
                |i: int| (stderr, bytes[i]),
            )
            &&& then.held(stderr).len() == 0
            &&& then.held(!stderr) == at.held(!stderr)
        }),
{
    assert(from_one(stderr, bytes) =~= Seq::new(bytes.len(), |i: int| (stderr, bytes[i])));
    let shown = burst_joins(at, stderr, bytes);
    burst_finishes(at, stderr, bytes);
    assert(shown == bytes);
    extended_arrives(at.line, stderr, bytes);
}

/// A line feed completes the line: where its stream has no character unfinished, the
/// line is what is in it, as it is, and the next line is empty.
pub proof fn line_feed_completes_the_line(at: Pending, stderr: bool)
    requires
        at.held(stderr).len() == 0,
    ensures
        fed(at, seq![(stderr, 10u8)]) == (
            seq![at.line],
            (Pending { line: Seq::empty(), out: at.out, err: at.err }),
        ),
{
    let one = seq![(stderr, 10u8)];
    assert(one.drop_last() == Seq::<(bool, u8)>::empty());
    assert(fed(at, one.drop_last()) == (Seq::<Seq<PieceModel>>::empty(), at));
    assert(at.held(stderr) == Seq::<u8>::empty());
    let then = fed(at, one).1;
    assert(then.out == at.out);
    assert(then.err == at.err);
    assert(fed(at, one).0 =~= seq![at.line]);
}

/// The bytes of a stream without line feeds are those that a filter finds.
proof fn line_bytes_filtered(bytes: Seq<(bool, u8)>, stderr: bool)
    ensures
        line_bytes_of(bytes, stderr) == bytes.filter(
            |b: (bool, u8)| b.0 == stderr && b.1 != 10u8,
        ).map_values(|b: (bool, u8)| b.1),
    decreases bytes.len(),
{
    reveal(Seq::filter);
    if bytes.len() > 0 {
        line_bytes_filtered(bytes.drop_last(), stderr);
    }
    assert(line_bytes_of(bytes, stderr) =~= bytes.filter(
        |b: (bool, u8)| b.0 == stderr && b.1 != 10u8,
    ).map_values(|b: (bool, u8)| b.1));
}

/// Every byte of either stream is in the lines of the output, in its order there,
/// apart from the line feeds: collected piece by piece and line by line, the bytes of
/// a stream are those that it brought.
pub proof fn output_is_received_whole(bytes: Seq<(bool, u8)>, stderr: bool)
    ensures
        output_lines(bytes).fold_left(
            Seq::<u8>::empty(),
            |all: Seq<u8>, line: Seq<PieceModel>|
                line.fold_left(
                    all,
                    |more: Seq<u8>, piece: PieceModel|
                        if piece.stderr == stderr {
                            more + piece.bytes
                        } else {
                            more
                        },
                ),
        ) == bytes.filter(|b: (bool, u8)| b.0 == stderr && b.1 != 10u8).map_values(
            |b: (bool, u8)| b.1,
        ),
{
    lines_hold_every_byte(bytes, stderr);
    line_bytes_filtered(bytes, stderr);
    lines_collected(output_lines(bytes), stderr);
}

/// The bytes of a stream in a line, collected behind others.
proof fn line_collected(line: Seq<PieceModel>, all: Seq<u8>, stderr: bool)
    ensures
        line.fold_left(
            all,
            |more: Seq<u8>, piece: PieceModel|
                if piece.stderr == stderr {
                    more + piece.bytes
                } else {
                    more
                },
        ) == all + in_line(line, stderr),
    decreases line.len(),
{
    if line.len() > 0 {
        line_collected(line.drop_last(), all, stderr);
        let head = in_line(line.drop_last(), stderr);
        assert(all + head + line.last().bytes =~= all + (head + line.last().bytes));
        assert(all + head =~= all + (head + Seq::<u8>::empty()));
    } else {
        assert(all + in_line(line, stderr) == all);
    }
}

/// The bytes of a stream in a list of lines, collected.
proof fn lines_collected(lines: Seq<Seq<PieceModel>>, stderr: bool)
    ensures
        lines.fold_left(
            Seq::<u8>::empty(),
            |all: Seq<u8>, line: Seq<PieceModel>|
                line.fold_left(
                    all,
                    |more: Seq<u8>, piece: PieceModel|
                        if piece.stderr == stderr {
                            more + piece.bytes
                        } else {
                            more
                        },
                ),
        ) == in_lines(lines, stderr),
    decreases lines.len(),
{
    if lines.len() > 0 {
        lines_collected(lines.drop_last(), stderr);
        line_collected(lines.last(), in_lines(lines.drop_last(), stderr), stderr);
    }
}

/// Bytes behind others are those of their stream.
proof fn bytes_of_push(bytes: Seq<(bool, u8)>, last: (bool, u8), stderr: bool)
    ensures
        bytes_of(bytes.push(last), stderr) == bytes_of(bytes, stderr) + if last.0 == stderr {
            seq![last.1]
        } else {
            Seq::empty()
        },
    decreases bytes.len(),
{
    reveal_with_fuel(bytes_of, 2);
    let longer = bytes.push(last);
    if bytes.len() == 0 {
        assert(longer.drop_first() == bytes);
        assert(bytes_of(longer, stderr) =~= bytes_of(bytes, stderr) + if last.0 == stderr {
            seq![last.1]
        } else {
            Seq::empty()
        });
    } else {
        bytes_of_push(bytes.drop_first(), last, stderr);
        assert(longer.drop_first() == bytes.drop_first().push(last));
        assert(bytes_of(longer, stderr) =~= bytes_of(bytes, stderr) + if last.0 == stderr {
            seq![last.1]
        } else {
            Seq::empty()
        });
    }
}

/// The bytes of a stream are those that a filter finds.
proof fn bytes_filtered(bytes: Seq<(bool, u8)>, stderr: bool)
    ensures
        bytes_of(bytes, stderr) == bytes.filter(|b: (bool, u8)| b.0 == stderr).map_values(
            |b: (bool, u8)| b.1,
        ),
    decreases bytes.len(),
{
    reveal(Seq::filter);
    if bytes.len() > 0 {
        bytes_filtered(bytes.drop_last(), stderr);
        bytes_of_push(bytes.drop_last(), bytes.last(), stderr);
        assert(bytes == bytes.drop_last().push(bytes.last()));
    }
    assert(bytes_of(bytes, stderr) =~= bytes.filter(|b: (bool, u8)| b.0 == stderr).map_values(
        |b: (bool, u8)| b.1,
    ));
}

/// Where what a stream brings is UTF-8, each piece of it in each line is UTF-8, so
/// that none of its characters is lost to the other stream.
pub proof fn no_character_is_lost(bytes: Seq<(bool, u8)>, stderr: bool, i: int, j: int)
    requires
        valid_utf8(
            bytes.filter(|b: (bool, u8)| b.0 == stderr).map_values(|b: (bool, u8)| b.1),
        ),
        0 <= i < output_lines(bytes).len(),
        0 <= j < output_lines(bytes)[i].len(),
        output_lines(bytes)[i][j].stderr == stderr,
    ensures
        valid_utf8(output_lines(bytes)[i][j].bytes),
{
    bytes_filtered(bytes, stderr);
    characters_stay_whole(bytes, stderr);
    assert(pieces_are_utf8(output_lines(bytes)[i], stderr));
}

/// Output is cut at line feeds and nowhere else: bytes before the first line feed are
/// the first line, and the rest is cut by itself.
pub proof fn output_is_cut_at_line_feeds(line: Seq<u8>, rest: Seq<u8>)
    requires
        forall|i: int| 0 <= i < line.len() ==> line[i] != 10u8,
    ensures
        cut(line) == (Seq::<Seq<u8>>::empty(), line),
        cut(line + seq![10u8] + rest).0 == seq![line] + cut(rest).0,
        cut(line + seq![10u8] + rest).1 == cut(rest).1,
    decreases rest.len(),
{
    free_of_line_feeds(line);
    let all = line + seq![10u8] + rest;
    if rest.len() == 0 {
        assert(all.drop_last() == line);
        assert(cut(all).0 =~= seq![line] + cut(rest).0);
    } else {
        output_is_cut_at_line_feeds(line, rest.drop_last());
        assert(all.drop_last() == line + seq![10u8] + rest.drop_last());
        assert(cut(all).0 =~= seq![line] + cut(rest).0);
    }
}

/// Output without line feeds is not cut.
proof fn free_of_line_feeds(bytes: Seq<u8>)
    requires
        forall|i: int| 0 <= i < bytes.len() ==> bytes[i] != 10u8,
    ensures
        cut(bytes) == (Seq::<Seq<u8>>::empty(), bytes),
    decreases bytes.len(),
{
    if bytes.len() > 0 {
        free_of_line_feeds(bytes.drop_last());
        assert(bytes.drop_last().push(bytes.last()) == bytes);
    }
}

/// At the end of the output, what is left of unfinished characters joins the line,
/// that of the standard output first.
pub proof fn nothing_is_held_back_at_the_end(at: Pending)
    ensures
        arrived(at.last_line()) == arrived(at.line) + Seq::new(
            at.out.len(),
            |i: int| (false, at.out[i]),
        ) + Seq::new(at.err.len(), |i: int| (true, at.err[i])),
{
    extended_arrives(at.line, false, at.out);
    extended_arrives(extended(at.line, false, at.out), true, at.err);
}

} // verus!
