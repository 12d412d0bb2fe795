//! Sessions with a worker: what a channel reports of a command, the private key
//! and the errors.
use crate::output::{
    all_decode, decode_line, decode_lines, decodes, fed, fed_in_parts, from_one, line_model,
    output_lines, LineBuffer, Pending, PieceModel,
};
use crate::text::{append_decimal, decimal, texts};
use russh_keys::key::PrivateKeyWithHashAlg;
use russh_keys::ssh_key::PrivateKey;
use std::sync::Arc;
use vstd::prelude::*;

verus! {

/// What a channel reports while a command runs.
pub enum ChannelEvent {
    /// Bytes of the standard output.
    Data(Vec<u8>),
    /// Bytes of the standard error.
    ExtendedData(Vec<u8>),
    /// The command's exit status.
    ExitStatus(u32),
    /// Anything else.
    Other,
}

/// The bytes of output that an event carries, each with the stream that it is
/// from.
pub open spec fn event_bytes(event: ChannelEvent) -> Seq<(bool, u8)> {
    match event {
        ChannelEvent::Data(bytes) => from_one(false, bytes@),
        ChannelEvent::ExtendedData(bytes) => from_one(true, bytes@),
        _ => Seq::empty(),
    }
}

/// The exit code once an event has been seen.
pub open spec fn code_after(code: u32, event: ChannelEvent) -> u32 {
    match event {
        ChannelEvent::ExitStatus(status) => status,
        _ => code,
    }
}

/// The output of a running command, handed on line by line.
pub struct ExecStream {
    buf: LineBuffer,
    exit_code: u32,
}

impl ExecStream {
    /// What has arrived and is not part of a complete line.
    pub closed spec fn pending(&self) -> Pending {
        self.buf.pending()
    }

    /// The exit code as far as it is known.
    pub closed spec fn code(&self) -> u32 {
        self.exit_code
    }

    /// A command that has reported nothing yet.
    pub fn new() -> (stream: Self)
        ensures
            stream.pending() == Pending::none(),
            stream.code() == 0,
    {
        ExecStream { buf: LineBuffer::new(), exit_code: 0 }
    }

    /// Takes in what the channel reports and returns the lines that it
    /// completes. A line is decoded when it is complete, so a character whose
    /// bytes come in several messages is not torn apart.
    pub fn on_event(&mut self, event: &ChannelEvent) -> (lines: Vec<String>)
        ensures
            all_decode(fed(old(self).pending(), event_bytes(*event)).0, texts(lines@)),
            final(self).pending() == fed(old(self).pending(), event_bytes(*event)).1,
            final(self).code() == code_after(old(self).code(), *event),
            match *event {
                ChannelEvent::Data(bytes) => {
                    let more = Seq::new(bytes@.len(), |i: int| (false, bytes@[i]));
                    &&& all_decode(fed(old(self).pending(), more).0, texts(lines@))
                    &&& final(self).pending() == fed(old(self).pending(), more).1
                    &&& final(self).code() == old(self).code()
                },
                ChannelEvent::ExtendedData(bytes) => {
                    let more = Seq::new(bytes@.len(), |i: int| (true, bytes@[i]));
                    &&& all_decode(fed(old(self).pending(), more).0, texts(lines@))
                    &&& final(self).pending() == fed(old(self).pending(), more).1
                    &&& final(self).code() == old(self).code()
                },
                ChannelEvent::ExitStatus(status) => {
                    &&& lines@.len() == 0
                    &&& final(self).pending() == old(self).pending()
                    &&& final(self).code() == status
                },
                ChannelEvent::Other => {
                    &&& lines@.len() == 0
                    &&& final(self).pending() == old(self).pending()
                    &&& final(self).code() == old(self).code()
                },
            },
    {
        proof {
            data_is_received_whole(Seq::empty(), *event);
            assert(Seq::<ChannelEvent>::empty().push(*event).drop_last() == Seq::<
                ChannelEvent,
            >::empty());
            assert(Seq::<(bool, u8)>::empty() + event_bytes(*event) == event_bytes(*event));
        }
        match event {
            ChannelEvent::Data(bytes) => decode_lines(
                &self.buf.push_bytes(false, bytes.as_slice()),
            ),
            ChannelEvent::ExtendedData(bytes) => decode_lines(
                &self.buf.push_bytes(true, bytes.as_slice()),
            ),
            ChannelEvent::ExitStatus(status) => {
                self.exit_code = *status;
                Vec::new()
            },
            ChannelEvent::Other => Vec::new(),
        }
    }

    /// Ends the output: the last line, where it was not ended by a line feed,
    /// and the exit code.
    pub fn finish(self) -> (end: (Option<String>, u32))
        ensures
            match end.0 {
                Some(line) => self.pending().last_line().len() > 0 && decodes(
                    self.pending().last_line(),
                    line@,
                ),
                None => self.pending().last_line().len() == 0,
            },
            end.1 == self.code(),
    {
        let code: u32 = self.exit_code;
        let last = self.buf.finish();
        assert(line_model(last@).len() == last@.len());
        if last.len() == 0 {
            (None, code)
        } else {
            (Some(decode_line(&last)), code)
        }
    }
}

/// Adds a line to captured output.
pub fn capture_line(output: &mut String, line: &str)
    ensures
        final(output)@ == old(output)@ + line@ + "\n"@,
{
    output.append(line);
    output.append("\n");
}

/// All bytes of output that a channel reported, in the order in which they came,
/// each with the stream that it is from.
pub open spec fn received(events: Seq<ChannelEvent>) -> Seq<(bool, u8)>
    decreases events.len(),
{
    if events.len() == 0 {
        Seq::empty()
    } else {
        received(events.drop_last()) + event_bytes(events.last())
    }
}

/// The last exit status that was reported; zero where there was none.
pub open spec fn reported_code(events: Seq<ChannelEvent>) -> u32
    decreases events.len(),
{
    if events.len() == 0 {
        0
    } else {
        code_after(reported_code(events.drop_last()), events.last())
    }
}

/// The lines that were handed on, before they are decoded, and what is pending
/// after some events.
pub open spec fn streamed(events: Seq<ChannelEvent>) -> (Seq<Seq<PieceModel>>, Pending)
    decreases events.len(),
{
    if events.len() == 0 {
        (Seq::empty(), Pending::none())
    } else {
        let (lines, at) = streamed(events.drop_last());
        let (more, then) = fed(at, event_bytes(events.last()));
        (lines + more, then)
    }
}

/// The lines that are handed on depend on the bytes alone that the two streams
/// brought: not on where the channel cuts them into messages.
pub proof fn lines_do_not_depend_on_messages(events: Seq<ChannelEvent>)
    ensures
        streamed(events) == fed(Pending::none(), received(events)),
    decreases events.len(),
{
    if events.len() > 0 {
        lines_do_not_depend_on_messages(events.drop_last());
        fed_in_parts(
            Pending::none(),
            received(events.drop_last()),
            event_bytes(events.last()),
        );
    }
}

/// Events that report no exit status leave the exit code as it was.
proof fn code_is_kept(events: Seq<ChannelEvent>, more: Seq<ChannelEvent>)
    requires
        forall|i: int| 0 <= i < more.len() ==> !(#[trigger] more[i] is ExitStatus),
    ensures
        reported_code(events + more) == reported_code(events),
    decreases more.len(),
{
    if more.len() == 0 {
        assert(events + more == events);
    } else {
        code_is_kept(events, more.drop_last());
        assert((events + more).drop_last() == events + more.drop_last());
    }
}

/// A command's exit code is the status that its channel reported last, and
/// zero where it reported none.
pub proof fn exit_code_is_last_status(
    before: Seq<ChannelEvent>,
    status: u32,
    after: Seq<ChannelEvent>,
)
    requires
        forall|i: int| 0 <= i < after.len() ==> !(#[trigger] after[i] is ExitStatus),
    ensures
        reported_code(before.push(ChannelEvent::ExitStatus(status)) + after) == status,
        reported_code(after) == 0,
{
    let reported = before.push(ChannelEvent::ExitStatus(status));
    assert(reported.drop_last() == before);
    code_is_kept(reported, after);
    code_is_kept(Seq::empty(), after);
    assert(Seq::empty() + after == after);
}

/// The exit status that an event reports, where it is not zero.
pub open spec fn event_failure(event: ChannelEvent) -> Option<u32> {
    match event {
        ChannelEvent::ExitStatus(code) => if code != 0 {
            Some(code)
        } else {
            None
        },
        _ => None,
    }
}

/// The exit status that an event reports, where it is not zero.
pub fn failed_status(event: &ChannelEvent) -> (status: Option<u32>)
    ensures
        status == event_failure(*event),
        match *event {
            ChannelEvent::ExitStatus(code) => if code == 0 {
                status is None
            } else {
                status == Some(code)
            },
            _ => status is None,
        },
{
    match event {
        ChannelEvent::ExitStatus(code) => if *code != 0 {
            Some(*code)
        } else {
            None
        },
        _ => None,
    }
}

/// The failure of a command whose output does not matter: the first exit status
/// other than zero that its channel reports.
pub open spec fn first_failure(events: Seq<ChannelEvent>) -> Option<u32>
    decreases events.len(),
{
    if events.len() == 0 {
        None
    } else {
        match first_failure(events.drop_last()) {
            Some(status) => Some(status),
            None => event_failure(events.last()),
        }
    }
}

/// A watch on a command whose output does not matter.
pub struct StatusWatch {
    failure: Option<u32>,
    /// What the channel has reported.
    seen: Ghost<Seq<ChannelEvent>>,
}

impl StatusWatch {
    /// What the channel has reported so far.
    pub closed spec fn events(&self) -> Seq<ChannelEvent> {
        self.seen@
    }

    /// What is known is what the reports amount to.
    pub closed spec fn wf(&self) -> bool {
        self.failure == first_failure(self.seen@)
    }

    /// A command that has reported nothing yet.
    pub fn new() -> (watch: Self)
        ensures
            watch.wf(),
            watch.events() == Seq::<ChannelEvent>::empty(),
    {
        StatusWatch { failure: None, seen: Ghost(Seq::empty()) }
    }

    /// Takes in what the channel reports, and returns the failure of the command
    /// as far as it is known.
    pub fn on_event(&mut self, event: &ChannelEvent) -> (failure: Option<u32>)
        requires
            old(self).wf(),
        ensures
            final(self).wf(),
            final(self).events() == old(self).events().push(*event),
            failure == first_failure(final(self).events()),
    {
        if self.failure.is_none() {
            self.failure = failed_status(event);
        }
        proof {
            let before = self.seen@;
            self.seen@ = before.push(*event);
            assert(self.seen@.drop_last() == before);
        }
        self.failure
    }
}

/// Reports that hold no exit status other than zero change nothing.
proof fn failure_is_kept(events: Seq<ChannelEvent>, more: Seq<ChannelEvent>)
    requires
        first_failure(events) is Some || forall|i: int|
            0 <= i < more.len() ==> event_failure(#[trigger] more[i]) is None,
    ensures
        first_failure(events + more) == first_failure(events),
    decreases more.len(),
{
    if more.len() == 0 {
        assert(events + more == events);
    } else {
        failure_is_kept(events, more.drop_last());
        assert((events + more).drop_last() == events + more.drop_last());
        assert((events + more).last() == more[more.len() - 1]);
    }
}

/// The first exit status other than zero decides, whatever comes after it.
pub proof fn first_failed_status_decides(
    before: Seq<ChannelEvent>,
    status: u32,
    after: Seq<ChannelEvent>,
)
    requires
        forall|i: int| 0 <= i < before.len() ==> event_failure(#[trigger] before[i]) is None,
        status != 0,
    ensures
        first_failure(before.push(ChannelEvent::ExitStatus(status)) + after) == Some(status),
{
    let reported = before.push(ChannelEvent::ExitStatus(status));
    output_does_not_decide(before);
    assert(reported.drop_last() == before);
    failure_is_kept(reported, after);
}

/// Output never decides, nor does an exit status of zero: a command whose channel
/// reports nothing else has not failed.
pub proof fn output_does_not_decide(events: Seq<ChannelEvent>)
    requires
        forall|i: int| 0 <= i < events.len() ==> event_failure(#[trigger] events[i]) is None,
    ensures
        first_failure(events) is None,
{
    failure_is_kept(Seq::empty(), events);
    assert(Seq::empty() + events == events);
}

/// What can go wrong in a session with a worker.
pub enum SessionError {
    /// The private key cannot be read.
    ReadKey { path: String },
    /// The private key cannot be decoded.
    DecodeKey,
    /// The private key does not go with the hash algorithm.
    HashAlgorithm,
    /// The worker cannot be reached.
    Connect { ip: String, port: u16 },
    /// The authentication did not take place.
    Authenticate,
    /// The worker does not accept the key.
    Rejected { ip: String, port: u16 },
    /// A file to upload cannot be read.
    ReadFile { path: String },
    /// The uploaded file could not be written.
    Write { status: u32 },
    /// A command failed.
    Command { command: String, status: u32 },
}

/// An address and a port, as one text.
pub open spec fn endpoint(ip: Seq<char>, port: u16) -> Seq<char> {
    ip + ":"@ + decimal(port as nat)
}

/// The words for an error.
pub open spec fn error_text(error: SessionError) -> Seq<char> {
    match error {
        SessionError::ReadKey { path } => "failed to read SSH key: "@ + path@,
        SessionError::DecodeKey => "failed to decode SSH private key"@,
        SessionError::HashAlgorithm => "failed to create key with hash alg"@,
        SessionError::Connect { ip, port } => "SSH connect failed to "@ + endpoint(ip@, port),
        SessionError::Authenticate => "SSH authentication failed"@,
        SessionError::Rejected { ip, port } => "SSH authentication rejected by "@ + endpoint(
            ip@,
            port,
        ),
        SessionError::ReadFile { path } => "failed to read "@ + path@,
        SessionError::Write { status } => "remote cat exited with status "@ + decimal(
            status as nat,
        ),
        SessionError::Command { command, status } => "command `"@ + command@
            + "` exited with status "@ + decimal(status as nat),
    }
}

impl SessionError {
    /// The words for the error.
    pub fn message(&self) -> (text: String)
        ensures
            text@ == error_text(*self),
    {
        match self {
            SessionError::ReadKey { path } => {
                let mut text = "failed to read SSH key: ".to_owned();
                text.append(path.as_str());
                text
            },
            SessionError::DecodeKey => "failed to decode SSH private key".to_owned(),
            SessionError::HashAlgorithm => "failed to create key with hash alg".to_owned(),
            SessionError::Connect { ip, port } => {
                let mut text = "SSH connect failed to ".to_owned();
                append_endpoint(&mut text, ip.as_str(), *port);
                text
            },
            SessionError::Authenticate => "SSH authentication failed".to_owned(),
            SessionError::Rejected { ip, port } => {
                let mut text = "SSH authentication rejected by ".to_owned();
                append_endpoint(&mut text, ip.as_str(), *port);
                text
            },
            SessionError::ReadFile { path } => {
                let mut text = "failed to read ".to_owned();
                text.append(path.as_str());
                text
            },
            SessionError::Write { status } => {
                let mut text = "remote cat exited with status ".to_owned();
                append_decimal(&mut text, *status as u64);
                text
            },
            SessionError::Command { command, status } => {
                let mut text = "command `".to_owned();
                text.append(command.as_str());
                text.append("` exited with status ");
                append_decimal(&mut text, *status as u64);
                text
            },
        }
    }
}

/// Appends an address and a port.
pub fn append_endpoint(out: &mut String, ip: &str, port: u16)
    ensures
        final(out)@ == old(out)@ + endpoint(ip@, port),
{
    out.append(ip);
    out.append(":");
    append_decimal(out, port as u64);
}

/// `ssh_key::PrivateKey`, a private key.
#[verifier::external_type_specification]
#[verifier::external_body]
pub struct ExPrivateKey(russh_keys::ssh_key::PrivateKey);

/// `russh_keys::Error`, why a key cannot be decoded.
#[verifier::external_type_specification]
#[verifier::external_body]
pub struct ExKeysError(russh_keys::Error);

/// The private key that an unprotected key file holds; none where its contents
/// cannot be decoded.
pub uninterp spec fn decoded_key(secret: Seq<char>) -> Option<PrivateKey>;

/// `russh_keys::decode_secret_key` without a password: whether the contents
/// decode, and to which key, is a function of the contents. What the error says
/// is left open.
#[verifier::external_body]
fn decode_secret_key(secret: &str) -> (key: Result<PrivateKey, russh_keys::Error>)
    ensures
        match key {
            Ok(key) => decoded_key(secret@) == Some(key),
            Err(_) => decoded_key(secret@) is None,
        },
{
    russh_keys::decode_secret_key(secret, None)
}

/// `russh_keys::key::PrivateKeyWithHashAlg`, a private key to authenticate with.
#[verifier::external_type_specification]
#[verifier::external_body]
pub struct ExPrivateKeyWithHashAlg(russh_keys::key::PrivateKeyWithHashAlg);

/// A private key to authenticate with, with no hash algorithm chosen for it.
pub uninterp spec fn plain_key(key: PrivateKey) -> PrivateKeyWithHashAlg;

/// `russh_keys::key::PrivateKeyWithHashAlg::new` without a hash algorithm: it
/// takes every key, and what it makes of a key is a function of the key.
#[verifier::external_body]
fn without_hash_algorithm(key: PrivateKey) -> (plain: Result<
    PrivateKeyWithHashAlg,
    russh_keys::Error,
>)
    ensures
        plain is Ok,
        plain->Ok_0 == plain_key(key),
{
    PrivateKeyWithHashAlg::new(Arc::new(key), None)
}

/// A key file that holds no key to authenticate with.
pub struct KeyError {
    pub error: SessionError,
    pub cause: russh_keys::Error,
}

/// The private key that the contents of a key file hold.
pub fn private_key(key_data: &str) -> (key: Result<PrivateKey, KeyError>)
    ensures
        match key {
            Ok(key) => decoded_key(key_data@) == Some(key),
            Err(error) => decoded_key(key_data@) is None && error.error is DecodeKey,
        },
{
    match decode_secret_key(key_data) {
        Ok(key) => Ok(key),
        Err(cause) => Err(KeyError { error: SessionError::DecodeKey, cause }),
    }
}

/// The key to authenticate with that the contents of a key file hold. There is
/// one wherever they hold a private key.
pub fn authentication_key(key_data: &str) -> (key: Result<PrivateKeyWithHashAlg, KeyError>)
    ensures
        match key {
            Ok(key) => decoded_key(key_data@) matches Some(decoded) && key == plain_key(decoded),
            Err(error) => decoded_key(key_data@) is None && error.error is DecodeKey,
        },
{
    match private_key(key_data) {
        Ok(key) => match without_hash_algorithm(key) {
            Ok(plain) => Ok(plain),
            Err(cause) => Err(KeyError { error: SessionError::HashAlgorithm, cause }),
        },
        Err(error) => Err(error),
    }
}

/// What comes of an attempt to authenticate: nothing to report where the worker
/// accepted the key, and otherwise that it was rejected.
pub fn check_authentication(accepted: bool, ip: &str, port: u16) -> (outcome: Result<
    (),
    SessionError,
>)
    ensures
        accepted <==> outcome is Ok,
        outcome matches Err(error) ==> (error matches SessionError::Rejected { ip: at, port: on }
            && at@ == ip@ && on == port),
{
    if accepted {
        Ok(())
    } else {
        Err(SessionError::Rejected { ip: ip.to_owned(), port })
    }
}

/// Output is received whole: the bytes of each message are added behind those that
/// came before it, as many as the message holds, one by one, on the stream that the
/// message is from. Other events bring none.
pub proof fn data_is_received_whole(events: Seq<ChannelEvent>, event: ChannelEvent)
    ensures
        received(Seq::empty()) == Seq::<(bool, u8)>::empty(),
        received(events.push(event)) == received(events) + match event {
            ChannelEvent::Data(bytes) => Seq::new(bytes@.len(), |i: int| (false, bytes@[i])),
            ChannelEvent::ExtendedData(bytes) => Seq::new(
                bytes@.len(),
                |i: int| (true, bytes@[i]),
            ),
            _ => Seq::empty(),
        },
{
    let longer = events.push(event);
    assert(longer.drop_last() == events);
    match event {
        ChannelEvent::Data(bytes) => {
            assert(event_bytes(event) =~= Seq::new(bytes@.len(), |i: int| (false, bytes@[i])));
        },
        ChannelEvent::ExtendedData(bytes) => {
            assert(event_bytes(event) =~= Seq::new(bytes@.len(), |i: int| (true, bytes@[i])));
        },
        _ => {},
    }
}

/// Of messages of one stream alone, the bytes that are received are those of the
/// messages one after the other.
pub proof fn messages_are_received_in_order(messages: Seq<Vec<u8>>)
    ensures
        received(messages.map_values(|bytes: Vec<u8>| ChannelEvent::Data(bytes)))
            == messages.fold_left(
            Seq::<(bool, u8)>::empty(),
            |all: Seq<(bool, u8)>, bytes: Vec<u8>|
                all + Seq::new(bytes@.len(), |i: int| (false, bytes@[i])),
        ),
        received(messages.map_values(|bytes: Vec<u8>| ChannelEvent::ExtendedData(bytes)))
            == messages.fold_left(
            Seq::<(bool, u8)>::empty(),
            |all: Seq<(bool, u8)>, bytes: Vec<u8>|
                all + Seq::new(bytes@.len(), |i: int| (true, bytes@[i])),
        ),
    decreases messages.len(),
{
    let out = messages.map_values(|bytes: Vec<u8>| ChannelEvent::Data(bytes));
    let err = messages.map_values(|bytes: Vec<u8>| ChannelEvent::ExtendedData(bytes));
    if messages.len() > 0 {
        let head = messages.drop_last();
        let last = messages.last();
        let out_head = head.map_values(|bytes: Vec<u8>| ChannelEvent::Data(bytes));
        let err_head = head.map_values(|bytes: Vec<u8>| ChannelEvent::ExtendedData(bytes));
        messages_are_received_in_order(head);
        data_is_received_whole(out_head, ChannelEvent::Data(last));
        data_is_received_whole(err_head, ChannelEvent::ExtendedData(last));
        assert(out == out_head.push(ChannelEvent::Data(last)));
        assert(err == err_head.push(ChannelEvent::ExtendedData(last)));
    }
}

/// What each report does to the exit code and to the failure that is known: an exit
/// status is the exit code from then on, and the failure where it is not zero and none
/// is known. Nothing else changes either.
pub proof fn statuses_are_taken_up(events: Seq<ChannelEvent>, event: ChannelEvent, status: u32)
    ensures
        reported_code(Seq::empty()) == 0,
        reported_code(events.push(ChannelEvent::ExitStatus(status))) == status,
        !(event is ExitStatus) ==> reported_code(events.push(event)) == reported_code(events),
        first_failure(Seq::empty()) is None,
        first_failure(events) is None && status != 0 ==> first_failure(
            events.push(ChannelEvent::ExitStatus(status)),
        ) == Some(status),
        first_failure(events) is Some ==> first_failure(events.push(event)) == first_failure(
            events,
        ),
        !(event is ExitStatus) || event == ChannelEvent::ExitStatus(0) ==> first_failure(
            events.push(event),
        ) == first_failure(events),
{
    assert(events.push(ChannelEvent::ExitStatus(status)).drop_last() == events);
    assert(events.push(event).drop_last() == events);
}

/// The words for each error name what it is about.
pub proof fn errors_name_their_subject(path: String, ip: String, port: u16, command: String, status: u32)
    ensures
        error_text(SessionError::ReadKey { path }) == "failed to read SSH key: "@ + path@,
        error_text(SessionError::ReadFile { path }) == "failed to read "@ + path@,
        error_text(SessionError::Connect { ip, port }) == "SSH connect failed to "@ + ip@ + ":"@
            + decimal(port as nat),
        error_text(SessionError::Rejected { ip, port }) == "SSH authentication rejected by "@ + ip@
            + ":"@ + decimal(port as nat),
        error_text(SessionError::Write { status }) == "remote cat exited with status "@ + decimal(
            status as nat,
        ),
        error_text(SessionError::Command { command, status }) == "command `"@ + command@
            + "` exited with status "@ + decimal(status as nat),
        endpoint(ip@, port) == ip@ + ":"@ + decimal(port as nat),
{
    assert("SSH connect failed to "@ + (ip@ + ":"@ + decimal(port as nat))
        == "SSH connect failed to "@ + ip@ + ":"@ + decimal(port as nat));
    assert("SSH authentication rejected by "@ + (ip@ + ":"@ + decimal(port as nat))
        == "SSH authentication rejected by "@ + ip@ + ":"@ + decimal(port as nat));
}

/// What is handed on of a command are the lines of its output: those that the reports
/// completed, and at the end the last one, where anything of it has come.
pub proof fn lines_of_the_output_are_handed_on(events: Seq<ChannelEvent>)
    ensures
        output_lines(received(events)) == if streamed(events).1.last_line().len() > 0 {
            streamed(events).0.push(streamed(events).1.last_line())
        } else {
            streamed(events).0
        },
{
    lines_do_not_depend_on_messages(events);
}

} // verus!
