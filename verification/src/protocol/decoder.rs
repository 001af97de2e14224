//! The streaming frame decoder: it takes bytes as they arrive, finds the
//! frames among them and hands out the messages that keep the schema: the
//! header gives the payload's length, the payload is within the limit, and
//! the checksum is right.
//!
//! What the decoder does is a state machine, written here as a
//! specification: [`step`] is one move of it, [`attempt`] moves until a body
//! was read or more bytes are needed, and [`run`] moves until more bytes are
//! needed and collects the messages. [`feed`] is one call of
//! [`ProtocolDecoder::feed_data`].

use crate::error::{decoding_failure, UshError, UshResult};
use crate::protocol::frame::{DELIMITER_BYTE, PREAMBLE_BYTE, PREAMBLE_LENGTH};
use crate::protocol::message::{Message, MessageView, MAX_MESSAGE_LENGTH};
use crate::protocol::reader::{read_message, scan_message};
use vstd::prelude::*;
use vstd::string::*;

verus! {

/// The longest body that the decoder reads; a longer one is taken for noise.
pub const MAX_EXPECTED_LENGTH: usize = 2 * MAX_MESSAGE_LENGTH;

/// The buffer length above which old bytes are given up.
pub const BUFFER_LIMIT: usize = 10000;

/// How many of the newest bytes stay when old bytes are given up.
pub const BUFFER_KEEP: usize = 5000;

/// Where the decoder stands within a frame.
#[derive(Debug, Clone, Copy, PartialEq, Eq, Structural)]
pub enum DecoderState {
    WaitingForPreamble,
    WaitingForStart,
    ReadingLength,
    ReadingMessage,
    WaitingForEnd,
}

/// The streaming frame decoder.
#[derive(Debug)]
pub struct ProtocolDecoder {
    buffer: Vec<u8>,
    state: DecoderState,
    expected_length: usize,
}

/// The mathematical value of a decoder.
pub struct DecoderView {
    /// The bytes that arrived and were not used up yet.
    pub buffer: Seq<u8>,
    pub state: DecoderState,
    /// The length that the last length field stated.
    pub expected_length: nat,
}

impl View for ProtocolDecoder {
    type V = DecoderView;

    closed spec fn view(&self) -> DecoderView {
        DecoderView {
            buffer: self.buffer@,
            state: self.state,
            expected_length: self.expected_length as nat,
        }
    }
}

/// A decoder that has seen nothing.
pub open spec fn fresh() -> DecoderView {
    DecoderView {
        buffer: Seq::<u8>::empty(),
        state: DecoderState::WaitingForPreamble,
        expected_length: 0,
    }
}

/// Whether the preamble stands in `buffer` at `i`.
pub open spec fn preamble_at(buffer: Seq<u8>, i: int) -> bool {
    &&& 0 <= i
    &&& i + PREAMBLE_LENGTH <= buffer.len()
    &&& buffer[i] == PREAMBLE_BYTE
    &&& buffer[i + 1] == PREAMBLE_BYTE
    &&& buffer[i + 2] == PREAMBLE_BYTE
    &&& buffer[i + 3] == PREAMBLE_BYTE
    &&& buffer[i + 4] == PREAMBLE_BYTE
    &&& buffer[i + 5] == PREAMBLE_BYTE
    &&& buffer[i + 6] == PREAMBLE_BYTE
    &&& buffer[i + 7] == PREAMBLE_BYTE
}

/// Whether the preamble stands at `i` and nowhere before.
pub open spec fn leads(buffer: Seq<u8>, i: int) -> bool {
    &&& preamble_at(buffer, i)
    &&& forall|j: int| 0 <= j < i ==> !preamble_at(buffer, j)
}

/// The first place at which the preamble stands in `buffer`.
pub open spec fn first_preamble(buffer: Seq<u8>) -> Option<int> {
    if exists|i: int| leads(buffer, i) {
        Some(choose|i: int| leads(buffer, i))
    } else {
        None
    }
}

/// Whether a delimiter stands in `buffer` at `at`.
pub open spec fn delimiter_at(buffer: Seq<u8>, at: int) -> bool {
    &&& 0 <= at
    &&& at + 2 <= buffer.len()
    &&& buffer[at] == DELIMITER_BYTE
    &&& buffer[at + 1] == DELIMITER_BYTE
}

/// What one move of the decoder comes to.
pub enum Progress {
    /// More bytes are needed.
    Stalled,
    /// The decoder went on to another state.
    Moved(DecoderView),
    /// A body was taken from the buffer: it was a message, or it was not.
    Produced(DecoderView, Option<MessageView>),
}

/// One move of the decoder.
pub open spec fn step(d: DecoderView) -> Progress {
    let len = d.buffer.len() as int;
    match d.state {
        DecoderState::WaitingForPreamble => match first_preamble(d.buffer) {
            Some(pos) => Progress::Moved(
                DecoderView {
                    buffer: d.buffer.subrange(pos, len),
                    state: DecoderState::WaitingForStart,
                    ..d
                },
            ),
            None => Progress::Stalled,
        },
        DecoderState::WaitingForStart => if len >= 10 {
            if delimiter_at(d.buffer, 8) {
                Progress::Moved(
                    DecoderView {
                        buffer: d.buffer.subrange(10, len),
                        state: DecoderState::ReadingLength,
                        ..d
                    },
                )
            } else {
                Progress::Moved(
                    DecoderView {
                        buffer: d.buffer.subrange(1, len),
                        state: DecoderState::WaitingForPreamble,
                        ..d
                    },
                )
            }
        } else {
            Progress::Stalled
        },
        DecoderState::ReadingLength => if len >= 2 {
            let expected = (d.buffer[0] * 256 + d.buffer[1]) as nat;
            if expected > MAX_EXPECTED_LENGTH {
                Progress::Moved(
                    DecoderView {
                        buffer: d.buffer.subrange(1, len),
                        state: DecoderState::WaitingForPreamble,
                        expected_length: expected,
                    },
                )
            } else {
                Progress::Moved(
                    DecoderView {
                        buffer: d.buffer.subrange(2, len),
                        state: DecoderState::ReadingMessage,
                        expected_length: expected,
                    },
                )
            }
        } else {
            Progress::Stalled
        },
        DecoderState::ReadingMessage => if len >= d.expected_length {
            let body = d.buffer.subrange(0, d.expected_length as int);
            let rest = d.buffer.subrange(d.expected_length as int, len);
            match read_message(body) {
                Some(message) => Progress::Produced(
                    DecoderView {
                        buffer: if delimiter_at(rest, 0) {
                            rest.subrange(2, rest.len() as int)
                        } else {
                            rest
                        },
                        state: DecoderState::WaitingForPreamble,
                        ..d
                    },
                    Some(message),
                ),
                None => Progress::Produced(
                    DecoderView { buffer: rest, state: DecoderState::WaitingForPreamble, ..d },
                    None,
                ),
            }
        } else {
            Progress::Stalled
        },
        DecoderState::WaitingForEnd => if len >= 2 {
            Progress::Moved(
                DecoderView {
                    buffer: if delimiter_at(d.buffer, 0) {
                        d.buffer.subrange(2, len)
                    } else {
                        d.buffer.subrange(1, len)
                    },
                    state: DecoderState::WaitingForPreamble,
                    ..d
                },
            )
        } else {
            Progress::Stalled
        },
    }
}

/// Orders the states so that every move either shortens the buffer or lowers
/// the rank.
pub open spec fn rank(state: DecoderState) -> nat {
    match state {
        DecoderState::WaitingForStart => 0,
        DecoderState::WaitingForPreamble => 1,
        _ => 2,
    }
}

/// Whether `next` comes before `d` in the order in which moves go down.
pub open spec fn below(next: DecoderView, d: DecoderView) -> bool {
    next.buffer.len() < d.buffer.len() || (next.buffer.len() == d.buffer.len() && rank(next.state)
        < rank(d.state))
}

/// Every move goes down.
pub proof fn lemma_step_goes_down(d: DecoderView)
    ensures
        match step(d) {
            Progress::Stalled => true,
            Progress::Moved(next) => below(next, d),
            Progress::Produced(next, _) => below(next, d),
        },
{
    if d.state == DecoderState::WaitingForPreamble && first_preamble(d.buffer) is Some {
        let pos = first_preamble(d.buffer)->0;
        assert(leads(d.buffer, pos));
    }
}

/// The moves of the decoder up to the first body, or until more bytes are
/// needed: the state it is left in, and what the body was, if one was read.
pub open spec fn attempt(d: DecoderView) -> (DecoderView, Option<Option<MessageView>>)
    decreases d.buffer.len(), rank(d.state),
    via attempt_goes_down
{
    match step(d) {
        Progress::Stalled => (d, None),
        Progress::Moved(next) => attempt(next),
        Progress::Produced(next, body) => (next, Some(body)),
    }
}

#[via_fn]
proof fn attempt_goes_down(d: DecoderView) {
    lemma_step_goes_down(d);
}

/// The messages that a body gives: itself, if it is a message that keeps
/// the schema.
pub open spec fn kept(body: Option<MessageView>) -> Seq<MessageView> {
    match body {
        Some(message) => if message.well_formed() {
            seq![message]
        } else {
            Seq::<MessageView>::empty()
        },
        None => Seq::<MessageView>::empty(),
    }
}

/// All moves of the decoder until more bytes are needed: the state it is
/// left in, and the messages it hands out, in the order of their frames.
pub open spec fn run(d: DecoderView) -> (DecoderView, Seq<MessageView>)
    decreases d.buffer.len(), rank(d.state),
    via run_goes_down
{
    match step(d) {
        Progress::Stalled => (d, Seq::<MessageView>::empty()),
        Progress::Moved(next) => run(next),
        Progress::Produced(next, body) => (run(next).0, kept(body) + run(next).1),
    }
}

#[via_fn]
proof fn run_goes_down(d: DecoderView) {
    lemma_step_goes_down(d);
}

/// A buffer that has grown over the limit keeps its newest bytes only, and
/// the decoder starts over.
pub open spec fn trimmed(d: DecoderView) -> DecoderView {
    if d.buffer.len() > BUFFER_LIMIT {
        DecoderView {
            buffer: d.buffer.subrange(d.buffer.len() - BUFFER_KEEP, d.buffer.len() as int),
            state: DecoderState::WaitingForPreamble,
            ..d
        }
    } else {
        d
    }
}

/// One feeding: `data` joins the buffer, the decoder moves until it needs
/// more bytes, and the buffer is trimmed.
pub open spec fn feed(d: DecoderView, data: Seq<u8>) -> (DecoderView, Seq<MessageView>) {
    let (after, messages) = run(DecoderView { buffer: d.buffer + data, ..d });
    (trimmed(after), messages)
}

/// An attempt that read a body went down, and one that did not left the
/// decoder where no move is possible.
pub proof fn lemma_attempt(d: DecoderView)
    ensures
        attempt(d).1 is Some ==> below(attempt(d).0, d),
        attempt(d).1 is None ==> step(attempt(d).0) is Stalled,
        run(d) == match attempt(d).1 {
            None => (attempt(d).0, Seq::<MessageView>::empty()),
            Some(body) => (run(attempt(d).0).0, kept(body) + run(attempt(d).0).1),
        },
    decreases d.buffer.len(), rank(d.state),
{
    lemma_step_goes_down(d);
    match step(d) {
        Progress::Stalled => {},
        Progress::Moved(next) => {
            lemma_attempt(next);
        },
        Progress::Produced(next, body) => {},
    }
}

/// Whatever the bytes were, a message that is handed out keeps the schema:
/// its header gives the length of its payload, the payload is within the
/// limit, and the checksum is right. Noise makes messages go missing, and
/// never go wrong.
pub proof fn lemma_delivered_are_well_formed(d: DecoderView)
    ensures
        forall|i: int| 0 <= i < run(d).1.len() ==> (#[trigger] run(d).1[i]).well_formed(),
    decreases d.buffer.len(), rank(d.state),
{
    lemma_step_goes_down(d);
    match step(d) {
        Progress::Stalled => {
            assert(run(d).1.len() == 0);
        },
        Progress::Moved(next) => {
            lemma_delivered_are_well_formed(next);
            assert(run(d) == run(next));
        },
        Progress::Produced(next, body) => {
            lemma_delivered_are_well_formed(next);
            let first = kept(body);
            let rest = run(next).1;
            assert(run(d).1 == first + rest);
            assert forall|i: int| 0 <= i < run(d).1.len() implies (#[trigger] run(
                d,
            ).1[i]).well_formed() by {
                if i < first.len() {
                    assert(run(d).1[i] == first[i]);
                } else {
                    assert(run(d).1[i] == rest[i - first.len()]);
                }
            }
        },
    }
}

/// What an attempt handed out, as the specification sees it.
pub open spec fn outcome(res: Option<UshResult<Message>>) -> Option<Option<MessageView>> {
    match res {
        None => None,
        Some(Ok(message)) => Some(Some(message@)),
        Some(Err(_)) => Some(None),
    }
}

/// The values of the messages in a list.
pub open spec fn views(messages: Seq<Message>) -> Seq<MessageView> {
    Seq::new(messages.len(), |i: int| messages[i]@)
}

/// The complaint about a body that is no serialized message.
pub open spec fn unreadable_complaint() -> Seq<char> {
    "Failed to deserialize message"@
}

/// Removes the first `n` bytes of `buffer`.
fn drop_front(buffer: &mut Vec<u8>, n: usize)
    requires
        n <= old(buffer)@.len(),
    ensures
        final(buffer)@ == old(buffer)@.subrange(n as int, old(buffer)@.len() as int),
{
    let rest = buffer.split_off(n);
    *buffer = rest;
}

/// The first place at which the preamble stands in `buffer`.
pub fn find_preamble_in(buffer: &[u8]) -> (res: Option<usize>)
    ensures
        match res {
            Some(i) => leads(buffer@, i as int) && first_preamble(buffer@) == Some(i as int),
            None => first_preamble(buffer@) is None && forall|j: int| !preamble_at(buffer@, j),
        },
{
    let len = buffer.len();
    if len < PREAMBLE_LENGTH {
        return None;
    }
    let mut i: usize = 0;
    while i <= len - PREAMBLE_LENGTH
        invariant
            len == buffer@.len(),
            len >= PREAMBLE_LENGTH,
            forall|j: int| 0 <= j < i ==> !preamble_at(buffer@, j),
        decreases len + 1 - i,
    {
        if buffer[i] == PREAMBLE_BYTE && buffer[i + 1] == PREAMBLE_BYTE && buffer[i + 2]
            == PREAMBLE_BYTE && buffer[i + 3] == PREAMBLE_BYTE && buffer[i + 4] == PREAMBLE_BYTE
            && buffer[i + 5] == PREAMBLE_BYTE && buffer[i + 6] == PREAMBLE_BYTE && buffer[i + 7]
            == PREAMBLE_BYTE {
            proof {
                assert(leads(buffer@, i as int));
                let chosen = first_preamble(buffer@)->0;
                assert(leads(buffer@, chosen));
            }
            return Some(i);
        }
        i += 1;
    }
    None
}

impl ProtocolDecoder {
    /// A decoder that has seen nothing.
    pub fn new() -> (decoder: Self)
        ensures
            decoder@ == fresh(),
    {
        ProtocolDecoder {
            buffer: Vec::new(),
            state: DecoderState::WaitingForPreamble,
            expected_length: 0,
        }
    }

    /// The first place at which the preamble stands in the buffer.
    pub fn find_preamble(&self) -> (res: Option<usize>)
        ensures
            match res {
                Some(i) => leads(self@.buffer, i as int) && first_preamble(self@.buffer) == Some(
                    i as int,
                ),
                None => first_preamble(self@.buffer) is None && forall|j: int|
                    !preamble_at(self@.buffer, j),
            },
    {
        find_preamble_in(self.buffer.as_slice())
    }

    /// Moves the decoder until a body was read or more bytes are needed, and
    /// hands out the message that the body was, or the failure to read it.
    pub fn try_decode_message(&mut self) -> (res: Option<UshResult<Message>>)
        ensures
            (final(self)@, outcome(res)) == attempt(old(self)@),
            res matches Some(Err(_)) ==> decoding_failure(res->0, unreadable_complaint()),
    {
        loop
            invariant
                attempt(self@) == attempt(old(self)@),
            decreases self@.buffer.len(), rank(self@.state),
        {
            let ghost here = self@;
            proof {
                lemma_step_goes_down(here);
            }
            match self.state {
                DecoderState::WaitingForPreamble => {
                    match find_preamble_in(self.buffer.as_slice()) {
                        Some(pos) => {
                            proof {
                                assert(leads(here.buffer, pos as int));
                            }
                            drop_front(&mut self.buffer, pos);
                            self.state = DecoderState::WaitingForStart;
                        },
                        None => {
                            return None;
                        },
                    }
                },
                DecoderState::WaitingForStart => {
                    if self.buffer.len() >= PREAMBLE_LENGTH + 2 {
                        let first = self.buffer[PREAMBLE_LENGTH];
                        let second = self.buffer[PREAMBLE_LENGTH + 1];
                        if first == DELIMITER_BYTE && second == DELIMITER_BYTE {
                            drop_front(&mut self.buffer, PREAMBLE_LENGTH + 2);
                            self.state = DecoderState::ReadingLength;
                        } else {
                            drop_front(&mut self.buffer, 1);
                            self.state = DecoderState::WaitingForPreamble;
                        }
                    } else {
                        return None;
                    }
                },
                DecoderState::ReadingLength => {
                    if self.buffer.len() >= 2 {
                        let high: usize = self.buffer[0] as usize;
                        let low: usize = self.buffer[1] as usize;
                        self.expected_length = high * 256 + low;
                        if self.expected_length > MAX_EXPECTED_LENGTH {
                            drop_front(&mut self.buffer, 1);
                            self.state = DecoderState::WaitingForPreamble;
                        } else {
                            drop_front(&mut self.buffer, 2);
                            self.state = DecoderState::ReadingMessage;
                        }
                    } else {
                        return None;
                    }
                },
                DecoderState::ReadingMessage => {
                    if self.buffer.len() >= self.expected_length {
                        let mut rest = self.buffer.split_off(self.expected_length);
                        let parsed = scan_message(self.buffer.as_slice());
                        self.state = DecoderState::WaitingForPreamble;
                        match parsed {
                            Some(message) => {
                                if rest.len() >= 2 && rest[0] == DELIMITER_BYTE && rest[1]
                                    == DELIMITER_BYTE {
                                    drop_front(&mut rest, 2);
                                }
                                self.buffer = rest;
                                return Some(Ok(message));
                            },
                            None => {
                                self.buffer = rest;
                                return Some(
                                    Err(
                                        UshError::Decoding {
                                            message: String::from_str(
                                                "Failed to deserialize message",
                                            ),
                                        },
                                    ),
                                );
                            },
                        }
                    } else {
                        return None;
                    }
                },
                DecoderState::WaitingForEnd => {
                    if self.buffer.len() >= 2 {
                        if self.buffer[0] == DELIMITER_BYTE && self.buffer[1] == DELIMITER_BYTE {
                            drop_front(&mut self.buffer, 2);
                        } else {
                            drop_front(&mut self.buffer, 1);
                        }
                        self.state = DecoderState::WaitingForPreamble;
                    } else {
                        return None;
                    }
                },
            }
        }
    }

    /// Takes in `data` and hands out the messages that are now complete and
    /// keep the schema, in the order of their frames. Dropped are a body
    /// that is no message, a message whose checksum is wrong, and a message
    /// whose payload is longer than 1024 bytes or not as long as its header
    /// says. A buffer that has grown beyond 10000 bytes is cut down to its
    /// newest 5000, and the decoder waits for a preamble again.
    pub fn feed_data(&mut self, data: &[u8]) -> (messages: Vec<Message>)
        ensures
            (final(self)@, views(messages@)) == feed(old(self)@, data@),
            messages@.len() == feed(old(self)@, data@).1.len(),
            forall|i: int|
                0 <= i < messages@.len() ==> (#[trigger] messages@[i])@.well_formed(),
            final(self)@.buffer.len() <= BUFFER_LIMIT,
    {
        self.buffer.extend_from_slice(data);
        let ghost start = self@;
        proof {
            lemma_delivered_are_well_formed(start);
        }
        assert(start.buffer =~= old(self)@.buffer + data@);
        let mut messages: Vec<Message> = Vec::new();
        assert(views(messages@) =~= Seq::<MessageView>::empty());
        loop
            invariant_except_break
                run(start) == (run(self@).0, views(messages@) + run(self@).1),
            ensures
                run(start) == (self@, views(messages@)),
            decreases self@.buffer.len(), rank(self@.state),
        {
            let ghost here = self@;
            let ghost so_far = views(messages@);
            proof {
                lemma_attempt(here);
            }
            match self.try_decode_message() {
                None => {
                    proof {
                        assert(so_far + Seq::<MessageView>::empty() =~= so_far);
                    }
                    break ;
                },
                Some(Ok(message)) => {
                    let ghost body = Some(message@);
                    if message.is_well_formed() {
                        messages.push(message);
                        proof {
                            assert(views(messages@) =~= so_far + kept(body));
                        }
                    }
                    proof {
                        assert(so_far + (kept(body) + run(self@).1) =~= (so_far + kept(body))
                            + run(self@).1);
                    }
                },
                Some(Err(_)) => {
                    proof {
                        assert(so_far + (kept(None) + run(self@).1) =~= so_far + run(self@).1);
                    }
                },
            }
        }
        if self.buffer.len() > BUFFER_LIMIT {
            let surplus = self.buffer.len() - BUFFER_KEEP;
            drop_front(&mut self.buffer, surplus);
            self.state = DecoderState::WaitingForPreamble;
        }
        proof {
            assert forall|i: int| 0 <= i < messages@.len() implies (#[trigger] messages@[
                i
            ])@.well_formed() by {
                assert(views(messages@)[i] == messages@[i]@);
            }
        }
        messages
    }

    /// Forgets everything: the decoder is as new.
    pub fn reset(&mut self)
        ensures
            final(self)@ == fresh(),
    {
        self.buffer.clear();
        self.state = DecoderState::WaitingForPreamble;
        self.expected_length = 0;
    }
}

impl Default for ProtocolDecoder {
    fn default() -> (decoder: Self)
        ensures
            decoder@ == fresh(),
    {
        ProtocolDecoder::new()
    }
}

} // verus!
