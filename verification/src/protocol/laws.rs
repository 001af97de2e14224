//! What holds of encoder and decoder together.

use crate::checksum::{crc32, lemma_crc32_detects_byte};
use crate::protocol::ascii::{all_ascii, lemma_message_is_ascii};
use crate::protocol::decoder::{
    delimiter_at,
    feed,
    first_preamble,
    fresh,
    kept,
    leads,
    preamble_at,
    run,
    step,
    DecoderState,
    DecoderView,
    Progress,
    MAX_EXPECTED_LENGTH,
};
use crate::protocol::frame::{
    delimiter,
    frame,
    length_field,
    preamble,
    DELIMITER_BYTE,
    FRAME_OVERHEAD,
    MAX_BODY_LENGTH,
    PREAMBLE_BYTE,
};
use crate::protocol::message::{composed, MessageType, MessageView, MAX_MESSAGE_LENGTH};
use crate::protocol::reader::read_message;
use crate::protocol::roundtrip::lemma_read_message_complete;
use crate::protocol::schema::{header_bytes, message_bytes};
use crate::protocol::size::lemma_message_length;
use vstd::prelude::*;
use vstd::utf8::{decode_utf8, encode_utf8, valid_utf8};

verus! {

/// The place where the preamble stands first is the first preamble.
pub proof fn lemma_first_preamble(buffer: Seq<u8>, i: int)
    requires
        leads(buffer, i),
    ensures
        first_preamble(buffer) == Some(i),
{
    let chosen = first_preamble(buffer)->0;
    assert(leads(buffer, chosen));
}

/// A buffer without a preamble has no first preamble.
pub proof fn lemma_no_preamble(buffer: Seq<u8>)
    requires
        forall|i: int| !preamble_at(buffer, i),
    ensures
        first_preamble(buffer) is None,
{
}

/// The bytes of a frame, field by field.
pub proof fn lemma_frame_shape(body: Seq<u8>)
    requires
        body.len() <= MAX_BODY_LENGTH,
    ensures
        frame(body).len() == body.len() + FRAME_OVERHEAD,
        forall|i: int| 0 <= i < 8 ==> frame(body)[i] == PREAMBLE_BYTE,
        frame(body)[8] == DELIMITER_BYTE,
        frame(body)[9] == DELIMITER_BYTE,
        frame(body)[10] * 256 + frame(body)[11] == body.len(),
        frame(body).subrange(12, 12 + body.len() as int) == body,
        frame(body)[12 + body.len() as int] == DELIMITER_BYTE,
        frame(body)[13 + body.len() as int] == DELIMITER_BYTE,
{
    let f = frame(body);
    let n = body.len() as int;
    assert(preamble().len() == 8);
    assert(delimiter().len() == 2);
    assert(length_field(n as nat).len() == 2);
    assert forall|i: int| 0 <= i < 8 implies f[i] == PREAMBLE_BYTE by {
        assert(f[i] == preamble()[i]);
    }
    assert(f[8] == delimiter()[0]);
    assert(f[9] == delimiter()[1]);
    assert(f[10] == length_field(n as nat)[0]);
    assert(f[11] == length_field(n as nat)[1]);
    assert(f.subrange(12, 12 + n) =~= body);
    assert(f[12 + n] == delimiter()[0]);
    assert(f[13 + n] == delimiter()[1]);
}

/// A message that a frame can carry to the decoder: it keeps the schema, and
/// its serialized form is no longer than the decoder reads.
pub open spec fn deliverable(m: MessageView) -> bool {
    m.well_formed() && message_bytes(m).len() <= MAX_EXPECTED_LENGTH
}

/// The frame that carries `m`.
pub open spec fn frame_of(m: MessageView) -> Seq<u8> {
    frame(message_bytes(m))
}

/// Whether `body` is read as `m` and is no longer than the decoder reads.
pub open spec fn carries(body: Seq<u8>, m: MessageView) -> bool {
    &&& read_message(body) == Some(m)
    &&& body.len() <= MAX_EXPECTED_LENGTH
}

/// Where the decoder rests after the first `k` bytes of the frame around
/// `body` arrived, in whatever pieces: `delivered` says whether the message
/// was handed out.
pub open spec fn resting(body: Seq<u8>, k: int, d: DecoderView, delivered: bool) -> bool {
    let f = frame(body);
    let n = body.len() as int;
    if delivered {
        &&& 12 + n <= k
        &&& d.state == DecoderState::WaitingForPreamble
        &&& d.buffer.len() <= k - (12 + n)
    } else if k < 8 {
        d.state == DecoderState::WaitingForPreamble && d.buffer == f.subrange(0, k)
    } else if k < 10 {
        d.state == DecoderState::WaitingForStart && d.buffer == f.subrange(0, k)
    } else if k < 12 {
        d.state == DecoderState::ReadingLength && d.buffer == f.subrange(10, k)
    } else {
        &&& k < 12 + n
        &&& d.state == DecoderState::ReadingMessage
        &&& d.expected_length == n
        &&& d.buffer == f.subrange(12, k)
    }
}

/// What a run comes to that ends with the first `k` bytes of the frame
/// around `body` taken in: what is kept of the message, exactly if the body
/// is complete.
pub open spec fn settles(body: Seq<u8>, m: MessageView, k: int, d: DecoderView) -> bool {
    let n = body.len() as int;
    if k >= 12 + n {
        &&& run(d).1 == kept(Some(m))
        &&& resting(body, k, run(d).0, true)
        &&& k == 14 + n ==> run(d).0.buffer.len() == 0
    } else {
        run(d).1 == Seq::<MessageView>::empty() && resting(body, k, run(d).0, false)
    }
}

/// A decoder that waits for a preamble and holds fewer than eight bytes
/// stays as it is.
proof fn lemma_short_buffer_stalls(d: DecoderView)
    requires
        d.state == DecoderState::WaitingForPreamble,
        d.buffer.len() < 8,
    ensures
        run(d) == (d, Seq::<MessageView>::empty()),
{
    lemma_no_preamble(d.buffer);
}

/// From the body on.
proof fn lemma_settles_reading_message(body: Seq<u8>, m: MessageView, k: int, d: DecoderView)
    requires
        carries(body, m),
        12 <= k <= frame(body).len(),
        d.state == DecoderState::ReadingMessage,
        d.expected_length == body.len(),
        d.buffer == frame(body).subrange(12, k),
    ensures
        settles(body, m, k, d),
{
    let n = body.len() as int;
    let f = frame(body);
    lemma_frame_shape(body);
    if k >= 12 + n {
        let len = d.buffer.len() as int;
        let rest = d.buffer.subrange(n, len);
        assert(d.buffer.subrange(0, n) =~= body);
        assert(rest =~= f.subrange(12 + n, k));
        let next = match step(d) {
            Progress::Produced(next, _) => next,
            _ => d,
        };
        assert(step(d) == Progress::Produced(next, Some(m)));
        if k == 14 + n {
            assert(rest[0] == f[12 + n]);
            assert(rest[1] == f[13 + n]);
            assert(delimiter_at(rest, 0));
        } else {
            assert(!delimiter_at(rest, 0));
        }
        assert(next.buffer.len() <= k - (12 + n));
        lemma_short_buffer_stalls(next);
        assert(kept(Some(m)) + Seq::<MessageView>::empty() =~= kept(Some(m)));
    }
}

/// From the length field on.
proof fn lemma_settles_reading_length(body: Seq<u8>, m: MessageView, k: int, d: DecoderView)
    requires
        carries(body, m),
        10 <= k <= frame(body).len(),
        d.state == DecoderState::ReadingLength,
        d.buffer == frame(body).subrange(10, k),
    ensures
        settles(body, m, k, d),
{
    let n = body.len() as int;
    let f = frame(body);
    lemma_frame_shape(body);
    if k >= 12 {
        assert(d.buffer[0] == f[10]);
        assert(d.buffer[1] == f[11]);
        let next = DecoderView {
            buffer: d.buffer.subrange(2, d.buffer.len() as int),
            state: DecoderState::ReadingMessage,
            expected_length: n as nat,
        };
        assert(step(d) == Progress::Moved(next));
        assert(next.buffer =~= f.subrange(12, k));
        lemma_settles_reading_message(body, m, k, next);
    }
}

/// From the start delimiter on.
proof fn lemma_settles_waiting_for_start(body: Seq<u8>, m: MessageView, k: int, d: DecoderView)
    requires
        carries(body, m),
        8 <= k <= frame(body).len(),
        d.state == DecoderState::WaitingForStart,
        d.buffer == frame(body).subrange(0, k),
    ensures
        settles(body, m, k, d),
{
    let f = frame(body);
    lemma_frame_shape(body);
    if k >= 10 {
        assert(d.buffer[8] == f[8]);
        assert(d.buffer[9] == f[9]);
        let next = DecoderView {
            buffer: d.buffer.subrange(10, d.buffer.len() as int),
            state: DecoderState::ReadingLength,
            ..d
        };
        assert(step(d) == Progress::Moved(next));
        assert(next.buffer =~= f.subrange(10, k));
        lemma_settles_reading_length(body, m, k, next);
    }
}

/// From the beginning of the frame.
proof fn lemma_settles_waiting_for_preamble(body: Seq<u8>, m: MessageView, k: int, d: DecoderView)
    requires
        carries(body, m),
        0 <= k <= frame(body).len(),
        d.state == DecoderState::WaitingForPreamble,
        d.buffer == frame(body).subrange(0, k),
    ensures
        settles(body, m, k, d),
{
    let f = frame(body);
    lemma_frame_shape(body);
    if k >= 8 {
        assert forall|i: int| 0 <= i < 8 implies d.buffer[i] == PREAMBLE_BYTE by {
            assert(d.buffer[i] == f[i]);
        }
        assert(leads(d.buffer, 0));
        lemma_first_preamble(d.buffer, 0);
        let next = DecoderView {
            buffer: d.buffer.subrange(0, d.buffer.len() as int),
            state: DecoderState::WaitingForStart,
            ..d
        };
        assert(step(d) == Progress::Moved(next));
        assert(next.buffer =~= f.subrange(0, k));
        lemma_settles_waiting_for_start(body, m, k, next);
    } else {
        lemma_short_buffer_stalls(d);
    }
}

/// One feeding of the next piece of the frame around `body`: the decoder
/// goes from where it rests after `k` bytes to where it rests after `k2`,
/// and hands out what is kept of `m` exactly when the piece completes the
/// body.
proof fn lemma_feed_piece(
    body: Seq<u8>,
    m: MessageView,
    k: int,
    k2: int,
    d: DecoderView,
    delivered: bool,
)
    requires
        carries(body, m),
        0 <= k <= k2 <= frame(body).len(),
        resting(body, k, d, delivered),
    ensures
        ({
            let piece = frame(body).subrange(k, k2);
            let complete = k2 >= 12 + body.len();
            &&& resting(body, k2, feed(d, piece).0, delivered || complete)
            &&& feed(d, piece).1 == if !delivered && complete {
                kept(Some(m))
            } else {
                Seq::<MessageView>::empty()
            }
        }),
{
    let f = frame(body);
    let piece = f.subrange(k, k2);
    let fed = DecoderView { buffer: d.buffer + piece, ..d };
    lemma_frame_shape(body);
    if delivered {
        lemma_short_buffer_stalls(fed);
    } else if k < 8 {
        assert(fed.buffer =~= f.subrange(0, k2));
        lemma_settles_waiting_for_preamble(body, m, k2, fed);
    } else if k < 10 {
        assert(fed.buffer =~= f.subrange(0, k2));
        lemma_settles_waiting_for_start(body, m, k2, fed);
    } else if k < 12 {
        assert(fed.buffer =~= f.subrange(10, k2));
        lemma_settles_reading_length(body, m, k2, fed);
    } else {
        assert(fed.buffer =~= f.subrange(12, k2));
        lemma_settles_reading_message(body, m, k2, fed);
    }
}

/// A message is carried by its serialized form, where that is no longer
/// than the decoder reads.
proof fn lemma_carried(m: MessageView)
    requires
        message_bytes(m).len() <= MAX_EXPECTED_LENGTH,
    ensures
        carries(message_bytes(m), m),
{
    lemma_read_message_complete(m);
}

/// What comes of the frame of any message whose serialized form the decoder
/// reads, fed to a decoder that has seen nothing: the message if it keeps
/// the schema, and nothing if it does not. Nothing is left in the decoder.
pub proof fn lemma_frame_outcome(m: MessageView)
    requires
        message_bytes(m).len() <= MAX_EXPECTED_LENGTH,
    ensures
        feed(fresh(), frame_of(m)).1 == kept(Some(m)),
        feed(fresh(), frame_of(m)).0.state == DecoderState::WaitingForPreamble,
        feed(fresh(), frame_of(m)).0.buffer.len() == 0,
{
    let body = message_bytes(m);
    let f = frame(body);
    lemma_carried(m);
    lemma_frame_shape(body);
    let fed = DecoderView { buffer: fresh().buffer + f, ..fresh() };
    assert(fed.buffer =~= f.subrange(0, f.len() as int));
    lemma_settles_waiting_for_preamble(body, m, f.len() as int, fed);
}

/// A frame fed to a decoder that has seen nothing comes out as its message,
/// and nothing is left in the decoder.
pub proof fn lemma_frame_round_trip(m: MessageView)
    requires
        deliverable(m),
    ensures
        feed(fresh(), frame_of(m)).1 == seq![m],
        feed(fresh(), frame_of(m)).0.state == DecoderState::WaitingForPreamble,
        feed(fresh(), frame_of(m)).0.buffer.len() == 0,
{
    lemma_frame_outcome(m);
}

/// The frame of a message that breaks the schema gives nothing, though its
/// checksum may be right: a payload that is not as long as the header says,
/// or longer than the limit, is never handed out.
pub proof fn lemma_malformed_frame_dropped(m: MessageView)
    requires
        !m.well_formed(),
        message_bytes(m).len() <= MAX_EXPECTED_LENGTH,
    ensures
        feed(fresh(), frame_of(m)).1 == Seq::<MessageView>::empty(),
{
    lemma_frame_outcome(m);
}

/// After the first byte of its length field, the frame around an ASCII body
/// holds no preamble.
proof fn lemma_no_preamble_in_frame(body: Seq<u8>)
    requires
        body.len() <= MAX_BODY_LENGTH,
        all_ascii(body),
    ensures
        forall|i: int| !preamble_at(frame(body).subrange(11, frame(body).len() as int), i),
{
    let f = frame(body);
    let n = body.len() as int;
    let tail = f.subrange(11, f.len() as int);
    lemma_frame_shape(body);
    assert forall|i: int| !preamble_at(tail, i) by {
        if preamble_at(tail, i) {
            let at = 12 + i;
            assert(tail[i + 1] == f[at]);
            if at < 12 + n {
                assert(f[at] == f.subrange(12, 12 + n)[at - 12]);
                assert(body[at - 12] < 128);
            }
        }
    }
}

/// From the beginning of a frame whose body is longer than the decoder
/// reads: the length is taken for noise, and nothing after it is a preamble.
proof fn lemma_overlong_body_dropped(body: Seq<u8>, d: DecoderView)
    requires
        MAX_EXPECTED_LENGTH < body.len() <= MAX_BODY_LENGTH,
        all_ascii(body),
        d.state == DecoderState::WaitingForPreamble,
        d.buffer == frame(body),
    ensures
        run(d).1 == Seq::<MessageView>::empty(),
{
    let f = frame(body);
    let n = body.len() as int;
    let len = f.len() as int;
    lemma_frame_shape(body);
    assert(leads(f, 0));
    lemma_first_preamble(f, 0);
    let d1 = DecoderView {
        buffer: f.subrange(0, len),
        state: DecoderState::WaitingForStart,
        ..d
    };
    assert(step(d) == Progress::Moved(d1));
    assert(run(d) == run(d1));
    assert(d1.buffer =~= f);
    let d2 = DecoderView {
        buffer: f.subrange(10, len),
        state: DecoderState::ReadingLength,
        ..d1
    };
    assert(step(d1) == Progress::Moved(d2));
    assert(run(d1) == run(d2));
    assert(d2.buffer[0] == f[10]);
    assert(d2.buffer[1] == f[11]);
    let d3 = DecoderView {
        buffer: d2.buffer.subrange(1, d2.buffer.len() as int),
        state: DecoderState::WaitingForPreamble,
        expected_length: n as nat,
    };
    assert(step(d2) == Progress::Moved(d3));
    assert(run(d2) == run(d3));
    assert(d3.buffer =~= f.subrange(11, len));
    lemma_no_preamble_in_frame(body);
    lemma_no_preamble(d3.buffer);
}

/// The frame of a message whose serialized form is longer than the decoder
/// reads gives nothing: the decoder takes its length for noise, and finds no
/// preamble in what follows.
pub proof fn lemma_overlong_frame_dropped(m: MessageView)
    requires
        MAX_EXPECTED_LENGTH < message_bytes(m).len() <= MAX_BODY_LENGTH,
    ensures
        feed(fresh(), frame_of(m)).1 == Seq::<MessageView>::empty(),
{
    let body = message_bytes(m);
    lemma_message_is_ascii(m);
    let fed = DecoderView { buffer: fresh().buffer + frame(body), ..fresh() };
    assert(fed.buffer =~= frame(body));
    lemma_overlong_body_dropped(body, fed);
}

/// What comes of the frame of a text message, for every text within the
/// limit of 1024 bytes: a decoder that has seen nothing hands out that one
/// message, whose payload decodes to `text`, if the serialized message is no
/// longer than the decoder reads, and nothing if it is longer.
pub proof fn lemma_text_frame_outcome(text: Seq<char>, sequence_number: u32, timestamp: u64)
    requires
        encode_utf8(text).len() <= MAX_MESSAGE_LENGTH,
    ensures
        ({
            let m = composed(MessageType::Text, encode_utf8(text), sequence_number, timestamp);
            &&& feed(fresh(), frame_of(m)).1 == if message_bytes(m).len()
                <= MAX_EXPECTED_LENGTH {
                seq![m]
            } else {
                Seq::<MessageView>::empty()
            }
            &&& m.well_formed()
            &&& m.header.message_type == MessageType::Text
            &&& valid_utf8(m.payload)
            &&& decode_utf8(m.payload) == text
        }),
{
    let m = composed(MessageType::Text, encode_utf8(text), sequence_number, timestamp);
    lemma_message_length(m);
    if message_bytes(m).len() <= MAX_EXPECTED_LENGTH {
        lemma_frame_round_trip(m);
    } else {
        lemma_overlong_frame_dropped(m);
    }
    vstd::utf8::encode_utf8_valid_utf8(text);
    vstd::utf8::encode_utf8_decode_utf8(text);
}

/// The pieces of a byte sequence, put together again.
pub open spec fn joined(pieces: Seq<Seq<u8>>) -> Seq<u8>
    decreases pieces.len(),
{
    if pieces.len() == 0 {
        Seq::<u8>::empty()
    } else {
        pieces[0] + joined(pieces.drop_first())
    }
}

/// Feeding the pieces one after the other: the decoder after the last, and
/// all the messages handed out on the way.
pub open spec fn feed_all(d: DecoderView, pieces: Seq<Seq<u8>>) -> (DecoderView, Seq<MessageView>)
    decreases pieces.len(),
{
    if pieces.len() == 0 {
        (d, Seq::<MessageView>::empty())
    } else {
        let (next, first) = feed(d, pieces[0]);
        let (last, others) = feed_all(next, pieces.drop_first());
        (last, first + others)
    }
}

proof fn lemma_feed_pieces(
    body: Seq<u8>,
    m: MessageView,
    k: int,
    d: DecoderView,
    delivered: bool,
    pieces: Seq<Seq<u8>>,
)
    requires
        carries(body, m),
        0 <= k <= frame(body).len(),
        resting(body, k, d, delivered),
        joined(pieces) == frame(body).subrange(k, frame(body).len() as int),
    ensures
        feed_all(d, pieces).1 == if delivered {
            Seq::<MessageView>::empty()
        } else {
            kept(Some(m))
        },
    decreases pieces.len(),
{
    let f = frame(body);
    let n = body.len() as int;
    lemma_frame_shape(body);
    if pieces.len() == 0 {
        assert(f.subrange(k, f.len() as int).len() == 0);
    } else {
        let piece = pieces[0];
        let others = pieces.drop_first();
        let k2 = k + piece.len();
        let tail = f.subrange(k, f.len() as int);
        assert(tail.len() == piece.len() + joined(others).len());
        assert(piece =~= tail.subrange(0, piece.len() as int));
        assert(piece =~= f.subrange(k, k2));
        assert(joined(others) =~= tail.subrange(piece.len() as int, tail.len() as int));
        assert(joined(others) =~= f.subrange(k2, f.len() as int));
        lemma_feed_piece(body, m, k, k2, d, delivered);
        let complete = k2 >= 12 + n;
        let next = feed(d, piece).0;
        lemma_feed_pieces(body, m, k2, next, delivered || complete, others);
        let first = feed(d, piece).1;
        let rest = feed_all(next, others).1;
        assert(feed_all(d, pieces).1 == first + rest);
        if delivered {
            assert(first + rest =~= Seq::<MessageView>::empty());
        } else {
            assert(first + rest =~= kept(Some(m)));
        }
    }
}

/// However a frame is cut into pieces, feeding the pieces one after the
/// other to a decoder that has seen nothing hands out its message once, as
/// feeding the whole frame does.
pub proof fn lemma_chunked_feeding(m: MessageView, pieces: Seq<Seq<u8>>)
    requires
        deliverable(m),
        joined(pieces) == frame_of(m),
    ensures
        feed_all(fresh(), pieces).1 == seq![m],
        feed_all(fresh(), pieces).1 == feed(fresh(), frame_of(m)).1,
{
    let body = message_bytes(m);
    let f = frame(body);
    lemma_carried(m);
    assert(fresh().buffer =~= f.subrange(0, 0));
    assert(f.subrange(0, f.len() as int) =~= f);
    lemma_feed_pieces(body, m, 0, fresh(), false, pieces);
    lemma_frame_round_trip(m);
}

/// Where a preamble stands, one stands first at or before that place.
proof fn lemma_least_preamble(buffer: Seq<u8>, i: int)
    requires
        preamble_at(buffer, i),
    ensures
        first_preamble(buffer) is Some,
        leads(buffer, first_preamble(buffer)->0),
        first_preamble(buffer)->0 <= i,
    decreases i,
{
    if forall|j: int| 0 <= j < i ==> !preamble_at(buffer, j) {
        assert(leads(buffer, i));
        lemma_first_preamble(buffer, i);
    } else {
        let j = choose|j: int| 0 <= j < i && preamble_at(buffer, j);
        lemma_least_preamble(buffer, j);
    }
}

/// In bytes without a preamble followed by bytes that begin with one, the
/// first preamble begins among the last seven of the former, or with the
/// latter; in the first case no delimiter follows it.
proof fn lemma_preamble_after_junk(junk: Seq<u8>, f: Seq<u8>)
    requires
        forall|i: int| !preamble_at(junk, i),
        preamble_at(f, 0),
        f.len() >= 10,
    ensures
        first_preamble(junk + f) is Some,
        junk.len() - 7 <= first_preamble(junk + f)->0 <= junk.len(),
        0 <= first_preamble(junk + f)->0,
        first_preamble(junk + f)->0 < junk.len() ==> (junk + f)[first_preamble(junk + f)->0 + 8]
            == PREAMBLE_BYTE,
{
    let b = junk + f;
    let at = junk.len() as int;
    assert forall|i: int| at <= i < at + 8 implies #[trigger] b[i] == PREAMBLE_BYTE by {
        assert(b[i] == f[i - at]);
    }
    assert(preamble_at(b, at));
    lemma_least_preamble(b, at);
    let p = first_preamble(b)->0;
    if p < at {
        if at - p >= 8 {
            assert forall|i: int| p <= i < p + 8 implies #[trigger] junk[i] == PREAMBLE_BYTE by {
                assert(junk[i] == b[i]);
            }
            assert(preamble_at(junk, p));
        }
        assert(b[p + 8] == f[p + 8 - at]);
    }
}

/// A part of bytes without a preamble has none either.
proof fn lemma_part_without_preamble(junk: Seq<u8>, from: int)
    requires
        forall|i: int| !preamble_at(junk, i),
        0 <= from <= junk.len(),
    ensures
        forall|i: int| !preamble_at(junk.subrange(from, junk.len() as int), i),
{
    let part = junk.subrange(from, junk.len() as int);
    assert forall|i: int| !preamble_at(part, i) by {
        if preamble_at(part, i) {
            assert forall|j: int| from + i <= j < from + i + 8 implies #[trigger] junk[j]
                == PREAMBLE_BYTE by {
                assert(part[j - from] == junk[j]);
            }
            assert(preamble_at(junk, from + i));
        }
    }
}

/// The decoder's move from bytes without a preamble followed by a frame: to
/// the frame itself, or to fewer such bytes followed by the frame.
proof fn lemma_move_past_junk(f: Seq<u8>, junk: Seq<u8>, d: DecoderView) -> (shorter: Seq<u8>)
    requires
        forall|i: int| !preamble_at(junk, i),
        preamble_at(f, 0),
        f.len() >= 10,
        d.state == DecoderState::WaitingForPreamble,
        d.buffer == junk + f,
    ensures
        forall|i: int| !preamble_at(shorter, i),
        shorter.len() <= junk.len(),
        run(d) == run(
            DecoderView { buffer: shorter + f, state: DecoderState::WaitingForStart, ..d },
        ) && shorter.len() == 0 || run(d) == run(
            DecoderView { buffer: shorter + f, state: DecoderState::WaitingForPreamble, ..d },
        ) && shorter.len() < junk.len(),
{
    let b = d.buffer;
    let len = b.len() as int;
    let at = junk.len() as int;
    lemma_preamble_after_junk(junk, f);
    let p = first_preamble(b)->0;
    let d1 = DecoderView {
        buffer: b.subrange(p, len),
        state: DecoderState::WaitingForStart,
        ..d
    };
    assert(step(d) == Progress::Moved(d1));
    assert(run(d) == run(d1));
    if p == at {
        let shorter = Seq::<u8>::empty();
        assert(d1.buffer =~= shorter + f);
        shorter
    } else {
        assert(d1.buffer[8] == b[p + 8]);
        assert(!delimiter_at(d1.buffer, 8));
        let shorter = junk.subrange(p + 1, at);
        let d2 = DecoderView {
            buffer: d1.buffer.subrange(1, d1.buffer.len() as int),
            state: DecoderState::WaitingForPreamble,
            ..d1
        };
        assert(step(d1) == Progress::Moved(d2));
        assert(run(d1) == run(d2));
        assert(d2.buffer =~= shorter + f);
        lemma_part_without_preamble(junk, p + 1);
        shorter
    }
}

/// Bytes before a frame that hold no preamble are passed over.
proof fn lemma_run_past_junk(body: Seq<u8>, m: MessageView, junk: Seq<u8>, d: DecoderView)
    requires
        carries(body, m),
        forall|i: int| !preamble_at(junk, i),
        d.state == DecoderState::WaitingForPreamble,
        d.buffer == junk + frame(body),
    ensures
        run(d).1 == kept(Some(m)),
    decreases junk.len(),
{
    let f = frame(body);
    lemma_frame_shape(body);
    assert(preamble_at(f, 0));
    let shorter = lemma_move_past_junk(f, junk, d);
    if shorter.len() == 0 {
        let next = DecoderView {
            buffer: shorter + f,
            state: DecoderState::WaitingForStart,
            ..d
        };
        if run(d) == run(next) {
            assert(next.buffer =~= f.subrange(0, f.len() as int));
            lemma_settles_waiting_for_start(body, m, f.len() as int, next);
        } else {
            let again = DecoderView {
                buffer: shorter + f,
                state: DecoderState::WaitingForPreamble,
                ..d
            };
            lemma_run_past_junk(body, m, shorter, again);
        }
    } else {
        let again = DecoderView {
            buffer: shorter + f,
            state: DecoderState::WaitingForPreamble,
            ..d
        };
        lemma_run_past_junk(body, m, shorter, again);
    }
}

/// Bytes that hold no preamble, put before a frame, change nothing: the
/// decoder passes over them and hands out the frame's message.
pub proof fn lemma_resynchronization(m: MessageView, junk: Seq<u8>)
    requires
        deliverable(m),
        forall|i: int| !preamble_at(junk, i),
    ensures
        feed(fresh(), junk + frame_of(m)).1 == seq![m],
        feed(fresh(), junk + frame_of(m)).1 == feed(fresh(), frame_of(m)).1,
{
    let body = message_bytes(m);
    lemma_carried(m);
    let fed = DecoderView { buffer: fresh().buffer + (junk + frame(body)), ..fresh() };
    assert(fed.buffer =~= junk + frame(body));
    lemma_run_past_junk(body, m, junk, fed);
    lemma_frame_round_trip(m);
}

/// The checksum covers every byte of the serialized header and of the
/// payload: after a change of any one of them, the checksum that was right
/// is wrong.
pub proof fn lemma_covered_byte_detected(m: MessageView, at: int, byte: u8)
    requires
        m.intact(),
        0 <= at < header_bytes(m.header).len() + m.payload.len(),
        byte != (header_bytes(m.header) + m.payload)[at],
    ensures
        crc32((header_bytes(m.header) + m.payload).update(at, byte)) != m.checksum,
{
    lemma_crc32_detects_byte(header_bytes(m.header) + m.payload, at, byte);
}

/// A message whose checksum is right, with one byte of its payload changed,
/// is a message whose checksum is wrong.
pub proof fn lemma_payload_change_detected(m: MessageView, at: int, byte: u8)
    requires
        m.intact(),
        0 <= at < m.payload.len(),
        byte != m.payload[at],
    ensures
        !(MessageView { payload: m.payload.update(at, byte), ..m }).intact(),
{
    let covered = header_bytes(m.header) + m.payload;
    let shifted = header_bytes(m.header).len() + at;
    assert(covered.update(shifted, byte) =~= header_bytes(m.header) + m.payload.update(at, byte));
    lemma_crc32_detects_byte(covered, shifted, byte);
}

} // verus!
