//! Reading a serialized message back. The readers here say, as
//! specifications, what is read at a position of a byte sequence; the
//! scanners compute exactly that.

use crate::protocol::decimal::{
    decimal_digits,
    lemma_decimal_digits,
    lemma_number_at_unique,
    number_at,
    scan_number,
};
use crate::protocol::message::{Message, MessageHeader, MessageType, MessageView};
use crate::protocol::roundtrip::{lemma_read_message_complete, lemma_read_message_sound};
use crate::protocol::schema::{
    closing_brace,
    key_checksum,
    key_header,
    key_message_type,
    key_payload,
    key_payload_length,
    key_sequence_number,
    key_timestamp,
    key_version,
    message_bytes,
    type_tag,
    CLOSING_BRACKET,
    COMMA,
};
use vstd::prelude::*;
use vstd::string::*;

verus! {

/// Whether `literal` stands in `s` at `pos`.
pub open spec fn literal_at(s: Seq<u8>, pos: int, literal: Seq<u8>) -> bool {
    &&& 0 <= pos
    &&& pos + literal.len() <= s.len()
    &&& s.subrange(pos, pos + literal.len()) == literal
}

/// The position after `literal`, where it stands at `pos`.
pub open spec fn skip(s: Seq<u8>, pos: Option<int>, literal: Seq<u8>) -> Option<int> {
    match pos {
        Some(p) => if literal_at(s, p, literal) {
            Some(p + literal.len())
        } else {
            None
        },
        None => None,
    }
}

/// Whether the notation of a number of at most `max` stands and ends at `pos`.
pub open spec fn has_number(s: Seq<u8>, pos: int, max: nat) -> bool {
    exists|n: nat| n <= max && #[trigger] number_at(s, pos, n)
}

/// The number of at most `max` whose notation stands and ends at `pos`.
pub open spec fn the_number(s: Seq<u8>, pos: int, max: nat) -> nat {
    choose|n: nat| n <= max && #[trigger] number_at(s, pos, n)
}

/// The number of at most `max` whose notation stands and ends at `pos`, with
/// the position after it.
pub open spec fn read_number(s: Seq<u8>, pos: Option<int>, max: nat) -> Option<(nat, int)> {
    match pos {
        Some(p) => if has_number(s, p, max) {
            Some((the_number(s, p, max), p + decimal_digits(the_number(s, p, max)).len()))
        } else {
            None
        },
        None => None,
    }
}

/// The kind of message whose name stands at `pos`, with the position after it.
pub open spec fn read_tag(s: Seq<u8>, pos: Option<int>) -> Option<(MessageType, int)> {
    match pos {
        Some(p) => if literal_at(s, p, type_tag(MessageType::Text)) {
            Some((MessageType::Text, p + type_tag(MessageType::Text).len()))
        } else if literal_at(s, p, type_tag(MessageType::File)) {
            Some((MessageType::File, p + type_tag(MessageType::File).len()))
        } else if literal_at(s, p, type_tag(MessageType::Ack)) {
            Some((MessageType::Ack, p + type_tag(MessageType::Ack).len()))
        } else if literal_at(s, p, type_tag(MessageType::Ping)) {
            Some((MessageType::Ping, p + type_tag(MessageType::Ping).len()))
        } else {
            None
        },
        None => None,
    }
}

/// Where a reading ended, if it succeeded.
pub open spec fn end_of<T>(reading: Option<(T, int)>) -> Option<int> {
    match reading {
        Some((_, end)) => Some(end),
        None => None,
    }
}

/// What a reading found, where it succeeded.
pub open spec fn value_of<T>(reading: Option<(T, int)>) -> T {
    match reading {
        Some((value, _)) => value,
        None => arbitrary(),
    }
}

/// The header serialized at `pos`, with the position after it.
pub open spec fn read_header(s: Seq<u8>, pos: Option<int>) -> Option<(MessageHeader, int)> {
    let version = read_number(s, skip(s, pos, key_version()), u8::MAX as nat);
    let kind = read_tag(s, skip(s, end_of(version), key_message_type()));
    let sequence = read_number(s, skip(s, end_of(kind), key_sequence_number()), u32::MAX as nat);
    let timestamp = read_number(s, skip(s, end_of(sequence), key_timestamp()), u64::MAX as nat);
    let length = read_number(s, skip(s, end_of(timestamp), key_payload_length()), u16::MAX as nat);
    match skip(s, end_of(length), closing_brace()) {
        Some(end) => Some(
            (
                MessageHeader {
                    version: value_of(version) as u8,
                    message_type: value_of(kind),
                    sequence_number: value_of(sequence) as u32,
                    timestamp: value_of(timestamp) as u64,
                    payload_length: value_of(length) as u16,
                },
                end,
            ),
        ),
        None => None,
    }
}

/// The items of a list that is not empty, from `pos` up to the first number
/// that no comma follows, with the position after that number.
pub open spec fn read_items(s: Seq<u8>, pos: int) -> Option<(Seq<u8>, int)>
    decreases s.len() - pos,
{
    match read_number(s, Some(pos), u8::MAX as nat) {
        None => None,
        Some((value, end)) => if pos < end < s.len() && s[end] == COMMA {
            match read_items(s, end + 1) {
                None => None,
                Some((rest, stop)) => Some((seq![value as u8] + rest, stop)),
            }
        } else {
            Some((seq![value as u8], end))
        },
    }
}

/// The payload whose list stands at `pos`, after the opening bracket, with
/// the position of the closing bracket.
pub open spec fn read_list(s: Seq<u8>, pos: Option<int>) -> Option<(Seq<u8>, int)> {
    match pos {
        Some(p) => if 0 <= p < s.len() && s[p] == CLOSING_BRACKET {
            Some((Seq::<u8>::empty(), p))
        } else {
            read_items(s, p)
        },
        None => None,
    }
}

/// The message that `s` serializes, if it serializes one.
#[verifier::opaque]
pub open spec fn read_message(s: Seq<u8>) -> Option<MessageView> {
    let header = read_header(s, skip(s, Some(0int), key_header()));
    let payload = read_list(s, skip(s, end_of(header), key_payload()));
    let checksum = read_number(s, skip(s, end_of(payload), key_checksum()), u32::MAX as nat);
    match skip(s, end_of(checksum), closing_brace()) {
        Some(end) => if end == s.len() {
            Some(
                MessageView {
                    header: value_of(header),
                    payload: value_of(payload),
                    checksum: value_of(checksum) as u32,
                },
            )
        } else {
            None
        },
        None => None,
    }
}

/// The position after `literal`, if it stands in `buf` at `pos`.
fn scan_literal(buf: &[u8], pos: usize, literal: &[u8]) -> (res: Option<usize>)
    ensures
        res == match skip(buf@, Some(pos as int), literal@) {
            Some(end) => Some(end as usize),
            None => None,
        },
        res is Some ==> skip(buf@, Some(pos as int), literal@) == Some(res->0 as int),
{
    let n = literal.len();
    if pos > buf.len() || n > buf.len() - pos {
        return None;
    }
    let mut i: usize = 0;
    while i < n
        invariant
            n == literal@.len(),
            pos + n <= buf.len(),
            i <= n,
            buf@.subrange(pos as int, pos + i) == literal@.subrange(0, i as int),
        decreases n - i,
    {
        if buf[pos + i] != literal[i] {
            proof {
                assert(buf@.subrange(pos as int, pos + n)[i as int] != literal@[i as int]);
            }
            return None;
        }
        proof {
            assert(buf@.subrange(pos as int, pos + i + 1) =~= buf@.subrange(
                pos as int,
                pos + i,
            ).push(buf@[pos + i]));
            assert(literal@.subrange(0, i + 1) =~= literal@.subrange(0, i as int).push(
                literal@[i as int],
            ));
        }
        i += 1;
    }
    proof {
        assert(literal@.subrange(0, n as int) =~= literal@);
    }
    Some(pos + n)
}

/// What [`read_number`] reads is the one number that stands there.
pub proof fn lemma_read_number(s: Seq<u8>, pos: int, max: nat, n: nat)
    requires
        n <= max,
        number_at(s, pos, n),
    ensures
        read_number(s, Some(pos), max) == Some((n, pos + decimal_digits(n).len())),
{
    assert(has_number(s, pos, max));
    let chosen = the_number(s, pos, max);
    assert(chosen <= max && number_at(s, pos, chosen));
    lemma_number_at_unique(s, pos, chosen, n);
}

/// The number of at most `max` at `pos`, with the position after it.
fn scan_field(buf: &[u8], pos: usize, max: u64) -> (res: Option<(u64, usize)>)
    ensures
        match res {
            Some((n, end)) => n <= max && read_number(buf@, Some(pos as int), max as nat) == Some(
                (n as nat, end as int),
            ),
            None => read_number(buf@, Some(pos as int), max as nat) is None,
        },
{
    let res = scan_number(buf, pos, max);
    proof {
        if let Some((n, end)) = res {
            lemma_read_number(buf@, pos as int, max as nat, n as nat);
        }
    }
    res
}

/// The kind of message named at `pos`, with the position after the name.
fn scan_tag(buf: &[u8], pos: usize) -> (res: Option<(MessageType, usize)>)
    ensures
        match res {
            Some((kind, end)) => read_tag(buf@, Some(pos as int)) == Some((kind, end as int)),
            None => read_tag(buf@, Some(pos as int)) is None,
        },
{
    if let Some(end) = scan_literal(buf, pos, "Text".as_bytes()) {
        return Some((MessageType::Text, end));
    }
    if let Some(end) = scan_literal(buf, pos, "File".as_bytes()) {
        return Some((MessageType::File, end));
    }
    if let Some(end) = scan_literal(buf, pos, "Ack".as_bytes()) {
        return Some((MessageType::Ack, end));
    }
    if let Some(end) = scan_literal(buf, pos, "Ping".as_bytes()) {
        return Some((MessageType::Ping, end));
    }
    None
}

/// The header serialized at `pos`, with the position after it.
pub fn scan_header(buf: &[u8], pos: usize) -> (res: Option<(MessageHeader, usize)>)
    ensures
        match res {
            Some((header, end)) => read_header(buf@, Some(pos as int)) == Some(
                (header, end as int),
            ),
            None => read_header(buf@, Some(pos as int)) is None,
        },
{
    let p = match scan_literal(buf, pos, "{\"version\":".as_bytes()) {
        Some(p) => p,
        None => { return None; },
    };
    let (version, p) = match scan_field(buf, p, 255) {
        Some(r) => r,
        None => { return None; },
    };
    let p = match scan_literal(buf, p, ",\"message_type\":\"".as_bytes()) {
        Some(p) => p,
        None => { return None; },
    };
    let (kind, p) = match scan_tag(buf, p) {
        Some(r) => r,
        None => { return None; },
    };
    let p = match scan_literal(buf, p, "\",\"sequence_number\":".as_bytes()) {
        Some(p) => p,
        None => { return None; },
    };
    let (sequence, p) = match scan_field(buf, p, 0xFFFF_FFFF) {
        Some(r) => r,
        None => { return None; },
    };
    let p = match scan_literal(buf, p, ",\"timestamp\":".as_bytes()) {
        Some(p) => p,
        None => { return None; },
    };
    let (timestamp, p) = match scan_field(buf, p, 0xFFFF_FFFF_FFFF_FFFF) {
        Some(r) => r,
        None => { return None; },
    };
    let p = match scan_literal(buf, p, ",\"payload_length\":".as_bytes()) {
        Some(p) => p,
        None => { return None; },
    };
    let (length, p) = match scan_field(buf, p, 0xFFFF) {
        Some(r) => r,
        None => { return None; },
    };
    let p = match scan_literal(buf, p, "}".as_bytes()) {
        Some(p) => p,
        None => { return None; },
    };
    Some(
        (
            MessageHeader {
                version: version as u8,
                message_type: kind,
                sequence_number: sequence as u32,
                timestamp,
                payload_length: length as u16,
            },
            p,
        ),
    )
}

/// `front` put before the items of a reading.
pub open spec fn with_front(front: Seq<u8>, reading: Option<(Seq<u8>, int)>) -> Option<
    (Seq<u8>, int),
> {
    match reading {
        Some((rest, stop)) => Some((front + rest, stop)),
        None => None,
    }
}

/// The payload listed at `pos`, with the position of the closing bracket.
fn scan_list(buf: &[u8], pos: usize) -> (res: Option<(Vec<u8>, usize)>)
    ensures
        match res {
            Some((payload, end)) => read_list(buf@, Some(pos as int)) == Some(
                (payload@, end as int),
            ),
            None => read_list(buf@, Some(pos as int)) is None,
        },
{
    let mut items: Vec<u8> = Vec::new();
    if pos >= buf.len() {
        proof {
            assert forall|n: nat| !number_at(buf@, pos as int, n) by {
                lemma_decimal_digits(n);
            }
        }
        return None;
    }
    if buf[pos] == CLOSING_BRACKET {
        return Some((items, pos));
    }
    let mut cur: usize = pos;
    let ghost goal = read_items(buf@, pos as int);
    proof {
        match goal {
            Some((rest, stop)) => {
                assert(items@ + rest =~= rest);
            },
            None => {},
        }
    }
    loop
        invariant
            goal == read_list(buf@, Some(pos as int)),
            goal == with_front(items@, read_items(buf@, cur as int)),
            cur <= buf@.len(),
        decreases buf@.len() - cur,
    {
        let ghost before = items@;
        match scan_field(buf, cur, 255) {
            None => {
                return None;
            },
            Some((value, end)) => {
                items.push(value as u8);
                proof {
                    lemma_decimal_digits(value as nat);
                }
                if end < buf.len() && buf[end] == COMMA {
                    proof {
                        match read_items(buf@, end + 1) {
                            Some((rest, stop)) => {
                                assert(before + (seq![value as u8] + rest) =~= items@ + rest);
                            },
                            None => {},
                        }
                    }
                    cur = end + 1;
                } else {
                    proof {
                        assert(before + seq![value as u8] =~= items@);
                    }
                    return Some((items, end));
                }
            },
        }
    }
}

/// Reads a serialized message back: the message whose serialized form is
/// `buf`, and nothing where `buf` is the serialized form of no message.
pub fn scan_message(buf: &[u8]) -> (res: Option<Message>)
    ensures
        match res {
            Some(message) => read_message(buf@) == Some(message@) && message_bytes(message@)
                == buf@,
            None => read_message(buf@) is None && forall|m: MessageView|
                #[trigger] message_bytes(m) != buf@,
        },
{
    let res = scan_fields(buf);
    proof {
        match &res {
            Some(message) => {
                lemma_read_message_sound(buf@);
            },
            None => {
                assert forall|m: MessageView| #[trigger] message_bytes(m) != buf@ by {
                    lemma_read_message_complete(m);
                }
            },
        }
    }
    res
}

/// The message whose fields stand in `buf` one after the other, from its
/// first byte to its last.
fn scan_fields(buf: &[u8]) -> (res: Option<Message>)
    ensures
        match res {
            Some(message) => read_message(buf@) == Some(message@),
            None => read_message(buf@) is None,
        },
{
    reveal(read_message);
    let p = match scan_literal(buf, 0, "{\"header\":".as_bytes()) {
        Some(p) => p,
        None => { return None; },
    };
    let (header, p) = match scan_header(buf, p) {
        Some(r) => r,
        None => { return None; },
    };
    let p = match scan_literal(buf, p, ",\"payload\":[".as_bytes()) {
        Some(p) => p,
        None => { return None; },
    };
    let (payload, p) = match scan_list(buf, p) {
        Some(r) => r,
        None => { return None; },
    };
    let p = match scan_literal(buf, p, "],\"checksum\":".as_bytes()) {
        Some(p) => p,
        None => { return None; },
    };
    let (checksum, p) = match scan_field(buf, p, 0xFFFF_FFFF) {
        Some(r) => r,
        None => { return None; },
    };
    let p = match scan_literal(buf, p, "}".as_bytes()) {
        Some(p) => p,
        None => { return None; },
    };
    if p != buf.len() {
        return None;
    }
    Some(Message { header, payload, checksum: checksum as u32 })
}

} // verus!
