//! The serialized form of a message: compact JSON with the fields in a fixed
//! order, as in
//!
//! `{"header":{"version":1,"message_type":"Text","sequence_number":7,`
//! `"timestamp":1700000000,"payload_length":2},"payload":[72,105],`
//! `"checksum":123}`
//!
//! Numbers are decimal without leading zeros, the payload is a list of byte
//! values, and no white space occurs. Only this form is produced, and only
//! this form is read back.

use crate::protocol::decimal::{decimal_digits, push_decimal};
use crate::protocol::message::{Message, MessageHeader, MessageType, MessageView};
use vstd::prelude::*;
use vstd::string::*;

verus! {

/// Opens a header and names its first field.
pub open spec fn key_version() -> Seq<u8> {
    "{\"version\":".spec_bytes()
}

/// Names the kind of message; the kind follows in quotes.
pub open spec fn key_message_type() -> Seq<u8> {
    ",\"message_type\":\"".spec_bytes()
}

/// Closes the kind and names the sequence number.
pub open spec fn key_sequence_number() -> Seq<u8> {
    "\",\"sequence_number\":".spec_bytes()
}

/// Names the timestamp.
pub open spec fn key_timestamp() -> Seq<u8> {
    ",\"timestamp\":".spec_bytes()
}

/// Names the payload length.
pub open spec fn key_payload_length() -> Seq<u8> {
    ",\"payload_length\":".spec_bytes()
}

/// Closes a header, and a message.
pub open spec fn closing_brace() -> Seq<u8> {
    "}".spec_bytes()
}

/// Opens a message and names its header.
pub open spec fn key_header() -> Seq<u8> {
    "{\"header\":".spec_bytes()
}

/// Names the payload and opens its list.
pub open spec fn key_payload() -> Seq<u8> {
    ",\"payload\":[".spec_bytes()
}

/// Closes the payload's list and names the checksum.
pub open spec fn key_checksum() -> Seq<u8> {
    "],\"checksum\":".spec_bytes()
}

/// The byte that separates two items of the payload's list.
pub const COMMA: u8 = 44;

/// The byte that closes the payload's list.
pub const CLOSING_BRACKET: u8 = 93;

/// The name under which a kind of message is serialized.
pub open spec fn type_tag(kind: MessageType) -> Seq<u8> {
    match kind {
        MessageType::Text => "Text".spec_bytes(),
        MessageType::File => "File".spec_bytes(),
        MessageType::Ack => "Ack".spec_bytes(),
        MessageType::Ping => "Ping".spec_bytes(),
    }
}

/// The serialized header.
pub open spec fn header_bytes(header: MessageHeader) -> Seq<u8> {
    key_version() + decimal_digits(header.version as nat) + key_message_type() + type_tag(
        header.message_type,
    ) + key_sequence_number() + decimal_digits(header.sequence_number as nat) + key_timestamp()
        + decimal_digits(header.timestamp as nat) + key_payload_length() + decimal_digits(
        header.payload_length as nat,
    ) + closing_brace()
}

/// The items of a payload that is not empty: one number per byte, commas
/// between them.
pub open spec fn payload_items(payload: Seq<u8>) -> Seq<u8>
    decreases payload.len(),
{
    if payload.len() <= 1 {
        decimal_digits(payload[0] as nat)
    } else {
        decimal_digits(payload[0] as nat) + seq![COMMA] + payload_items(payload.drop_first())
    }
}

/// What stands between the brackets of the payload's list.
pub open spec fn payload_list(payload: Seq<u8>) -> Seq<u8> {
    if payload.len() == 0 {
        Seq::<u8>::empty()
    } else {
        payload_items(payload)
    }
}

/// The serialized message.
pub open spec fn message_bytes(message: MessageView) -> Seq<u8> {
    key_header() + header_bytes(message.header) + key_payload() + payload_list(message.payload)
        + key_checksum() + decimal_digits(message.checksum as nat) + closing_brace()
}

fn tag_of(kind: MessageType) -> (tag: &'static [u8])
    ensures
        tag@ == type_tag(kind),
{
    match kind {
        MessageType::Text => "Text".as_bytes(),
        MessageType::File => "File".as_bytes(),
        MessageType::Ack => "Ack".as_bytes(),
        MessageType::Ping => "Ping".as_bytes(),
    }
}

/// Appends the serialized header to `out`.
pub fn push_header(out: &mut Vec<u8>, header: &MessageHeader)
    ensures
        final(out)@ == old(out)@ + header_bytes(*header),
{
    out.extend_from_slice("{\"version\":".as_bytes());
    push_decimal(out, header.version as u64);
    out.extend_from_slice(",\"message_type\":\"".as_bytes());
    out.extend_from_slice(tag_of(header.message_type));
    out.extend_from_slice("\",\"sequence_number\":".as_bytes());
    push_decimal(out, header.sequence_number as u64);
    out.extend_from_slice(",\"timestamp\":".as_bytes());
    push_decimal(out, header.timestamp);
    out.extend_from_slice(",\"payload_length\":".as_bytes());
    push_decimal(out, header.payload_length as u64);
    out.extend_from_slice("}".as_bytes());
    assert(final(out)@ =~= old(out)@ + header_bytes(*header));
}

/// Serializes a header on its own: the bytes that the checksum covers first.
pub fn serialize_header(header: &MessageHeader) -> (bytes: Vec<u8>)
    ensures
        bytes@ == header_bytes(*header),
{
    let mut out: Vec<u8> = Vec::new();
    push_header(&mut out, header);
    assert(out@ =~= header_bytes(*header));
    out
}

/// Appends the payload's list, without its brackets, to `out`.
fn push_payload_list(out: &mut Vec<u8>, payload: &[u8])
    ensures
        final(out)@ == old(out)@ + payload_list(payload@),
{
    let n = payload.len();
    if n == 0 {
        assert(final(out)@ =~= old(out)@ + payload_list(payload@));
        return ;
    }
    let ghost base = out@;
    let mut i: usize = 0;
    while i < n
        invariant
            n == payload@.len(),
            n > 0,
            i <= n,
            i == 0 ==> out@ == base,
            0 < i < n ==> base + payload_items(payload@) == out@ + seq![COMMA] + payload_items(
                payload@.subrange(i as int, n as int),
            ),
            i == n ==> out@ == base + payload_items(payload@),
        decreases n - i,
    {
        let ghost before = out@;
        let ghost rest = payload@.subrange(i as int, n as int);
        if i > 0 {
            out.push(COMMA);
        }
        push_decimal(out, payload[i] as u64);
        proof {
            assert(payload@.subrange(0, n as int) =~= payload@);
            assert(rest[0] == payload@[i as int]);
            if i + 1 < n {
                assert(rest.drop_first() =~= payload@.subrange(i + 1, n as int));
                assert(payload_items(rest) == decimal_digits(rest[0] as nat) + seq![COMMA]
                    + payload_items(rest.drop_first()));
                if i == 0 {
                    assert(base + payload_items(payload@) =~= out@ + seq![COMMA] + payload_items(
                        payload@.subrange(i + 1, n as int),
                    ));
                } else {
                    assert(before + seq![COMMA] + payload_items(rest) =~= out@ + seq![COMMA]
                        + payload_items(payload@.subrange(i + 1, n as int)));
                }
            } else {
                assert(payload_items(rest) == decimal_digits(rest[0] as nat));
                if i == 0 {
                    assert(out@ =~= base + payload_items(payload@));
                } else {
                    assert(out@ =~= before + seq![COMMA] + payload_items(rest));
                }
            }
        }
        i += 1;
    }
}

/// Serializes a message.
pub fn serialize_message(message: &Message) -> (bytes: Vec<u8>)
    ensures
        bytes@ == message_bytes(message@),
{
    let mut out: Vec<u8> = Vec::new();
    out.extend_from_slice("{\"header\":".as_bytes());
    push_header(&mut out, &message.header);
    out.extend_from_slice(",\"payload\":[".as_bytes());
    push_payload_list(&mut out, message.payload.as_slice());
    out.extend_from_slice("],\"checksum\":".as_bytes());
    push_decimal(&mut out, message.checksum as u64);
    out.extend_from_slice("}".as_bytes());
    assert(out@ =~= message_bytes(message@));
    out
}

} // verus!
