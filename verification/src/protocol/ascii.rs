//! A serialized message is ASCII: no byte of it has the high bit set, so
//! none can be taken for a byte of the preamble.

use crate::protocol::decimal::{decimal_digits, lemma_decimal_digits};
use crate::protocol::message::{MessageHeader, MessageType, MessageView};
use crate::protocol::schema::{
    closing_brace,
    header_bytes,
    key_checksum,
    key_header,
    key_message_type,
    key_payload,
    key_payload_length,
    key_sequence_number,
    key_timestamp,
    key_version,
    message_bytes,
    payload_items,
    payload_list,
    type_tag,
    COMMA,
};
use vstd::prelude::*;
use vstd::string::*;

verus! {

/// Whether every byte of `bytes` is an ASCII character.
pub open spec fn all_ascii(bytes: Seq<u8>) -> bool {
    forall|i: int| 0 <= i < bytes.len() ==> #[trigger] bytes[i] < 128
}

/// ASCII bytes followed by ASCII bytes are ASCII bytes.
proof fn lemma_ascii_join(x: Seq<u8>, y: Seq<u8>)
    requires
        all_ascii(x),
        all_ascii(y),
    ensures
        all_ascii(x + y),
{
    assert forall|i: int| 0 <= i < (x + y).len() implies #[trigger] (x + y)[i] < 128 by {
        if i < x.len() {
            assert((x + y)[i] == x[i]);
        } else {
            assert((x + y)[i] == y[i - x.len()]);
        }
    }
}

/// The bytes of an ASCII text are ASCII.
proof fn lemma_ascii_literal(s: &str)
    requires
        is_ascii(s),
    ensures
        all_ascii(s.spec_bytes()),
{
    is_ascii_spec_bytes(s);
    let bytes = s.spec_bytes();
    assert forall|i: int| 0 <= i < bytes.len() implies #[trigger] bytes[i] < 128 by {
        assert(bytes[i] == s@[i] as u8);
        assert(s@[i] <= '\u{7f}');
    }
}

/// The notation of a number is ASCII.
proof fn lemma_ascii_number(n: nat)
    ensures
        all_ascii(decimal_digits(n)),
{
    lemma_decimal_digits(n);
}

/// The keys and the names of the kinds are ASCII.
proof fn lemma_ascii_keys()
    ensures
        all_ascii(key_header()),
        all_ascii(key_version()),
        all_ascii(key_message_type()),
        all_ascii(key_sequence_number()),
        all_ascii(key_timestamp()),
        all_ascii(key_payload_length()),
        all_ascii(key_payload()),
        all_ascii(key_checksum()),
        all_ascii(closing_brace()),
        forall|kind: MessageType| all_ascii(#[trigger] type_tag(kind)),
{
    reveal_strlit("{\"header\":");
    reveal_strlit("{\"version\":");
    reveal_strlit(",\"message_type\":\"");
    reveal_strlit("\",\"sequence_number\":");
    reveal_strlit(",\"timestamp\":");
    reveal_strlit(",\"payload_length\":");
    reveal_strlit(",\"payload\":[");
    reveal_strlit("],\"checksum\":");
    reveal_strlit("}");
    reveal_strlit("Text");
    reveal_strlit("File");
    reveal_strlit("Ack");
    reveal_strlit("Ping");
    lemma_ascii_literal("{\"header\":");
    lemma_ascii_literal("{\"version\":");
    lemma_ascii_literal(",\"message_type\":\"");
    lemma_ascii_literal("\",\"sequence_number\":");
    lemma_ascii_literal(",\"timestamp\":");
    lemma_ascii_literal(",\"payload_length\":");
    lemma_ascii_literal(",\"payload\":[");
    lemma_ascii_literal("],\"checksum\":");
    lemma_ascii_literal("}");
    lemma_ascii_literal("Text");
    lemma_ascii_literal("File");
    lemma_ascii_literal("Ack");
    lemma_ascii_literal("Ping");
    assert forall|kind: MessageType| all_ascii(#[trigger] type_tag(kind)) by {
        match kind {
            MessageType::Text => {},
            MessageType::File => {},
            MessageType::Ack => {},
            MessageType::Ping => {},
        }
    }
}

/// The list of a payload is ASCII, whatever the payload holds.
proof fn lemma_ascii_payload(payload: Seq<u8>)
    ensures
        all_ascii(payload_list(payload)),
        payload.len() >= 1 ==> all_ascii(payload_items(payload)),
    decreases payload.len(),
{
    if payload.len() >= 1 {
        lemma_ascii_number(payload[0] as nat);
        if payload.len() > 1 {
            lemma_ascii_payload(payload.drop_first());
            let first = decimal_digits(payload[0] as nat);
            lemma_ascii_join(first, seq![COMMA]);
            lemma_ascii_join(first + seq![COMMA], payload_items(payload.drop_first()));
        }
    }
}

/// A serialized header is ASCII.
proof fn lemma_ascii_header(h: MessageHeader)
    ensures
        all_ascii(header_bytes(h)),
{
    lemma_ascii_keys();
    lemma_ascii_number(h.version as nat);
    lemma_ascii_number(h.sequence_number as nat);
    lemma_ascii_number(h.timestamp as nat);
    lemma_ascii_number(h.payload_length as nat);
    let a0 = key_version();
    let a1 = a0 + decimal_digits(h.version as nat);
    let a2 = a1 + key_message_type();
    let a3 = a2 + type_tag(h.message_type);
    let a4 = a3 + key_sequence_number();
    let a5 = a4 + decimal_digits(h.sequence_number as nat);
    let a6 = a5 + key_timestamp();
    let a7 = a6 + decimal_digits(h.timestamp as nat);
    let a8 = a7 + key_payload_length();
    let a9 = a8 + decimal_digits(h.payload_length as nat);
    lemma_ascii_join(a0, decimal_digits(h.version as nat));
    lemma_ascii_join(a1, key_message_type());
    lemma_ascii_join(a2, type_tag(h.message_type));
    lemma_ascii_join(a3, key_sequence_number());
    lemma_ascii_join(a4, decimal_digits(h.sequence_number as nat));
    lemma_ascii_join(a5, key_timestamp());
    lemma_ascii_join(a6, decimal_digits(h.timestamp as nat));
    lemma_ascii_join(a7, key_payload_length());
    lemma_ascii_join(a8, decimal_digits(h.payload_length as nat));
    lemma_ascii_join(a9, closing_brace());
}

/// A serialized message is ASCII, whatever its payload holds.
pub proof fn lemma_message_is_ascii(m: MessageView)
    ensures
        all_ascii(message_bytes(m)),
{
    lemma_ascii_keys();
    lemma_ascii_header(m.header);
    lemma_ascii_payload(m.payload);
    lemma_ascii_number(m.checksum as nat);
    let a0 = key_header();
    let a1 = a0 + header_bytes(m.header);
    let a2 = a1 + key_payload();
    let a3 = a2 + payload_list(m.payload);
    let a4 = a3 + key_checksum();
    let a5 = a4 + decimal_digits(m.checksum as nat);
    lemma_ascii_join(a0, header_bytes(m.header));
    lemma_ascii_join(a1, key_payload());
    lemma_ascii_join(a2, payload_list(m.payload));
    lemma_ascii_join(a3, key_checksum());
    lemma_ascii_join(a4, decimal_digits(m.checksum as nat));
    lemma_ascii_join(a5, closing_brace());
}

} // verus!
