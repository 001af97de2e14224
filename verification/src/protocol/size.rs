//! How long a serialized message can be.

use crate::protocol::decimal::{decimal_digits, pow10};
use crate::protocol::message::{MessageType, MessageView};
use crate::protocol::schema::{
    closing_brace,
    key_checksum,
    key_header,
    key_message_type,
    key_payload,
    key_payload_length,
    key_sequence_number,
    key_timestamp,
    key_version,
    message_bytes,
    payload_items,
    payload_list,
    type_tag,
};
use vstd::prelude::*;
use vstd::string::*;

verus! {

/// The bytes of a serialized message that are neither payload nor digits of
/// a number, plus the most digits that its numbers can have.
pub const MAX_ENVELOPE_LENGTH: usize = 168;

/// The most bytes that one byte of payload takes in the list: three digits
/// and a comma.
pub const MAX_ITEM_LENGTH: usize = 4;

/// A number below ten to the power `k` has at most `k` digits.
pub proof fn lemma_decimal_length(n: nat, k: nat)
    requires
        k >= 1,
        n < pow10(k),
    ensures
        1 <= decimal_digits(n).len() <= k,
    decreases n,
{
    if n >= 10 {
        assert(pow10(1) == 10) by {
            reveal_with_fuel(pow10, 2);
        }
        assert(k >= 2);
        lemma_decimal_length(n / 10, (k - 1) as nat);
    }
}

/// The lengths of the keys and of the names of the kinds.
proof fn lemma_key_lengths()
    ensures
        key_header().len() == 10,
        key_version().len() == 11,
        key_message_type().len() == 17,
        key_sequence_number().len() == 20,
        key_timestamp().len() == 13,
        key_payload_length().len() == 18,
        key_payload().len() == 12,
        key_checksum().len() == 13,
        closing_brace().len() == 1,
        forall|kind: MessageType| 3 <= #[trigger] type_tag(kind).len() <= 4,
{
    reveal_strlit("{\"header\":");
    reveal_strlit("{\"version\":");
    reveal_strlit(",\"message_type\":\"");
    reveal_strlit("\",\"sequence_number\":");
    reveal_strlit(",\"timestamp\":");
    reveal_strlit(",\"payload_length\":");
    reveal_strlit(",\"payload\":[");
    reveal_strlit("],\"checksum\":");
    reveal_strlit("}");
    reveal_strlit("Text");
    reveal_strlit("File");
    reveal_strlit("Ack");
    reveal_strlit("Ping");
    is_ascii_spec_bytes("{\"header\":");
    is_ascii_spec_bytes("{\"version\":");
    is_ascii_spec_bytes(",\"message_type\":\"");
    is_ascii_spec_bytes("\",\"sequence_number\":");
    is_ascii_spec_bytes(",\"timestamp\":");
    is_ascii_spec_bytes(",\"payload_length\":");
    is_ascii_spec_bytes(",\"payload\":[");
    is_ascii_spec_bytes("],\"checksum\":");
    is_ascii_spec_bytes("}");
    is_ascii_spec_bytes("Text");
    is_ascii_spec_bytes("File");
    is_ascii_spec_bytes("Ack");
    is_ascii_spec_bytes("Ping");
    assert forall|kind: MessageType| 3 <= #[trigger] type_tag(kind).len() <= 4 by {
        match kind {
            MessageType::Text => {},
            MessageType::File => {},
            MessageType::Ack => {},
            MessageType::Ping => {},
        }
    }
}

/// The list of a payload takes at most four bytes for each of its bytes.
proof fn lemma_payload_list_length(payload: Seq<u8>)
    ensures
        payload_list(payload).len() <= MAX_ITEM_LENGTH * payload.len(),
        payload.len() >= 1 ==> 1 <= payload_items(payload).len() <= MAX_ITEM_LENGTH
            * payload.len() - 1,
    decreases payload.len(),
{
    if payload.len() >= 1 {
        assert(pow10(3) == 1000) by {
            reveal_with_fuel(pow10, 4);
        }
        lemma_decimal_length(payload[0] as nat, 3);
        if payload.len() > 1 {
            lemma_payload_list_length(payload.drop_first());
        }
    }
}

/// A serialized message is longer than its keys and no longer than its keys,
/// the longest numbers and four bytes for each byte of payload.
pub proof fn lemma_message_length(m: MessageView)
    ensures
        122 <= message_bytes(m).len() <= MAX_ENVELOPE_LENGTH + MAX_ITEM_LENGTH * m.payload.len(),
{
    lemma_key_lengths();
    lemma_payload_list_length(m.payload);
    assert(pow10(3) == 1000 && pow10(5) == 100_000 && pow10(10) == 10_000_000_000 && pow10(20)
        == 100_000_000_000_000_000_000) by {
        reveal_with_fuel(pow10, 21);
    }
    lemma_decimal_length(m.header.version as nat, 3);
    lemma_decimal_length(m.header.sequence_number as nat, 10);
    lemma_decimal_length(m.header.timestamp as nat, 20);
    lemma_decimal_length(m.header.payload_length as nat, 5);
    lemma_decimal_length(m.checksum as nat, 10);
}

} // verus!
