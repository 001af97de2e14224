//! Serializing and reading back are inverse to each other.

use crate::protocol::decimal::{
    decimal_digits,
    is_digit,
    lemma_decimal_digits,
    number_at,
};
use crate::protocol::message::{MessageHeader, MessageType, MessageView};
use crate::protocol::reader::{
    end_of,
    has_number,
    lemma_read_number,
    literal_at,
    read_header,
    read_items,
    read_list,
    read_message,
    read_number,
    read_tag,
    skip,
    the_number,
    value_of,
};
use crate::protocol::schema::{
    closing_brace,
    header_bytes,
    key_checksum,
    key_header,
    key_message_type,
    key_payload,
    key_payload_length,
    key_sequence_number,
    key_timestamp,
    key_version,
    message_bytes,
    payload_items,
    payload_list,
    type_tag,
    CLOSING_BRACKET,
    COMMA,
};
use vstd::prelude::*;
use vstd::string::*;

verus! {

/// Two literals stand one after the other exactly where their concatenation
/// stands.
pub proof fn lemma_literal_join(s: Seq<u8>, pos: int, x: Seq<u8>, y: Seq<u8>)
    ensures
        literal_at(s, pos, x + y) <==> literal_at(s, pos, x) && literal_at(s, pos + x.len(), y),
{
    let mid = pos + x.len();
    let end = mid + y.len();
    if literal_at(s, pos, x + y) {
        assert(s.subrange(pos, mid) =~= (x + y).subrange(0, x.len() as int));
        assert((x + y).subrange(0, x.len() as int) =~= x);
        assert(s.subrange(mid, end) =~= (x + y).subrange(x.len() as int, (x + y).len() as int));
        assert((x + y).subrange(x.len() as int, (x + y).len() as int) =~= y);
    }
    if literal_at(s, pos, x) && literal_at(s, mid, y) {
        assert(s.subrange(pos, end) =~= s.subrange(pos, mid) + s.subrange(mid, end));
    }
}

/// The first byte of a literal that stands at `pos` is the byte at `pos`.
proof fn lemma_literal_first(s: Seq<u8>, pos: int, literal: Seq<u8>)
    requires
        literal_at(s, pos, literal),
        literal.len() > 0,
    ensures
        pos < s.len(),
        s[pos] == literal[0],
{
    assert(s[pos] == s.subrange(pos, pos + literal.len())[0]);
}

/// The bytes with which the keys and the names of the kinds begin.
proof fn lemma_key_shapes()
    ensures
        key_message_type().len() > 0 && key_message_type()[0] == COMMA,
        key_timestamp().len() > 0 && key_timestamp()[0] == COMMA,
        key_payload_length().len() > 0 && key_payload_length()[0] == COMMA,
        key_sequence_number().len() > 0 && key_sequence_number()[0] == 34,
        key_checksum().len() > 0 && key_checksum()[0] == CLOSING_BRACKET,
        closing_brace().len() == 1 && closing_brace()[0] == 125,
        type_tag(MessageType::Text).len() > 0 && type_tag(MessageType::Text)[0] == 84,
        type_tag(MessageType::File).len() > 0 && type_tag(MessageType::File)[0] == 70,
        type_tag(MessageType::Ack).len() > 0 && type_tag(MessageType::Ack)[0] == 65,
        type_tag(MessageType::Ping).len() > 0 && type_tag(MessageType::Ping)[0] == 80,
{
    reveal_strlit(",\"message_type\":\"");
    reveal_strlit(",\"timestamp\":");
    reveal_strlit(",\"payload_length\":");
    reveal_strlit("\",\"sequence_number\":");
    reveal_strlit("],\"checksum\":");
    reveal_strlit("}");
    reveal_strlit("Text");
    reveal_strlit("File");
    reveal_strlit("Ack");
    reveal_strlit("Ping");
    is_ascii_spec_bytes(",\"message_type\":\"");
    is_ascii_spec_bytes(",\"timestamp\":");
    is_ascii_spec_bytes(",\"payload_length\":");
    is_ascii_spec_bytes("\",\"sequence_number\":");
    is_ascii_spec_bytes("],\"checksum\":");
    is_ascii_spec_bytes("}");
    is_ascii_spec_bytes("Text");
    is_ascii_spec_bytes("File");
    is_ascii_spec_bytes("Ack");
    is_ascii_spec_bytes("Ping");
}

/// A number that was read stands where it was read, as its notation.
proof fn lemma_number_found(s: Seq<u8>, pos: Option<int>, max: nat)
    requires
        read_number(s, pos, max) is Some,
    ensures
        pos is Some,
        value_of(read_number(s, pos, max)) <= max,
        literal_at(s, pos->0, decimal_digits(value_of(read_number(s, pos, max)))),
        end_of(read_number(s, pos, max)) == Some(
            pos->0 + decimal_digits(value_of(read_number(s, pos, max))).len(),
        ),
{
    let p = pos->0;
    assert(has_number(s, p, max));
    let n = the_number(s, p, max);
    assert(n <= max && number_at(s, p, n));
}

/// A notation that stands at `pos`, with a literal after it that begins with
/// no digit, is read as its number.
proof fn lemma_number_stage(s: Seq<u8>, pos: int, n: nat, max: nat, next: Seq<u8>)
    requires
        n <= max,
        literal_at(s, pos, decimal_digits(n)),
        literal_at(s, pos + decimal_digits(n).len(), next),
        next.len() > 0,
        !is_digit(next[0]),
    ensures
        read_number(s, Some(pos), max) == Some((n, pos + decimal_digits(n).len())),
{
    lemma_literal_first(s, pos + decimal_digits(n).len(), next);
    lemma_read_number(s, pos, max, n);
}

/// The name of a kind that was read stands where it was read.
proof fn lemma_tag_found(s: Seq<u8>, pos: Option<int>)
    requires
        read_tag(s, pos) is Some,
    ensures
        pos is Some,
        literal_at(s, pos->0, type_tag(value_of(read_tag(s, pos)))),
        end_of(read_tag(s, pos)) == Some(pos->0 + type_tag(value_of(read_tag(s, pos))).len()),
{
}

/// The name of a kind that stands at `pos` is read as that kind.
proof fn lemma_tag_stage(s: Seq<u8>, pos: int, kind: MessageType)
    requires
        literal_at(s, pos, type_tag(kind)),
    ensures
        read_tag(s, Some(pos)) == Some((kind, pos + type_tag(kind).len())),
{
    lemma_key_shapes();
    lemma_literal_first(s, pos, type_tag(kind));
    if literal_at(s, pos, type_tag(MessageType::Text)) {
        lemma_literal_first(s, pos, type_tag(MessageType::Text));
    }
    if literal_at(s, pos, type_tag(MessageType::File)) {
        lemma_literal_first(s, pos, type_tag(MessageType::File));
    }
    if literal_at(s, pos, type_tag(MessageType::Ack)) {
        lemma_literal_first(s, pos, type_tag(MessageType::Ack));
    }
    if literal_at(s, pos, type_tag(MessageType::Ping)) {
        lemma_literal_first(s, pos, type_tag(MessageType::Ping));
    }
}

/// A header that was read stands where it was read, in its serialized form.
pub proof fn lemma_read_header_sound(s: Seq<u8>, pos: Option<int>)
    requires
        read_header(s, pos) is Some,
    ensures
        pos is Some,
        literal_at(s, pos->0, header_bytes(value_of(read_header(s, pos)))),
        end_of(read_header(s, pos)) == Some(
            pos->0 + header_bytes(value_of(read_header(s, pos))).len(),
        ),
{
    let c0 = skip(s, pos, key_version());
    let version = read_number(s, c0, u8::MAX as nat);
    let c1 = skip(s, end_of(version), key_message_type());
    let kind = read_tag(s, c1);
    let c2 = skip(s, end_of(kind), key_sequence_number());
    let sequence = read_number(s, c2, u32::MAX as nat);
    let c3 = skip(s, end_of(sequence), key_timestamp());
    let timestamp = read_number(s, c3, u64::MAX as nat);
    let c4 = skip(s, end_of(timestamp), key_payload_length());
    let length = read_number(s, c4, u16::MAX as nat);
    let c5 = skip(s, end_of(length), closing_brace());
    assert(c5 is Some);
    lemma_number_found(s, c4, u16::MAX as nat);
    lemma_number_found(s, c3, u64::MAX as nat);
    lemma_number_found(s, c2, u32::MAX as nat);
    lemma_tag_found(s, c1);
    lemma_number_found(s, c0, u8::MAX as nat);
    let h = value_of(read_header(s, pos));
    let start = pos->0;
    let a0 = key_version();
    let a1 = a0 + decimal_digits(h.version as nat);
    let a2 = a1 + key_message_type();
    let a3 = a2 + type_tag(h.message_type);
    let a4 = a3 + key_sequence_number();
    let a5 = a4 + decimal_digits(h.sequence_number as nat);
    let a6 = a5 + key_timestamp();
    let a7 = a6 + decimal_digits(h.timestamp as nat);
    let a8 = a7 + key_payload_length();
    let a9 = a8 + decimal_digits(h.payload_length as nat);
    lemma_literal_join(s, start, a0, decimal_digits(h.version as nat));
    lemma_literal_join(s, start, a1, key_message_type());
    lemma_literal_join(s, start, a2, type_tag(h.message_type));
    lemma_literal_join(s, start, a3, key_sequence_number());
    lemma_literal_join(s, start, a4, decimal_digits(h.sequence_number as nat));
    lemma_literal_join(s, start, a5, key_timestamp());
    lemma_literal_join(s, start, a6, decimal_digits(h.timestamp as nat));
    lemma_literal_join(s, start, a7, key_payload_length());
    lemma_literal_join(s, start, a8, decimal_digits(h.payload_length as nat));
    lemma_literal_join(s, start, a9, closing_brace());
}

/// A serialized header that stands at `pos` is read as that header.
pub proof fn lemma_read_header_complete(s: Seq<u8>, pos: int, h: MessageHeader)
    requires
        literal_at(s, pos, header_bytes(h)),
    ensures
        read_header(s, Some(pos)) == Some((h, pos + header_bytes(h).len())),
{
    lemma_key_shapes();
    let a0 = key_version();
    let a1 = a0 + decimal_digits(h.version as nat);
    let a2 = a1 + key_message_type();
    let a3 = a2 + type_tag(h.message_type);
    let a4 = a3 + key_sequence_number();
    let a5 = a4 + decimal_digits(h.sequence_number as nat);
    let a6 = a5 + key_timestamp();
    let a7 = a6 + decimal_digits(h.timestamp as nat);
    let a8 = a7 + key_payload_length();
    let a9 = a8 + decimal_digits(h.payload_length as nat);
    lemma_literal_join(s, pos, a9, closing_brace());
    lemma_literal_join(s, pos, a8, decimal_digits(h.payload_length as nat));
    lemma_literal_join(s, pos, a7, key_payload_length());
    lemma_literal_join(s, pos, a6, decimal_digits(h.timestamp as nat));
    lemma_literal_join(s, pos, a5, key_timestamp());
    lemma_literal_join(s, pos, a4, decimal_digits(h.sequence_number as nat));
    lemma_literal_join(s, pos, a3, key_sequence_number());
    lemma_literal_join(s, pos, a2, type_tag(h.message_type));
    lemma_literal_join(s, pos, a1, key_message_type());
    lemma_literal_join(s, pos, a0, decimal_digits(h.version as nat));
    lemma_number_stage(
        s,
        pos + a0.len(),
        h.version as nat,
        u8::MAX as nat,
        key_message_type(),
    );
    lemma_tag_stage(s, pos + a2.len(), h.message_type);
    lemma_number_stage(
        s,
        pos + a4.len(),
        h.sequence_number as nat,
        u32::MAX as nat,
        key_timestamp(),
    );
    lemma_number_stage(
        s,
        pos + a6.len(),
        h.timestamp as nat,
        u64::MAX as nat,
        key_payload_length(),
    );
    lemma_number_stage(
        s,
        pos + a8.len(),
        h.payload_length as nat,
        u16::MAX as nat,
        closing_brace(),
    );
}

/// A single byte stands where it is found.
proof fn lemma_byte_at(s: Seq<u8>, pos: int, byte: u8)
    requires
        0 <= pos < s.len(),
        s[pos] == byte,
    ensures
        literal_at(s, pos, seq![byte]),
{
    assert(s.subrange(pos, pos + 1) =~= seq![byte]);
}

/// Items that were read stand where they were read, in their serialized form.
proof fn lemma_read_items_sound(s: Seq<u8>, pos: int)
    requires
        read_items(s, pos) is Some,
    ensures
        value_of(read_items(s, pos)).len() >= 1,
        literal_at(s, pos, payload_items(value_of(read_items(s, pos)))),
        end_of(read_items(s, pos)) == Some(
            pos + payload_items(value_of(read_items(s, pos))).len(),
        ),
    decreases s.len() - pos,
{
    let number = read_number(s, Some(pos), u8::MAX as nat);
    lemma_number_found(s, Some(pos), u8::MAX as nat);
    let value = value_of(number);
    let end = pos + decimal_digits(value).len();
    let items = value_of(read_items(s, pos));
    if pos < end < s.len() && s[end] == COMMA {
        lemma_read_items_sound(s, end + 1);
        let rest = value_of(read_items(s, end + 1));
        assert(items == seq![value as u8] + rest);
        assert(items.drop_first() =~= rest);
        assert(items[0] == value as u8);
        lemma_byte_at(s, end, COMMA);
        lemma_literal_join(s, pos, decimal_digits(value), seq![COMMA]);
        lemma_literal_join(s, pos, decimal_digits(value) + seq![COMMA], payload_items(rest));
    } else {
        assert(items == seq![value as u8]);
    }
}

/// Serialized items that stand at `pos`, with the closing bracket after them,
/// are read as those items.
proof fn lemma_read_items_complete(s: Seq<u8>, pos: int, items: Seq<u8>)
    requires
        items.len() >= 1,
        literal_at(s, pos, payload_items(items)),
        pos + payload_items(items).len() < s.len(),
        s[pos + payload_items(items).len()] == CLOSING_BRACKET,
    ensures
        read_items(s, pos) == Some((items, pos + payload_items(items).len())),
    decreases items.len(),
{
    let first = decimal_digits(items[0] as nat);
    let stop = pos + payload_items(items).len();
    lemma_decimal_digits(items[0] as nat);
    if items.len() == 1 {
        lemma_byte_at(s, stop, CLOSING_BRACKET);
        lemma_number_stage(s, pos, items[0] as nat, u8::MAX as nat, seq![CLOSING_BRACKET]);
        assert(items =~= seq![items[0]]);
    } else {
        let rest = items.drop_first();
        lemma_literal_join(s, pos, first + seq![COMMA], payload_items(rest));
        lemma_literal_join(s, pos, first, seq![COMMA]);
        lemma_number_stage(s, pos, items[0] as nat, u8::MAX as nat, seq![COMMA]);
        let end = pos + first.len();
        lemma_literal_first(s, end, seq![COMMA]);
        lemma_read_items_complete(s, end + 1, rest);
        assert(seq![items[0]] + rest =~= items);
    }
}

/// A payload that was read stands where it was read, as its list.
proof fn lemma_read_list_sound(s: Seq<u8>, pos: Option<int>)
    requires
        read_list(s, pos) is Some,
    ensures
        pos is Some,
        literal_at(s, pos->0, payload_list(value_of(read_list(s, pos)))),
        end_of(read_list(s, pos)) == Some(
            pos->0 + payload_list(value_of(read_list(s, pos))).len(),
        ),
{
    let p = pos->0;
    if 0 <= p < s.len() && s[p] == CLOSING_BRACKET {
        assert(s.subrange(p, p) =~= Seq::<u8>::empty());
    } else {
        lemma_read_items_sound(s, p);
    }
}

/// A list that stands at `pos`, with the closing bracket after it, is read as
/// its payload.
proof fn lemma_read_list_complete(s: Seq<u8>, pos: int, payload: Seq<u8>)
    requires
        literal_at(s, pos, payload_list(payload)),
        literal_at(s, pos + payload_list(payload).len(), key_checksum()),
    ensures
        read_list(s, Some(pos)) == Some((payload, pos + payload_list(payload).len())),
{
    lemma_key_shapes();
    lemma_literal_first(s, pos + payload_list(payload).len(), key_checksum());
    if payload.len() == 0 {
        assert(payload =~= Seq::<u8>::empty());
    } else {
        lemma_decimal_digits(payload[0] as nat);
        let first = decimal_digits(payload[0] as nat);
        if payload.len() > 1 {
            lemma_literal_join(
                s,
                pos,
                first + seq![COMMA],
                payload_items(payload.drop_first()),
            );
            lemma_literal_join(s, pos, first, seq![COMMA]);
        }
        lemma_literal_first(s, pos, first);
        lemma_read_items_complete(s, pos, payload);
    }
}

/// The parts of a serialized message, each standing after the one before and
/// together filling `s`, make `s` the serialized message.
proof fn lemma_message_assembled(
    s: Seq<u8>,
    m: MessageView,
    c1: int,
    c2: int,
    c3: int,
    c4: int,
    c5: int,
    c6: int,
)
    requires
        literal_at(s, 0, key_header()),
        c1 == key_header().len(),
        literal_at(s, c1, header_bytes(m.header)),
        c2 == c1 + header_bytes(m.header).len(),
        literal_at(s, c2, key_payload()),
        c3 == c2 + key_payload().len(),
        literal_at(s, c3, payload_list(m.payload)),
        c4 == c3 + payload_list(m.payload).len(),
        literal_at(s, c4, key_checksum()),
        c5 == c4 + key_checksum().len(),
        literal_at(s, c5, decimal_digits(m.checksum as nat)),
        c6 == c5 + decimal_digits(m.checksum as nat).len(),
        literal_at(s, c6, closing_brace()),
        s.len() == c6 + closing_brace().len(),
    ensures
        message_bytes(m) == s,
{
    let a0 = key_header();
    let a1 = a0 + header_bytes(m.header);
    let a2 = a1 + key_payload();
    let a3 = a2 + payload_list(m.payload);
    let a4 = a3 + key_checksum();
    let a5 = a4 + decimal_digits(m.checksum as nat);
    lemma_literal_join(s, 0, a0, header_bytes(m.header));
    lemma_literal_join(s, 0, a1, key_payload());
    lemma_literal_join(s, 0, a2, payload_list(m.payload));
    lemma_literal_join(s, 0, a3, key_checksum());
    lemma_literal_join(s, 0, a4, decimal_digits(m.checksum as nat));
    lemma_literal_join(s, 0, a5, closing_brace());
    assert(s.subrange(0, s.len() as int) =~= s);
}

/// What is read from a byte sequence serializes to that sequence.
pub proof fn lemma_read_message_sound(s: Seq<u8>)
    requires
        read_message(s) is Some,
    ensures
        message_bytes(read_message(s)->0) == s,
{
    reveal(read_message);
    let c0 = skip(s, Some(0int), key_header());
    let header = read_header(s, c0);
    let c1 = skip(s, end_of(header), key_payload());
    let payload = read_list(s, c1);
    let c2 = skip(s, end_of(payload), key_checksum());
    let checksum = read_number(s, c2, u32::MAX as nat);
    let c3 = skip(s, end_of(checksum), closing_brace());
    assert(c3 is Some);
    assert(c3->0 == s.len());
    assert(checksum is Some);
    lemma_number_found(s, c2, u32::MAX as nat);
    assert(payload is Some);
    lemma_read_list_sound(s, c1);
    assert(header is Some);
    lemma_read_header_sound(s, c0);
    let m = read_message(s)->0;
    assert(m.header == value_of(header));
    assert(m.payload == value_of(payload));
    assert(m.checksum as nat == value_of(checksum));
    lemma_message_assembled(
        s,
        m,
        c0->0,
        end_of(header)->0,
        c1->0,
        end_of(payload)->0,
        c2->0,
        end_of(checksum)->0,
    );
}

/// Where the parts of a serialized message stand in it.
proof fn lemma_message_parts(m: MessageView)
    ensures
        ({
            let s = message_bytes(m);
            let c1 = key_header().len() as int;
            let c2 = c1 + header_bytes(m.header).len();
            let c3 = c2 + key_payload().len();
            let c4 = c3 + payload_list(m.payload).len();
            let c5 = c4 + key_checksum().len();
            let c6 = c5 + decimal_digits(m.checksum as nat).len();
            &&& literal_at(s, 0, key_header())
            &&& literal_at(s, c1, header_bytes(m.header))
            &&& literal_at(s, c2, key_payload())
            &&& literal_at(s, c3, payload_list(m.payload))
            &&& literal_at(s, c4, key_checksum())
            &&& literal_at(s, c5, decimal_digits(m.checksum as nat))
            &&& literal_at(s, c6, closing_brace())
            &&& s.len() == c6 + closing_brace().len()
        }),
{
    let s = message_bytes(m);
    let a0 = key_header();
    let a1 = a0 + header_bytes(m.header);
    let a2 = a1 + key_payload();
    let a3 = a2 + payload_list(m.payload);
    let a4 = a3 + key_checksum();
    let a5 = a4 + decimal_digits(m.checksum as nat);
    assert(s.subrange(0, s.len() as int) =~= s);
    lemma_literal_join(s, 0, a5, closing_brace());
    lemma_literal_join(s, 0, a4, decimal_digits(m.checksum as nat));
    lemma_literal_join(s, 0, a3, key_checksum());
    lemma_literal_join(s, 0, a2, payload_list(m.payload));
    lemma_literal_join(s, 0, a1, key_payload());
    lemma_literal_join(s, 0, a0, header_bytes(m.header));
}

/// A serialized message is read back as the message it came from.
pub proof fn lemma_read_message_complete(m: MessageView)
    ensures
        read_message(message_bytes(m)) == Some(m),
{
    reveal(read_message);
    let s = message_bytes(m);
    let c1 = key_header().len() as int;
    let c2 = c1 + header_bytes(m.header).len();
    let c3 = c2 + key_payload().len();
    let c4 = c3 + payload_list(m.payload).len();
    let c5 = c4 + key_checksum().len();
    let c6 = c5 + decimal_digits(m.checksum as nat).len();
    lemma_message_parts(m);
    let q0 = skip(s, Some(0int), key_header());
    assert(q0 == Some(c1));
    let header = read_header(s, q0);
    assert(header == Some((m.header, c2))) by {
        lemma_read_header_complete(s, c1, m.header);
    }
    let q1 = skip(s, end_of(header), key_payload());
    assert(q1 == Some(c3));
    let payload = read_list(s, q1);
    assert(payload == Some((m.payload, c4))) by {
        lemma_read_list_complete(s, c3, m.payload);
    }
    let q2 = skip(s, end_of(payload), key_checksum());
    assert(q2 == Some(c5));
    let checksum = read_number(s, q2, u32::MAX as nat);
    assert(checksum == Some((m.checksum as nat, c6))) by {
        lemma_key_shapes();
        lemma_number_stage(s, c5, m.checksum as nat, u32::MAX as nat, closing_brace());
    }
    let q3 = skip(s, end_of(checksum), closing_brace());
    assert(q3 == Some(s.len() as int));
    let back = read_message(s)->0;
    assert(read_message(s) is Some);
    assert(back.header == m.header);
    assert(back.payload == m.payload);
    assert(back.checksum == m.checksum);
}

/// Two messages with the same serialized form are the same message.
pub proof fn lemma_message_bytes_injective(a: MessageView, b: MessageView)
    requires
        message_bytes(a) == message_bytes(b),
    ensures
        a == b,
{
    lemma_read_message_complete(a);
    lemma_read_message_complete(b);
}

} // verus!
