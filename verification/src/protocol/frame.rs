//! The frame: what goes on the air for one message.
//!
//! | field           | bytes | value                         |
//! |-----------------|-------|-------------------------------|
//! | preamble        | 8     | `AA` eight times              |
//! | start delimiter | 2     | `7E 7E`                       |
//! | length          | 2     | big-endian length of the body |
//! | body            | n     | the serialized message        |
//! | end delimiter   | 2     | `7E 7E`                       |

use crate::error::{config_failure, encoding_failure, protocol_failure, UshError, UshResult};
use crate::protocol::message::{
    clock_complaint,
    composed,
    too_long_complaint,
    Message,
    MessageType,
    MAX_MESSAGE_LENGTH,
};
use crate::protocol::schema::{message_bytes, serialize_message};
use crate::protocol::size::lemma_message_length;
use crate::text::{append_decimal, decimal_chars};
use vstd::prelude::*;
use vstd::string::*;

verus! {

/// The byte that the preamble repeats.
pub const PREAMBLE_BYTE: u8 = 0xAA;

/// How often the preamble repeats it.
pub const PREAMBLE_LENGTH: usize = 8;

/// The byte that a delimiter repeats.
pub const DELIMITER_BYTE: u8 = 0x7E;

/// How often a delimiter repeats it.
pub const DELIMITER_LENGTH: usize = 2;

/// The longest body whose length the frame can state.
pub const MAX_BODY_LENGTH: usize = 0xFFFF;

/// The bytes of a frame that are not its body.
pub const FRAME_OVERHEAD: usize = 14;

/// The preamble.
pub open spec fn preamble() -> Seq<u8> {
    Seq::new(PREAMBLE_LENGTH as nat, |i: int| PREAMBLE_BYTE)
}

/// The delimiter that stands before the length and after the body.
pub open spec fn delimiter() -> Seq<u8> {
    Seq::new(DELIMITER_LENGTH as nat, |i: int| DELIMITER_BYTE)
}

/// The length `n` as two bytes, most significant first.
pub open spec fn length_field(n: nat) -> Seq<u8> {
    seq![(n / 256) as u8, (n % 256) as u8]
}

/// The frame around `body`.
pub open spec fn frame(body: Seq<u8>) -> Seq<u8> {
    preamble() + delimiter() + length_field(body.len()) + body + delimiter()
}

/// The complaint about a body of `len` bytes, whose length does not fit the
/// frame's length field.
pub open spec fn body_too_long_complaint(len: nat) -> Seq<char> {
    "Serialized message too long for a frame: "@ + decimal_chars(len) + " bytes (max: 65535)"@
}

/// Puts the frame around `body`.
pub fn frame_body(body: &[u8]) -> (framed: Vec<u8>)
    requires
        body@.len() <= MAX_BODY_LENGTH,
    ensures
        framed@ == frame(body@),
{
    let mut framed: Vec<u8> = Vec::new();
    let mut i: usize = 0;
    while i < PREAMBLE_LENGTH
        invariant
            i <= PREAMBLE_LENGTH,
            framed@ == Seq::new(i as nat, |k: int| PREAMBLE_BYTE),
        decreases PREAMBLE_LENGTH - i,
    {
        framed.push(PREAMBLE_BYTE);
        i += 1;
        assert(framed@ =~= Seq::new(i as nat, |k: int| PREAMBLE_BYTE));
    }
    framed.push(DELIMITER_BYTE);
    framed.push(DELIMITER_BYTE);
    let n = body.len();
    framed.push((n / 256) as u8);
    framed.push((n % 256) as u8);
    framed.extend_from_slice(body);
    framed.push(DELIMITER_BYTE);
    framed.push(DELIMITER_BYTE);
    assert(framed@ =~= frame(body@));
    framed
}

/// Frames outgoing messages and numbers the texts it is given.
#[derive(Debug)]
pub struct ProtocolEncoder {
    sequence_counter: u32,
}

impl View for ProtocolEncoder {
    type V = u32;

    /// The number that the next text will carry.
    closed spec fn view(&self) -> u32 {
        self.sequence_counter
    }
}

/// The number after `n`, which starts over after the largest.
pub open spec fn next_sequence_number(n: u32) -> u32 {
    if n == u32::MAX {
        0
    } else {
        (n + 1) as u32
    }
}

impl ProtocolEncoder {
    /// An encoder whose first text carries the number 0.
    pub fn new() -> (encoder: Self)
        ensures
            encoder@ == 0,
    {
        ProtocolEncoder { sequence_counter: 0 }
    }

    /// Frames `message`: the frame around its serialized form. The counter
    /// stays as it is. A message whose serialized form is longer than 65535
    /// bytes is refused, because the frame could not state its length.
    pub fn encode_message(&mut self, message: &Message) -> (res: UshResult<Vec<u8>>)
        ensures
            final(self)@ == old(self)@,
            message_bytes(message@).len() <= MAX_BODY_LENGTH ==> res is Ok && res->Ok_0@ == frame(
                message_bytes(message@),
            ),
            message_bytes(message@).len() > MAX_BODY_LENGTH ==> encoding_failure(
                res,
                body_too_long_complaint(message_bytes(message@).len()),
            ),
    {
        let body = serialize_message(message);
        if body.len() > MAX_BODY_LENGTH {
            let mut complaint = String::from_str("Serialized message too long for a frame: ");
            append_decimal(&mut complaint, body.len() as u64);
            complaint.append(" bytes (max: 65535)");
            return Err(UshError::Encoding { message: complaint });
        }
        Ok(frame_body(body.as_slice()))
    }

    /// Makes a text message from `text`, numbered by the counter, and frames
    /// it; the counter then moves on, starting over after the largest
    /// number. A text of more than 1024 bytes is refused as a protocol
    /// failure; the only other failure is a clock that stands before the Unix
    /// epoch. After a failure the counter stays as it is.
    pub fn encode_text(&mut self, text: &str) -> (res: UshResult<Vec<u8>>)
        ensures
            text.spec_bytes().len() > MAX_MESSAGE_LENGTH ==> final(self)@ == old(self)@
                && protocol_failure(res, too_long_complaint(text.spec_bytes().len())),
            text.spec_bytes().len() <= MAX_MESSAGE_LENGTH ==> match res {
                Ok(framed) => final(self)@ == next_sequence_number(old(self)@) && exists|
                    timestamp: u64,
                |
                    framed@ == frame(
                        message_bytes(
                            #[trigger] composed(
                                MessageType::Text,
                                text.spec_bytes(),
                                old(self)@,
                                timestamp,
                            ),
                        ),
                    ),
                Err(_) => final(self)@ == old(self)@ && config_failure(res, clock_complaint()),
            },
    {
        let message = match Message::new_text(text, self.sequence_counter) {
            Ok(message) => message,
            Err(error) => {
                return Err(error);
            },
        };
        proof {
            lemma_message_length(message@);
        }
        self.sequence_counter = self.sequence_counter.wrapping_add(1);
        self.encode_message(&message)
    }

    /// The number that the next text will carry.
    pub fn get_next_sequence_number(&self) -> (n: u32)
        ensures
            n == self@,
    {
        self.sequence_counter
    }
}

impl Default for ProtocolEncoder {
    fn default() -> (encoder: Self)
        ensures
            encoder@ == 0,
    {
        ProtocolEncoder::new()
    }
}

} // verus!
