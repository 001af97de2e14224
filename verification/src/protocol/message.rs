//! The message: a header, a payload and the checksum over both.

use crate::checksum::{crc32, crc32_checksum};
use crate::error::{config_failure, protocol_failure, UshError, UshResult};
use crate::protocol::schema::{header_bytes, push_header};
use crate::text::{append_decimal, decimal_chars, text_from_utf8};
use vstd::prelude::*;
use vstd::string::*;
use vstd::utf8::{decode_utf8, valid_utf8};

verus! {

/// The version of the schema that this library writes.
pub const PROTOCOL_VERSION: u8 = 1;

/// The longest payload that a message may carry, in bytes.
pub const MAX_MESSAGE_LENGTH: usize = 1024;

/// What a message is for.
#[derive(Debug, Clone, Copy, PartialEq, Eq, Structural)]
pub enum MessageType {
    Text,
    File,
    Ack,
    Ping,
}

/// What a message says about itself.
#[derive(Debug, Clone, Copy, PartialEq, Eq, Structural)]
pub struct MessageHeader {
    pub version: u8,
    pub message_type: MessageType,
    pub sequence_number: u32,
    /// Seconds since the Unix epoch at which the message was made.
    pub timestamp: u64,
    pub payload_length: u16,
}

/// A message as it travels: by value, from the sender's encoder to the
/// receiver's consumer.
#[derive(Debug)]
pub struct Message {
    pub header: MessageHeader,
    pub payload: Vec<u8>,
    pub checksum: u32,
}

/// The mathematical value of a message.
pub struct MessageView {
    pub header: MessageHeader,
    pub payload: Seq<u8>,
    pub checksum: u32,
}

impl View for Message {
    type V = MessageView;

    open spec fn view(&self) -> MessageView {
        MessageView { header: self.header, payload: self.payload@, checksum: self.checksum }
    }
}

/// The checksum that belongs to a header and a payload: the CRC-32 of the
/// serialized header followed by the raw payload.
pub open spec fn checksum_of(header: MessageHeader, payload: Seq<u8>) -> u32 {
    crc32(header_bytes(header) + payload)
}

impl MessageView {
    /// Whether the checksum is the one that belongs to header and payload.
    pub open spec fn intact(self) -> bool {
        self.checksum == checksum_of(self.header, self.payload)
    }

    /// Whether the message keeps the schema: the header gives the payload's
    /// length, the payload is within the limit, and the checksum is right.
    pub open spec fn well_formed(self) -> bool {
        &&& self.payload.len() == self.header.payload_length
        &&& self.payload.len() <= MAX_MESSAGE_LENGTH
        &&& self.intact()
    }
}

/// The complaint about a payload of `len` bytes, which is over the limit.
pub open spec fn too_long_complaint(len: nat) -> Seq<char> {
    "Message too long: "@ + decimal_chars(len) + " bytes (max: 1024)"@
}

/// The complaint about asking a message that is no text for its text.
pub open spec fn not_text_complaint() -> Seq<char> {
    "Message is not a text message"@
}

/// The complaint about a text payload that is not UTF-8.
pub open spec fn invalid_text_complaint() -> Seq<char> {
    "Invalid UTF-8 in text message"@
}

/// The complaint about a clock that stands before the Unix epoch.
pub open spec fn clock_complaint() -> Seq<char> {
    "System clock is before the Unix epoch"@
}

/// The message of the given kind that carries `payload`, numbered
/// `sequence_number` and made at `timestamp`.
pub open spec fn composed(
    kind: MessageType,
    payload: Seq<u8>,
    sequence_number: u32,
    timestamp: u64,
) -> MessageView {
    let header = MessageHeader {
        version: PROTOCOL_VERSION,
        message_type: kind,
        sequence_number,
        timestamp,
        payload_length: payload.len() as u16,
    };
    MessageView { header, payload, checksum: checksum_of(header, payload) }
}

/// Reads the wall clock with `std::time::SystemTime::now` and gives the whole
/// seconds since `std::time::UNIX_EPOCH`, or nothing where the clock stands
/// before it. Nothing is claimed of the value: it differs from call to call.
#[verifier::external_body]
fn unix_seconds() -> (now: Option<u64>) {
    match std::time::SystemTime::now().duration_since(std::time::UNIX_EPOCH) {
        Ok(elapsed) => Some(elapsed.as_secs()),
        Err(_) => None,
    }
}

/// The failure for a payload of `len` bytes, which is over the limit.
fn too_long(len: usize) -> (error: UshError)
    ensures
        protocol_failure(Err::<Message, UshError>(error), too_long_complaint(len as nat)),
{
    let mut message = String::from_str("Message too long: ");
    append_decimal(&mut message, len as u64);
    message.append(" bytes (max: 1024)");
    UshError::Protocol { message }
}

/// The checksum that belongs to `header` and `payload`.
pub fn calculate_checksum(header: &MessageHeader, payload: &[u8]) -> (sum: u32)
    ensures
        sum == checksum_of(*header, payload@),
{
    let mut covered: Vec<u8> = Vec::new();
    push_header(&mut covered, header);
    covered.extend_from_slice(payload);
    assert(covered@ =~= header_bytes(*header) + payload@);
    crc32_checksum(covered.as_slice())
}

impl Message {
    /// Makes the message of the given kind that carries `payload`, numbered
    /// `sequence_number` and made at `timestamp`. A payload of more than
    /// 1024 bytes is refused.
    pub fn stamped(
        kind: MessageType,
        payload: Vec<u8>,
        sequence_number: u32,
        timestamp: u64,
    ) -> (res: UshResult<Message>)
        ensures
            payload@.len() > MAX_MESSAGE_LENGTH ==> protocol_failure(
                res,
                too_long_complaint(payload@.len()),
            ),
            payload@.len() <= MAX_MESSAGE_LENGTH ==> res is Ok && res->Ok_0@ == composed(
                kind,
                payload@,
                sequence_number,
                timestamp,
            ) && res->Ok_0@.well_formed(),
    {
        if payload.len() > MAX_MESSAGE_LENGTH {
            return Err(too_long(payload.len()));
        }
        let header = MessageHeader {
            version: PROTOCOL_VERSION,
            message_type: kind,
            sequence_number,
            timestamp,
            payload_length: payload.len() as u16,
        };
        let checksum = calculate_checksum(&header, payload.as_slice());
        Ok(Message { header, payload, checksum })
    }

    /// Makes the message that `stamped` makes, at the time that the clock
    /// gave; without a time there is no message.
    pub fn stamped_by_clock(
        kind: MessageType,
        payload: Vec<u8>,
        sequence_number: u32,
        now: Option<u64>,
    ) -> (res: UshResult<Message>)
        ensures
            payload@.len() > MAX_MESSAGE_LENGTH ==> protocol_failure(
                res,
                too_long_complaint(payload@.len()),
            ),
            payload@.len() <= MAX_MESSAGE_LENGTH && now is None ==> config_failure(
                res,
                clock_complaint(),
            ),
            payload@.len() <= MAX_MESSAGE_LENGTH && now is Some ==> res is Ok && res->Ok_0@
                == composed(kind, payload@, sequence_number, now->0) && res->Ok_0@.well_formed(),
    {
        if payload.len() > MAX_MESSAGE_LENGTH {
            return Err(too_long(payload.len()));
        }
        match now {
            Some(timestamp) => Message::stamped(kind, payload, sequence_number, timestamp),
            None => Err(
                UshError::Config {
                    message: String::from_str("System clock is before the Unix epoch"),
                },
            ),
        }
    }

    /// Makes a text message that carries the bytes of `text`, stamped with
    /// the time of the wall clock. A text of more than 1024 bytes is refused
    /// as a protocol failure; the only other failure is a clock that stands
    /// before the Unix epoch.
    pub fn new_text(text: &str, sequence_number: u32) -> (res: UshResult<Message>)
        ensures
            text.spec_bytes().len() > MAX_MESSAGE_LENGTH ==> protocol_failure(
                res,
                too_long_complaint(text.spec_bytes().len()),
            ),
            text.spec_bytes().len() <= MAX_MESSAGE_LENGTH ==> match res {
                Ok(message) => message@ == composed(
                    MessageType::Text,
                    text.spec_bytes(),
                    sequence_number,
                    message.header.timestamp,
                ) && message@.well_formed(),
                Err(_) => config_failure(res, clock_complaint()),
            },
    {
        let payload = text.as_bytes_vec();
        Message::stamped_by_clock(MessageType::Text, payload, sequence_number, unix_seconds())
    }

    /// Makes an acknowledgement, which carries nothing, stamped with the time
    /// of the wall clock. It fails only where the clock stands before the
    /// Unix epoch.
    pub fn new_ack(sequence_number: u32) -> (res: UshResult<Message>)
        ensures
            match res {
                Ok(message) => message@ == composed(
                    MessageType::Ack,
                    Seq::<u8>::empty(),
                    sequence_number,
                    message.header.timestamp,
                ) && message@.well_formed(),
                Err(_) => config_failure(res, clock_complaint()),
            },
    {
        let payload: Vec<u8> = Vec::new();
        Message::stamped_by_clock(MessageType::Ack, payload, sequence_number, unix_seconds())
    }

    /// Makes a ping, which carries the four bytes `ping`, stamped with the
    /// time of the wall clock. It fails only where the clock stands before
    /// the Unix epoch.
    pub fn new_ping(sequence_number: u32) -> (res: UshResult<Message>)
        ensures
            match res {
                Ok(message) => message@ == composed(
                    MessageType::Ping,
                    "ping".spec_bytes(),
                    sequence_number,
                    message.header.timestamp,
                ) && message@.well_formed(),
                Err(_) => config_failure(res, clock_complaint()),
            },
    {
        proof {
            reveal_strlit("ping");
            is_ascii_spec_bytes("ping");
        }
        let payload = "ping".as_bytes_vec();
        Message::stamped_by_clock(MessageType::Ping, payload, sequence_number, unix_seconds())
    }

    /// Says whether the checksum that the message carries is the one that
    /// belongs to its header and payload. It never fails.
    pub fn verify_checksum(&self) -> (res: UshResult<bool>)
        ensures
            res is Ok,
            res->Ok_0 == self@.intact(),
    {
        let calculated = calculate_checksum(&self.header, self.payload.as_slice());
        Ok(calculated == self.checksum)
    }

    /// Says whether the message keeps the schema: its header gives the
    /// length of its payload, the payload is within the limit of 1024 bytes,
    /// and its checksum is the one that belongs to header and payload.
    pub fn is_well_formed(&self) -> (res: bool)
        ensures
            res == self@.well_formed(),
    {
        if self.payload.len() != self.header.payload_length as usize {
            return false;
        }
        if self.payload.len() > MAX_MESSAGE_LENGTH {
            return false;
        }
        calculate_checksum(&self.header, self.payload.as_slice()) == self.checksum
    }

    /// The text that a text message carries. A message of another kind, and
    /// a payload that is not valid UTF-8, are protocol failures.
    pub fn get_text(&self) -> (res: UshResult<String>)
        ensures
            self.header.message_type != MessageType::Text ==> protocol_failure(
                res,
                not_text_complaint(),
            ),
            self.header.message_type == MessageType::Text && !valid_utf8(self.payload@)
                ==> protocol_failure(res, invalid_text_complaint()),
            self.header.message_type == MessageType::Text && valid_utf8(self.payload@) ==> res
                is Ok && res->Ok_0@ == decode_utf8(self.payload@),
    {
        match self.header.message_type {
            MessageType::Text => match text_from_utf8(self.payload.clone()) {
                Some(text) => Ok(text),
                None => Err(
                    UshError::Protocol {
                        message: String::from_str("Invalid UTF-8 in text message"),
                    },
                ),
            },
            _ => Err(
                UshError::Protocol { message: String::from_str("Message is not a text message") },
            ),
        }
    }
}

impl Clone for Message {
    fn clone(&self) -> (copy: Self)
        ensures
            copy@ == self@,
    {
        Message { header: self.header, payload: self.payload.clone(), checksum: self.checksum }
    }
}

} // verus!
