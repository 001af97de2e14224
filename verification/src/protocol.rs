//! Messages, their serialized form, and the frames that carry them.

pub mod ascii;
pub mod decimal;
pub mod decoder;
pub mod frame;
pub mod laws;
pub mod message;
pub mod reader;
pub mod roundtrip;
pub mod schema;
pub mod size;

pub use decoder::{DecoderState, DecoderView, ProtocolDecoder};
pub use frame::ProtocolEncoder;
pub use message::{Message, MessageHeader, MessageType, MessageView};
