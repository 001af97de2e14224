//! Acoustic data link: framing, integrity checking and symbol layout for
//! sending bytes as binary frequency-shift-keyed audio.

pub mod audio;
pub mod base64;
pub mod checksum;
pub mod cli;
pub mod error;
pub mod modulation;
pub mod protocol;
pub mod text;

pub use error::{UshError, UshResult};
