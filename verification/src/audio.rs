//! Parameters of the audio device that carries the samples.

use vstd::prelude::*;

verus! {

/// Sample rate used when none is given, in hertz.
pub const SAMPLE_RATE: u32 = 44100;

/// Channel count used when none is given.
pub const CHANNELS: u16 = 1;

/// Frames per device buffer used when none is given.
pub const BUFFER_SIZE: usize = 4096;

/// How the audio device is opened.
#[derive(Debug, Clone, Copy)]
pub struct AudioConfig {
    pub sample_rate: u32,
    pub channels: u16,
    pub buffer_size: usize,
}

impl Default for AudioConfig {
    fn default() -> (config: Self)
        ensures
            config.sample_rate == SAMPLE_RATE,
            config.channels == CHANNELS,
            config.buffer_size == BUFFER_SIZE,
    {
        AudioConfig { sample_rate: SAMPLE_RATE, channels: CHANNELS, buffer_size: BUFFER_SIZE }
    }
}

} // verus!
