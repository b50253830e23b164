//! Audio capture: configuration, errors and the buffer's capacity rule.
//!
//! Samples are `f32` and stay in the desktop shell together with the audio
//! host. What the library decides is how large the pre-allocated sample
//! buffer is and how much of an incoming chunk fits: a full buffer drops
//! the overflow rather than growing, because growing would copy recorded
//! audio into a fresh allocation and free the old one unwiped.
use vstd::prelude::*;

use crate::text::joined;

verus! {

/// Configuration of the input stream as reported by the host.
#[derive(Debug, Clone, PartialEq, Eq, Structural)]
pub struct AudioInputConfig {
    pub sample_rate: u32,
    pub channels: u16,
}

/// Errors surfaced from audio capture. Hardware errors of the host collapse
/// into [`AudioError::StreamBuild`].
#[derive(Debug)]
pub enum AudioError {
    NoInputDevice,
    StreamBuild(String),
    DurationOverflow,
    InvalidDuration { msg: String },
}

/// The message of an audio error.
pub open spec fn audio_error_text(e: AudioError) -> Seq<char> {
    match e {
        AudioError::NoInputDevice => "no default input device available"@,
        AudioError::StreamBuild(m) => "failed to build input stream: "@ + m@,
        AudioError::DurationOverflow => "requested duration would overflow buffer capacity"@,
        AudioError::InvalidDuration { msg } => "invalid recording duration: "@ + msg@,
    }
}

impl AudioError {
    /// The error's message.
    pub fn to_string(&self) -> (r: String)
        ensures
            r@ == audio_error_text(*self),
    {
        match self {
            AudioError::NoInputDevice => String::from_str("no default input device available"),
            AudioError::StreamBuild(m) => joined("failed to build input stream: ", m.as_str()),
            AudioError::DurationOverflow => String::from_str("requested duration would overflow buffer capacity"),
            AudioError::InvalidDuration { msg } => joined("invalid recording duration: ", msg.as_str()),
        }
    }
}

/// Opaque handle to a running input stream; dropping it stops capture.
pub trait AudioStream: Send {
}

/// The number of samples the capture buffer holds for `frames` frames of
/// `channels` interleaved channels; `None` when that does not fit a `usize`.
pub fn buffer_capacity(frames: usize, channels: u16) -> (r: Option<usize>)
    ensures
        match r {
            Some(n) => n == frames * channels,
            None => frames * channels > usize::MAX,
        },
{
    frames.checked_mul(channels as usize)
}

/// How many samples of a chunk of `chunk_len` fit a buffer holding `len`
/// of `capacity` samples: all of them, or as many as there is room for.
pub fn accepted_len(chunk_len: usize, len: usize, capacity: usize) -> (r: usize)
    requires
        len <= capacity,
    ensures
        r <= chunk_len,
        len + r <= capacity,
        r == chunk_len || len + r == capacity,
{
    let room = capacity - len;
    if chunk_len < room {
        chunk_len
    } else {
        room
    }
}

} // verus!
