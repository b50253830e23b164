//! Speech-to-text errors.
//!
//! The whisper engine itself runs in the desktop shell (it needs the model
//! file, the native library and floating-point audio); the library keeps
//! the error vocabulary the commands map onto the wire.
use vstd::prelude::*;

use crate::text::joined;

verus! {

/// What can go wrong loading a model or transcribing.
#[derive(Debug)]
pub enum SttError {
    /// No model file at the resolved path.
    ModelMissing { path: String },
    /// The model path cannot be handed to whisper as UTF-8.
    NonUtf8ModelPath { path: String },
    WhisperInit(String),
    WhisperState(String),
    WhisperRun(String),
    /// No samples were recorded.
    EmptyInput,
}

/// The message of a speech-to-text error. A path that is not valid UTF-8
/// is quoted as the shell hands it over (lossily converted).
pub open spec fn stt_error_text(e: SttError) -> Seq<char> {
    match e {
        SttError::ModelMissing { path } => "model file not found at "@ + path@,
        SttError::NonUtf8ModelPath { path } => "model path is not valid UTF-8: \""@ + path@ + "\""@,
        SttError::WhisperInit(m) => "failed to initialize whisper context: "@ + m@,
        SttError::WhisperState(m) => "failed to create whisper state: "@ + m@,
        SttError::WhisperRun(m) => "failed to run whisper inference: "@ + m@,
        SttError::EmptyInput => "no audio samples to transcribe"@,
    }
}

impl SttError {
    /// The error's message.
    pub fn to_string(&self) -> (r: String)
        ensures
            r@ == stt_error_text(*self),
    {
        match self {
            SttError::ModelMissing { path } => joined("model file not found at ", path.as_str()),
            SttError::NonUtf8ModelPath { path } => {
                let head = joined("model path is not valid UTF-8: \"", path.as_str());
                let r = joined(head.as_str(), "\"");
                r
            },
            SttError::WhisperInit(m) => joined("failed to initialize whisper context: ", m.as_str()),
            SttError::WhisperState(m) => joined("failed to create whisper state: ", m.as_str()),
            SttError::WhisperRun(m) => joined("failed to run whisper inference: ", m.as_str()),
            SttError::EmptyInput => String::from_str("no audio samples to transcribe"),
        }
    }
}

} // verus!
