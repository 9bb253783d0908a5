//! Errors of loading and converting audio.
use vstd::prelude::*;

verus! {

/// Why a recording could not be loaded.
#[derive(Clone, Debug, PartialEq, Eq)]
pub enum AudioError {
    /// The file could not be opened; the system's message.
    FileOpen(String),
    /// No reader knows the file's format.
    UnsupportedFormat,
    /// Decoding or resampling failed; the decoder's message.
    DecodeError(String),
    /// The file holds no audio track.
    NoAudioData,
}

} // verus!
