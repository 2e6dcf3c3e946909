//! Text-to-speech helpers for a VoiceVox engine: emotion tags in text,
//! WAV/RIFF handling, and the request planning that sits between them.

pub mod agent;
mod error;
pub mod emotion;
pub mod encoding;
pub mod pattern;
pub mod wav;

pub use error::TtsError;
