use vstd::prelude::*;

verus! {

/// What can go wrong in the library. Each variant stands for one failure
/// the agent reports; `FormatMismatch` carries the figures that its message shows.
#[derive(Debug)]
pub enum TtsError {
    /// The WAV buffer is shorter than a RIFF header.
    WavTooShort,
    /// The buffer does not start with `RIFF....WAVE`.
    InvalidWavHeader,
    /// No `data` chunk was found while walking the RIFF chunks.
    DataChunkNotFound,
    /// The buffer is too short to hold the `fmt ` fields that are read.
    FormatInfoTooShort,
    /// There was nothing to concatenate.
    NoWavData,
    /// The WAV at `index` has another sample rate or channel count than the first one.
    FormatMismatch { index: usize, expected_rate: u32, expected_channels: u16, rate: u32, channels: u16 },
    /// The combined emotion pattern did not compile; the text is the regex error.
    InvalidPattern(String),
    /// The input value holds no text.
    UnsupportedInput,
    /// The input text is empty.
    EmptyText,
    /// Every segment left after removing the emotion tags is blank.
    NoTextAfterTags,
}

} // verus!
