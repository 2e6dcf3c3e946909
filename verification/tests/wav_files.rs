use modular_agent_voicevox::wav::{
    concatenate_wavs, find_wav_data_chunk, wav_format_info,
};
use modular_agent_voicevox::TtsError;

fn make_test_wav(pcm_data: &[u8]) -> Vec<u8> {
    let data_size = pcm_data.len() as u32;
    let riff_size = 36 + data_size; // 36 = size of headers after RIFF chunk id+size
    let mut wav = Vec::new();
    // RIFF header
    wav.extend_from_slice(b"RIFF");
    wav.extend_from_slice(&riff_size.to_le_bytes());
    wav.extend_from_slice(b"WAVE");
    // fmt chunk
    wav.extend_from_slice(b"fmt ");
    wav.extend_from_slice(&16u32.to_le_bytes()); // chunk size
    wav.extend_from_slice(&1u16.to_le_bytes()); // PCM format
    wav.extend_from_slice(&1u16.to_le_bytes()); // 1 channel
    wav.extend_from_slice(&24000u32.to_le_bytes()); // sample rate
    wav.extend_from_slice(&48000u32.to_le_bytes()); // byte rate
    wav.extend_from_slice(&2u16.to_le_bytes()); // block align
    wav.extend_from_slice(&16u16.to_le_bytes()); // bits per sample
    // data chunk
    wav.extend_from_slice(b"data");
    wav.extend_from_slice(&data_size.to_le_bytes());
    wav.extend_from_slice(pcm_data);
    wav
}

fn make_test_wav_with_extra_chunk(pcm_data: &[u8]) -> Vec<u8> {
    let data_size = pcm_data.len() as u32;
    // Add a LIST chunk before data to test non-44-byte offset
    let list_data = b"INFO";
    let list_size = list_data.len() as u32;
    let riff_size = 36 + 8 + list_size + data_size;
    let mut wav = Vec::new();
    // RIFF header
    wav.extend_from_slice(b"RIFF");
    wav.extend_from_slice(&riff_size.to_le_bytes());
    wav.extend_from_slice(b"WAVE");
    // fmt chunk
    wav.extend_from_slice(b"fmt ");
    wav.extend_from_slice(&16u32.to_le_bytes());
    wav.extend_from_slice(&1u16.to_le_bytes()); // PCM
    wav.extend_from_slice(&1u16.to_le_bytes()); // 1 channel
    wav.extend_from_slice(&24000u32.to_le_bytes());
    wav.extend_from_slice(&48000u32.to_le_bytes());
    wav.extend_from_slice(&2u16.to_le_bytes());
    wav.extend_from_slice(&16u16.to_le_bytes());
    // LIST chunk (extra, before data)
    wav.extend_from_slice(b"LIST");
    wav.extend_from_slice(&list_size.to_le_bytes());
    wav.extend_from_slice(list_data);
    // data chunk
    wav.extend_from_slice(b"data");
    wav.extend_from_slice(&data_size.to_le_bytes());
    wav.extend_from_slice(pcm_data);
    wav
}

#[test]
fn test_find_wav_data_chunk_standard() {
    let wav = make_test_wav(&[1, 2, 3, 4]);
    let (offset, size) = find_wav_data_chunk(&wav).unwrap();
    assert_eq!(size, 4);
    assert_eq!(&wav[offset..offset + 4], &[1, 2, 3, 4]);
}

#[test]
fn test_find_wav_data_chunk_with_extra() {
    let wav = make_test_wav_with_extra_chunk(&[5, 6, 7, 8]);
    let (offset, size) = find_wav_data_chunk(&wav).unwrap();
    assert_eq!(size, 4);
    assert_eq!(&wav[offset..offset + 4], &[5, 6, 7, 8]);
    // Verify offset is NOT 44
    assert_ne!(offset, 44);
}

#[test]
fn test_find_wav_data_chunk_invalid() {
    let result = find_wav_data_chunk(&[0; 10]);
    assert!(result.is_err());
}

#[test]
fn test_wav_format_info() {
    let wav = make_test_wav(&[]);
    let (sample_rate, channels) = wav_format_info(&wav).unwrap();
    assert_eq!(sample_rate, 24000);
    assert_eq!(channels, 1);
}

#[test]
fn test_concatenate_single_wav() {
    let wav = make_test_wav(&[1, 2, 3, 4]);
    let result = concatenate_wavs(&[wav.clone()]).unwrap();
    assert_eq!(result, wav);
}

#[test]
fn test_concatenate_two_wavs() {
    let wav1 = make_test_wav(&[1, 2, 3, 4]);
    let wav2 = make_test_wav(&[5, 6, 7, 8]);
    let result = concatenate_wavs(&[wav1, wav2]).unwrap();

    // Verify it's a valid WAV
    assert_eq!(&result[0..4], b"RIFF");
    assert_eq!(&result[8..12], b"WAVE");

    // Find data chunk and verify combined PCM
    let (offset, size) = find_wav_data_chunk(&result).unwrap();
    assert_eq!(size, 8);
    assert_eq!(&result[offset..offset + 8], &[1, 2, 3, 4, 5, 6, 7, 8]);
}

#[test]
fn test_concatenate_format_mismatch() {
    let wav1 = make_test_wav(&[1, 2]);
    // Create a WAV with different sample rate
    let mut wav2 = make_test_wav(&[3, 4]);
    // Overwrite sample rate at offset 24
    wav2[24..28].copy_from_slice(&44100u32.to_le_bytes());
    let result = concatenate_wavs(&[wav1, wav2]);
    assert!(result.is_err());
}

#[test]
fn test_concatenate_empty() {
    let result = concatenate_wavs(&[]);
    assert!(result.is_err());
}

#[test]
fn test_concatenate_with_extra_chunks() {
    let wav1 = make_test_wav_with_extra_chunk(&[1, 2]);
    let wav2 = make_test_wav_with_extra_chunk(&[3, 4]);
    let result = concatenate_wavs(&[wav1, wav2]).unwrap();

    let (offset, size) = find_wav_data_chunk(&result).unwrap();
    assert_eq!(size, 4);
    assert_eq!(&result[offset..offset + 4], &[1, 2, 3, 4]);
}

// --- Further cases ---

#[test]
fn find_data_chunk_errors() {
    assert!(matches!(find_wav_data_chunk(&[0; 11]), Err(TtsError::WavTooShort)));
    assert!(matches!(find_wav_data_chunk(&[0; 12]), Err(TtsError::InvalidWavHeader)));
    let mut no_data = make_test_wav(&[1, 2]);
    no_data[36..40].copy_from_slice(b"junk");
    assert!(matches!(find_wav_data_chunk(&no_data), Err(TtsError::DataChunkNotFound)));
    // A header alone holds no chunk.
    let header_only = make_test_wav(&[])[..12].to_vec();
    assert!(matches!(find_wav_data_chunk(&header_only), Err(TtsError::DataChunkNotFound)));
}

#[test]
fn odd_sized_chunks_are_padded() {
    let mut wav = Vec::new();
    wav.extend_from_slice(b"RIFF");
    wav.extend_from_slice(&0u32.to_le_bytes());
    wav.extend_from_slice(b"WAVE");
    wav.extend_from_slice(b"odd ");
    wav.extend_from_slice(&3u32.to_le_bytes());
    wav.extend_from_slice(&[9, 9, 9, 0]); // three bytes and a pad byte
    wav.extend_from_slice(b"data");
    wav.extend_from_slice(&2u32.to_le_bytes());
    wav.extend_from_slice(&[7, 7]);
    assert_eq!(find_wav_data_chunk(&wav).unwrap(), (32, 2));
}

#[test]
fn oversized_chunk_ends_the_walk() {
    let mut wav = make_test_wav(&[1, 2]);
    wav[16..20].copy_from_slice(&u32::MAX.to_le_bytes());
    assert!(matches!(find_wav_data_chunk(&wav), Err(TtsError::DataChunkNotFound)));
}

#[test]
fn format_info_of_short_buffer() {
    assert!(matches!(wav_format_info(&[0; 25]), Err(TtsError::FormatInfoTooShort)));
    assert_eq!(wav_format_info(&[0; 28]).unwrap(), (0, 0));
}

#[test]
fn concatenation_reports_the_mismatch() {
    let wav1 = make_test_wav(&[1, 2]);
    let mut wav2 = make_test_wav(&[3, 4]);
    wav2[22..24].copy_from_slice(&2u16.to_le_bytes());
    match concatenate_wavs(&[wav1, wav2]) {
        Err(TtsError::FormatMismatch { index, expected_rate, expected_channels, rate, channels }) => {
            assert_eq!(index, 1);
            assert_eq!(expected_rate, 24000);
            assert_eq!(expected_channels, 1);
            assert_eq!(rate, 24000);
            assert_eq!(channels, 2);
        }
        _ => panic!("expected a format mismatch"),
    }
}

#[test]
fn concatenation_of_three_rewrites_both_sizes() {
    let wavs = vec![make_test_wav(&[1]), make_test_wav(&[2, 3]), make_test_wav(&[4, 5, 6])];
    let result = concatenate_wavs(&wavs).unwrap();
    assert_eq!(result.len(), 44 + 6);
    assert_eq!(&result[..40], &{
        let mut h = wavs[0][..40].to_vec();
        h[4..8].copy_from_slice(&42u32.to_le_bytes());
        h
    }[..]);
    assert_eq!(&result[4..8], &42u32.to_le_bytes());
    assert_eq!(&result[40..44], &6u32.to_le_bytes());
    assert_eq!(&result[44..], &[1, 2, 3, 4, 5, 6]);
    assert_eq!(wav_format_info(&result).unwrap(), (24000, 1));
}

#[test]
fn declared_size_past_the_end_is_cut() {
    let wav1 = make_test_wav(&[1, 2]);
    let mut wav2 = make_test_wav(&[3, 4]);
    wav2[40..44].copy_from_slice(&100u32.to_le_bytes());
    let result = concatenate_wavs(&[wav1, wav2]).unwrap();
    assert_eq!(&result[44..], &[1, 2, 3, 4]);
    assert_eq!(&result[40..44], &4u32.to_le_bytes());
}

#[test]
fn buffers_under_28_bytes_have_no_format_info() {
    assert!(matches!(wav_format_info(&[0; 26]), Err(TtsError::FormatInfoTooShort)));
    assert!(matches!(wav_format_info(&[0; 27]), Err(TtsError::FormatInfoTooShort)));
    let wav = make_test_wav(&[1, 2]);
    assert!(matches!(
        concatenate_wavs(&[wav.clone(), vec![0; 26]]),
        Err(TtsError::FormatInfoTooShort)
    ));
    assert!(matches!(
        concatenate_wavs(&[vec![0; 27], wav.clone()]),
        Err(TtsError::FormatInfoTooShort)
    ));
    // A single buffer is returned as it is, whatever it holds.
    assert_eq!(concatenate_wavs(&[vec![0; 26]]).unwrap(), vec![0; 26]);
}

#[test]
fn concatenating_in_two_steps_matches_one_step() {
    let a = make_test_wav(&[1, 2]);
    let b = make_test_wav(&[3]);
    let c = make_test_wav(&[4, 5, 6]);
    let ab = concatenate_wavs(&[a.clone(), b.clone()]).unwrap();
    let two_steps = concatenate_wavs(&[ab, c.clone()]).unwrap();
    let one_step = concatenate_wavs(&[a, b, c]).unwrap();
    assert_eq!(two_steps, one_step);
}
