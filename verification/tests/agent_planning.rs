use modular_agent_voicevox::agent::{
    apply_overrides, audio_data_uri, blank, endpoint_url, input_text, is_whitespace, plan_segments,
    resolve_url,
    EmotionCache, ParamOverrides, VoiceParams, DEFAULT_URL,
};
use modular_agent_voicevox::emotion::EmotionMatcher;
use modular_agent_voicevox::encoding::wav_data_uri;
use modular_agent_voicevox::wav::concatenate_wavs;
use modular_agent_voicevox::TtsError;

fn make_test_wav(pcm_data: &[u8]) -> Vec<u8> {
    let data_size = pcm_data.len() as u32;
    let mut wav = Vec::new();
    wav.extend_from_slice(b"RIFF");
    wav.extend_from_slice(&(36 + data_size).to_le_bytes());
    wav.extend_from_slice(b"WAVE");
    wav.extend_from_slice(b"fmt ");
    wav.extend_from_slice(&16u32.to_le_bytes());
    wav.extend_from_slice(&1u16.to_le_bytes());
    wav.extend_from_slice(&1u16.to_le_bytes());
    wav.extend_from_slice(&24000u32.to_le_bytes());
    wav.extend_from_slice(&48000u32.to_le_bytes());
    wav.extend_from_slice(&2u16.to_le_bytes());
    wav.extend_from_slice(&16u16.to_le_bytes());
    wav.extend_from_slice(b"data");
    wav.extend_from_slice(&data_size.to_le_bytes());
    wav.extend_from_slice(pcm_data);
    wav
}

#[test]
fn url_defaults_when_missing_or_empty() {
    assert_eq!(resolve_url(None), "http://localhost:50021");
    assert_eq!(resolve_url(Some(String::new())), DEFAULT_URL);
    assert_eq!(resolve_url(Some("http://localhost:10101".to_string())), "http://localhost:10101");
}

#[test]
fn endpoint_urls() {
    assert_eq!(endpoint_url("http://localhost:50021", "audio_query"), "http://localhost:50021/audio_query");
    assert_eq!(endpoint_url("http://h", "speakers"), "http://h/speakers");
}

#[test]
fn input_text_takes_the_first_present_source() {
    assert_eq!(input_text(Some("a".into()), Some("b".into()), None).unwrap(), "a");
    assert_eq!(input_text(None, Some("b".into()), Some("c".into())).unwrap(), "b");
    assert_eq!(input_text(None, None, Some("c".into())).unwrap(), "c");
    assert!(matches!(input_text(None, None, None), Err(TtsError::UnsupportedInput)));
    assert!(matches!(input_text(Some(String::new()), Some("b".into()), None), Err(TtsError::EmptyText)));
}

#[test]
fn overrides_replace_only_what_they_give() {
    let defaults = VoiceParams { speaker: 3, speed: 1.0f64, pitch: 0.0, volume: 1.0 };
    let overrides = ParamOverrides { speaker: Some(7), speed: None, pitch: Some(0.1), volume: None };
    let p = apply_overrides(Some(&overrides), &defaults);
    assert_eq!(p.speaker, 7);
    assert_eq!(p.speed, 1.0);
    assert_eq!(p.pitch, 0.1);
    assert_eq!(p.volume, 1.0);
    let q = apply_overrides(None, &defaults);
    assert_eq!((q.speaker, q.speed, q.pitch, q.volume), (3, 1.0, 0.0, 1.0));
}

#[test]
fn blank_text() {
    assert!(blank(""));
    assert!(blank(" \t\n\u{3000}"));
    assert!(!blank(" a "));
}

#[test]
fn plan_without_matcher_is_the_whole_text() {
    let segments = plan_segments("  ", None).unwrap();
    assert_eq!(segments.len(), 1);
    assert!(segments[0].key.is_none());
    assert_eq!(segments[0].text, "  ");
}

#[test]
fn plan_drops_blank_segments() {
    let keys = vec!["((happy))".to_string(), "((sad))".to_string()];
    let matcher = EmotionMatcher::build(&keys).unwrap().unwrap();
    let segments = plan_segments(" ((happy))Hi ((sad))\n", Some(&matcher)).unwrap();
    assert_eq!(segments.len(), 1);
    assert_eq!(segments[0].key.as_deref(), Some("((happy))"));
    assert_eq!(segments[0].text, "Hi ");
    assert!(matches!(plan_segments("((happy)) ((sad))", Some(&matcher)), Err(TtsError::NoTextAfterTags)));
}

#[test]
fn cache_builds_once_until_invalidated() {
    let mut cache = EmotionCache::new();
    assert!(!cache.is_built());
    assert!(cache.matcher().is_none());
    cache.ensure_built(&["((happy))".to_string()]).unwrap();
    assert!(cache.is_built());
    assert!(cache.matcher().is_some());
    // Built already: the keys are not looked at again.
    cache.ensure_built(&[]).unwrap();
    assert!(cache.matcher().is_some());
    cache.invalidate();
    assert!(!cache.is_built());
    assert!(cache.matcher().is_none());
    cache.ensure_built(&[]).unwrap();
    assert!(cache.is_built());
    assert!(cache.matcher().is_none());
}

#[test]
fn cache_error_leaves_it_unbuilt() {
    let mut cache = EmotionCache::new();
    assert!(matches!(cache.ensure_built(&["/[x/".to_string()]), Err(TtsError::InvalidPattern(_))));
    assert!(!cache.is_built());
    assert!(cache.matcher().is_none());
}

#[test]
fn data_uri_is_standard_base64() {
    assert_eq!(wav_data_uri(&[]), "data:audio/wav;base64,");
    assert_eq!(wav_data_uri(&[1, 2, 3]), "data:audio/wav;base64,AQID");
    assert_eq!(wav_data_uri(b"M"), "data:audio/wav;base64,TQ==");
    assert_eq!(wav_data_uri(b"Ma"), "data:audio/wav;base64,TWE=");
    assert_eq!(wav_data_uri(&[0xfb, 0xff, 0xbf]), "data:audio/wav;base64,+/+/");
}

#[test]
fn audio_uri_of_one_or_many_parts() {
    let wav1 = make_test_wav(&[1, 2]);
    let wav2 = make_test_wav(&[3, 4]);
    let single = audio_data_uri(&[wav1.clone()], false).unwrap();
    assert_eq!(single, wav_data_uri(&wav1));
    let joined = concatenate_wavs(&[wav1.clone(), wav2.clone()]).unwrap();
    let both = audio_data_uri(&[wav1.clone(), wav2], true).unwrap();
    assert_eq!(both, wav_data_uri(&joined));
    assert!(matches!(audio_data_uri(&[], true), Err(TtsError::NoWavData)));
}

#[test]
fn whitespace_is_the_unicode_white_space_property() {
    for v in 0u32..=0x10FFFF {
        if let Some(c) = char::from_u32(v) {
            assert_eq!(is_whitespace(c), c.is_whitespace(), "code point {:#x}", v);
        }
    }
    assert!(blank(" \u{3000}\t\n"));
    assert!(!blank(" \u{200B} "));
}
