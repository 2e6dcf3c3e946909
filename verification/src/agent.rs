//! The decisions of the TTS agent between its calls to the engine: which
//! engine URL, which text, which segments, which voice parameters for each,
//! when to rebuild the emotion matcher, and how the audio comes back.
use vstd::prelude::*;
use vstd::string::StrSliceExecFns;
use vstd::string::StringExecFns;

use crate::emotion::{
    build_outcome, segment_views, string_views, tagged_segments, EmotionMatcher, EmotionSegment,
};
use crate::encoding::{base64_standard, wav_data_uri, WAV_DATA_URI_PREFIX};
use crate::error::TtsError;
use crate::wav::{
    concatenate_wavs, concatenated_wav, wav_bytes,
};

verus! {

/// The engine URL used when none is configured.
pub const DEFAULT_URL: &'static str = "http://localhost:50021";

/// The engine URL: the configured one unless it is missing or empty.
pub fn resolve_url(configured: Option<String>) -> (url: String)
    ensures
        url@ == match configured {
            Some(u) => if u@.len() > 0 {
                u@
            } else {
                DEFAULT_URL@
            },
            None => DEFAULT_URL@,
        },
{
    match configured {
        Some(u) => {
            if u.as_str().is_empty() {
                DEFAULT_URL.to_owned()
            } else {
                u
            }
        },
        None => DEFAULT_URL.to_owned(),
    }
}

/// `base/endpoint`: the URL of one engine endpoint.
pub fn endpoint_url(base: &str, endpoint: &str) -> (url: String)
    ensures
        url@ == base@ + seq!['/'] + endpoint@,
{
    proof {
        reveal_strlit("/");
    }
    let mut url = base.to_owned();
    url.append("/");
    url.append(endpoint);
    assert(url@ =~= base@ + seq!['/'] + endpoint@);
    url
}

/// The text of an input: a plain string, else the content of a message,
/// else the `text` field of a document; it must not be empty.
pub fn input_text(plain: Option<String>, message: Option<String>, document: Option<String>) -> (res:
    Result<String, TtsError>)
    ensures
        ({
            let chosen = match plain {
                Some(t) => Some(t),
                None => match message {
                    Some(t) => Some(t),
                    None => document,
                },
            };
            match chosen {
                None => res matches Err(TtsError::UnsupportedInput),
                Some(t) => if t@.len() == 0 {
                    res matches Err(TtsError::EmptyText)
                } else {
                    res matches Ok(r) && r@ == t@
                },
            }
        }),
{
    let chosen = match plain {
        Some(t) => Some(t),
        None => match message {
            Some(t) => Some(t),
            None => document,
        },
    };
    match chosen {
        None => Err(TtsError::UnsupportedInput),
        Some(t) => {
            if t.as_str().is_empty() {
                Err(TtsError::EmptyText)
            } else {
                Ok(t)
            }
        },
    }
}

/// Voice parameters of one synthesis request. `F` is the engine's number type.
pub struct VoiceParams<F> {
    pub speaker: i64,
    pub speed: F,
    pub pitch: F,
    pub volume: F,
}

/// The parameters an emotion overrides; `None` keeps the default.
pub struct ParamOverrides<F> {
    pub speaker: Option<i64>,
    pub speed: Option<F>,
    pub pitch: Option<F>,
    pub volume: Option<F>,
}

/// The value of `o`, else `d`.
pub open spec fn or_default<T>(o: Option<T>, d: T) -> T {
    match o {
        Some(v) => v,
        None => d,
    }
}

fn pick<T: Copy>(o: Option<T>, d: T) -> (v: T)
    ensures
        v == or_default(o, d),
{
    match o {
        Some(v) => v,
        None => d,
    }
}

/// The parameters for a segment: each one the emotion gives, else the default.
pub fn apply_overrides<F: Copy>(overrides: Option<&ParamOverrides<F>>, defaults: &VoiceParams<F>) -> (params:
    VoiceParams<F>)
    ensures
        match overrides {
            Some(o) => params.speaker == or_default(o.speaker, defaults.speaker) && params.speed
                == or_default(o.speed, defaults.speed) && params.pitch == or_default(
                o.pitch,
                defaults.pitch,
            ) && params.volume == or_default(o.volume, defaults.volume),
            None => params.speaker == defaults.speaker && params.speed == defaults.speed
                && params.pitch == defaults.pitch && params.volume == defaults.volume,
        },
{
    match overrides {
        Some(o) => VoiceParams {
            speaker: pick(o.speaker, defaults.speaker),
            speed: pick(o.speed, defaults.speed),
            pitch: pick(o.pitch, defaults.pitch),
            volume: pick(o.volume, defaults.volume),
        },
        None => VoiceParams {
            speaker: defaults.speaker,
            speed: defaults.speed,
            pitch: defaults.pitch,
            volume: defaults.volume,
        },
    }
}

/// The Unicode White_Space property (what `char::is_whitespace` and
/// `str::trim` go by): U+0009..U+000D, U+0020, U+0085, U+00A0, U+1680,
/// U+2000..U+200A, U+2028, U+2029, U+202F, U+205F and U+3000.
pub open spec fn char_is_whitespace(c: char) -> bool {
    let v = c as u32;
    ||| 0x9 <= v <= 0xD
    ||| v == 0x20
    ||| v == 0x85
    ||| v == 0xA0
    ||| v == 0x1680
    ||| 0x2000 <= v <= 0x200A
    ||| v == 0x2028
    ||| v == 0x2029
    ||| v == 0x202F
    ||| v == 0x205F
    ||| v == 0x3000
}

/// Whether `c` has the Unicode White_Space property.
pub fn is_whitespace(c: char) -> (b: bool)
    ensures
        b == char_is_whitespace(c),
{
    let v = c as u32;
    (0x9 <= v && v <= 0xD) || v == 0x20 || v == 0x85 || v == 0xA0 || v == 0x1680 || (0x2000 <= v
        && v <= 0x200A) || v == 0x2028 || v == 0x2029 || v == 0x202F || v == 0x205F || v == 0x3000
}

/// Nothing but whitespace (what trimming leaves empty).
pub open spec fn is_blank(text: Seq<char>) -> bool {
    forall|i: int| 0 <= i < text.len() ==> char_is_whitespace(#[trigger] text[i])
}

/// Whether `text` holds nothing but whitespace.
pub fn blank(text: &str) -> (b: bool)
    ensures
        b == is_blank(text@),
{
    let n = text.unicode_len();
    let mut i: usize = 0;
    while i < n
        invariant
            n == text@.len(),
            0 <= i <= n,
            forall|j: int| 0 <= j < i ==> char_is_whitespace(#[trigger] text@[j]),
        decreases n - i,
    {
        if !is_whitespace(text.get_char(i)) {
            return false;
        }
        i = i + 1;
    }
    true
}

/// The segments among the first `n` that are not blank, in order.
pub open spec fn non_blank(segments: Seq<(Option<Seq<char>>, Seq<char>)>, n: int) -> Seq<
    (Option<Seq<char>>, Seq<char>),
>
    decreases n,
{
    if n <= 0 {
        Seq::empty()
    } else if is_blank(segments[n - 1].1) {
        non_blank(segments, n - 1)
    } else {
        non_blank(segments, n - 1).push(segments[n - 1])
    }
}

/// What synthesis plans for `text`: without an emotion matcher, the whole
/// text as one untagged segment; with one, the non-blank tagged segments,
/// an error when none is left.
pub open spec fn planned_segments(matcher: Option<(Seq<char>, Seq<Seq<char>>)>, text: Seq<char>) -> Result<
    Seq<(Option<Seq<char>>, Seq<char>)>,
    (),
> {
    match matcher {
        None => Ok(seq![(None, text)]),
        Some((pattern, keys)) => {
            let tagged = tagged_segments(pattern, keys, text);
            let kept = non_blank(tagged, tagged.len() as int);
            if kept.len() == 0 {
                Err(())
            } else {
                Ok(kept)
            }
        },
    }
}

/// The non-blank segments among the first `n` are those `pred` picks out of them.
proof fn lemma_non_blank_filter(
    segments: Seq<(Option<Seq<char>>, Seq<char>)>,
    n: int,
    pred: spec_fn((Option<Seq<char>>, Seq<char>)) -> bool,
)
    requires
        0 <= n <= segments.len(),
        forall|s: (Option<Seq<char>>, Seq<char>)| #[trigger] pred(s) == !is_blank(s.1),
    ensures
        non_blank(segments, n) == segments.take(n).filter(pred),
    decreases n,
{
    if n > 0 {
        lemma_non_blank_filter(segments, n - 1, pred);
        assert(segments.take(n).drop_last() =~= segments.take(n - 1));
        assert(segments.take(n).last() == segments[n - 1]);
        assert(pred(segments[n - 1]) == !is_blank(segments[n - 1].1));
        reveal_with_fuel(Seq::filter, 1);
    } else {
        assert(segments.take(0) =~= Seq::<(Option<Seq<char>>, Seq<char>)>::empty());
        reveal_with_fuel(Seq::filter, 1);
    }
}

/// Planning with a matcher keeps exactly the tagged segments that hold a
/// character other than whitespace, in order and whatever their key, and
/// fails only when no segment holds one.
pub proof fn lemma_plan_keeps_spoken_segments(pattern: Seq<char>, keys: Seq<Seq<char>>, text: Seq<char>)
    ensures
        ({
            let tagged = tagged_segments(pattern, keys, text);
            let spoken = tagged.filter(
                |s: (Option<Seq<char>>, Seq<char>)|
                    exists|i: int| 0 <= i < s.1.len() && !char_is_whitespace(#[trigger] s.1[i]),
            );
            planned_segments(Some((pattern, keys)), text) == if spoken.len() == 0 {
                Err::<Seq<(Option<Seq<char>>, Seq<char>)>, ()>(())
            } else {
                Ok(spoken)
            }
        }),
{
    let tagged = tagged_segments(pattern, keys, text);
    let pred = |s: (Option<Seq<char>>, Seq<char>)|
        exists|i: int| 0 <= i < s.1.len() && !char_is_whitespace(#[trigger] s.1[i]);
    lemma_non_blank_filter(tagged, tagged.len() as int, pred);
    assert(tagged.take(tagged.len() as int) =~= tagged);
}

/// The pattern and keys of an optional matcher.
pub open spec fn matcher_view(matcher: Option<&EmotionMatcher>) -> Option<(Seq<char>, Seq<Seq<char>>)> {
    match matcher {
        Some(m) => Some((m.pattern_source(), m.key_list())),
        None => None,
    }
}

/// The segments to synthesize, each with the emotion key in force.
pub fn plan_segments(text: &str, matcher: Option<&EmotionMatcher>) -> (res: Result<
    Vec<EmotionSegment>,
    TtsError,
>)
    ensures
        match planned_segments(matcher_view(matcher), text@) {
            Ok(planned) => res matches Ok(segments) && segment_views(segments@) == planned,
            Err(_) => res matches Err(TtsError::NoTextAfterTags),
        },
{
    match matcher {
        None => {
            let mut segments = Vec::new();
            segments.push(EmotionSegment { key: None, text: text.to_owned() });
            assert(segment_views(segments@) =~= seq![(None::<Seq<char>>, text@)]);
            Ok(segments)
        },
        Some(m) => {
            let parsed = m.parse(text);
            let ghost tagged = segment_views(parsed@);
            let mut kept: Vec<EmotionSegment> = Vec::new();
            let mut i: usize = 0;
            let n = parsed.len();
            while i < n
                invariant
                    n == parsed@.len(),
                    tagged == segment_views(parsed@),
                    0 <= i <= n,
                    segment_views(kept@) == non_blank(tagged, i as int),
                decreases n - i,
            {
                let ghost before = kept@;
                assert(tagged[i as int] == parsed@[i as int]@);
                if !blank(parsed[i].text.as_str()) {
                    let key = match &parsed[i].key {
                        Some(k) => Some(k.clone()),
                        None => None,
                    };
                    kept.push(EmotionSegment { key, text: parsed[i].text.clone() });
                    assert(segment_views(kept@) =~= segment_views(before).push(tagged[i as int]));
                }
                i = i + 1;
            }
            if kept.len() == 0 {
                Err(TtsError::NoTextAfterTags)
            } else {
                Ok(kept)
            }
        },
    }
}

/// The audio of the synthesized parts as a data URI: the single part as it
/// is when the text was not cut at emotion tags, else the parts concatenated.
pub fn audio_data_uri(parts: &[Vec<u8>], tagged: bool) -> (res: Result<String, TtsError>)
    requires
        !tagged ==> parts@.len() == 1,
    ensures
        !tagged ==> (res matches Ok(uri) && uri@ == WAV_DATA_URI_PREFIX@ + base64_standard(
            parts@[0]@,
        )),
        tagged ==> match concatenated_wav(wav_bytes(parts@)) {
            Ok(wav) => res matches Ok(uri) && uri@ == WAV_DATA_URI_PREFIX@ + base64_standard(wav),
            Err(e) => res matches Err(err) && err == e,
        },
{
    if !tagged {
        return Ok(wav_data_uri(parts[0].as_slice()));
    }
    match concatenate_wavs(parts) {
        Ok(wav) => Ok(wav_data_uri(wav.as_slice())),
        Err(e) => Err(e),
    }
}

/// The emotion matcher of the agent, built from the emotion map on first use
/// and dropped when the configuration changes.
pub struct EmotionCache {
    matcher: Option<EmotionMatcher>,
    built: bool,
}

impl EmotionCache {
    /// Whether the matcher has been built since the last configuration change.
    pub closed spec fn is_built_spec(&self) -> bool {
        self.built
    }

    /// The matcher held.
    pub closed spec fn cached(&self) -> Option<EmotionMatcher> {
        self.matcher
    }

    /// Nothing built yet.
    pub fn new() -> (cache: Self)
        ensures
            !cache.is_built_spec(),
            cache.cached() is None,
    {
        EmotionCache { matcher: None, built: false }
    }

    /// Forget the matcher; the next use builds it again.
    pub fn invalidate(&mut self)
        ensures
            !final(self).is_built_spec(),
            final(self).cached() is None,
    {
        self.matcher = None;
        self.built = false;
    }

    /// Whether the matcher has been built.
    pub fn is_built(&self) -> (b: bool)
        ensures
            b == self.is_built_spec(),
    {
        self.built
    }

    /// The matcher, if one was built.
    pub fn matcher(&self) -> (m: Option<&EmotionMatcher>)
        ensures
            m == match self.cached() {
                Some(x) => Some(&x),
                None => None::<&EmotionMatcher>,
            },
    {
        match &self.matcher {
            Some(x) => Some(x),
            None => None,
        }
    }

    /// Build the matcher from the emotion map keys unless it is built already.
    /// An empty map gives no matcher; a build error leaves the cache as it was.
    pub fn ensure_built(&mut self, keys: &[String]) -> (res: Result<(), TtsError>)
        ensures
            old(self).is_built_spec() ==> (res is Ok && final(self).is_built_spec()
                && final(self).cached() == old(self).cached()),
            !old(self).is_built_spec() && keys@.len() == 0 ==> (res is Ok
                && final(self).is_built_spec() && final(self).cached() is None),
            !old(self).is_built_spec() && keys@.len() > 0 ==> match res {
                Ok(_) => final(self).is_built_spec() && build_outcome(
                    string_views(keys@),
                    Ok(final(self).cached()),
                ),
                Err(e) => build_outcome(string_views(keys@), Err(e))
                    && final(self).is_built_spec() == old(self).is_built_spec()
                    && final(self).cached() == old(self).cached(),
            },
    {
        if self.built {
            return Ok(());
        }
        if keys.len() == 0 {
            self.matcher = None;
        } else {
            match EmotionMatcher::build(keys) {
                Ok(m) => {
                    self.matcher = m;
                },
                Err(e) => {
                    return Err(e);
                },
            }
        }
        self.built = true;
        Ok(())
    }
}

} // verus!
