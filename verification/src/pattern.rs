//! The regular expressions behind emotion tags, compiled and run by the
//! `regex` crate. What the crate computes is named here; the library reasons
//! over those names.
use vstd::prelude::*;
use vstd::string::StringSliceAdditionalSpecFns;
use vstd::utf8::is_char_boundary;

verus! {

#[verifier::external_type_specification]
#[verifier::external_body]
pub struct ExRegex(regex::Regex);

/// What `regex::Regex::new` does with `pattern`: `None` when it compiles,
/// otherwise the text of the error it returns.
pub uninterp spec fn regex_compile_error(pattern: Seq<char>) -> Option<Seq<char>>;

/// The characters that have a meaning in a regex (`regex_syntax::is_meta_character`).
pub open spec fn is_regex_meta(c: char) -> bool {
    c == '\\' || c == '.' || c == '+' || c == '*' || c == '?' || c == '(' || c == ')' || c == '|'
        || c == '[' || c == ']' || c == '{' || c == '}' || c == '^' || c == '$' || c == '#' || c
        == '&' || c == '-' || c == '~'
}

/// `text` with a backslash put before each regex meta character.
pub open spec fn regex_escaped(text: Seq<char>) -> Seq<char>
    decreases text.len(),
{
    if text.len() == 0 {
        Seq::empty()
    } else {
        let c = text.last();
        regex_escaped(text.drop_last()) + if is_regex_meta(c) {
            seq!['\\', c]
        } else {
            seq![c]
        }
    }
}

/// Escaping only adds characters: the result is at least as long as the text.
pub proof fn lemma_escaped_len(text: Seq<char>)
    ensures
        regex_escaped(text).len() >= text.len(),
    decreases text.len(),
{
    if text.len() > 0 {
        lemma_escaped_len(text.drop_last());
    }
}

/// What `Regex::is_match` returns for a regex compiled from `pattern`.
pub uninterp spec fn regex_is_match(pattern: Seq<char>, haystack: Seq<char>) -> bool;

/// The matches that `Regex::captures_iter` yields for a regex compiled from
/// `pattern`, in order: byte offsets of the whole match, and for each capture
/// group (group 0 first) whether it took part in the match.
pub uninterp spec fn regex_captures(pattern: Seq<char>, haystack: Seq<char>) -> Seq<
    (usize, usize, Seq<bool>),
>;

/// A regex together with the pattern it was compiled from. Only
/// `compile_pattern` builds one, so the two always belong together.
pub struct CompiledPattern {
    regex: regex::Regex,
    source: String,
}

impl View for CompiledPattern {
    type V = Seq<char>;

    closed spec fn view(&self) -> Seq<char> {
        self.source@
    }
}

/// One match of a regex: byte offsets of the whole match, and for each
/// capture group (group 0 first) whether it took part.
pub struct MatchSpan {
    pub start: usize,
    pub end: usize,
    pub groups: Vec<bool>,
}

impl View for MatchSpan {
    type V = (usize, usize, Seq<bool>);

    open spec fn view(&self) -> (usize, usize, Seq<bool>) {
        (self.start, self.end, self.groups@)
    }
}

/// The views of a list of matches.
pub open spec fn span_views(spans: Seq<MatchSpan>) -> Seq<(usize, usize, Seq<bool>)> {
    spans.map_values(|m: MatchSpan| m@)
}

/// Every match boundary is a character boundary of `haystack` (so within it).
pub open spec fn spans_on_char_boundaries(
    spans: Seq<(usize, usize, Seq<bool>)>,
    haystack: Seq<u8>,
) -> bool {
    forall|k: int|
        0 <= k < spans.len() ==> is_char_boundary(haystack, #[trigger] spans[k].0 as int)
            && is_char_boundary(haystack, spans[k].1 as int)
}

/// Each match ends no earlier than it starts, and the next one starts no
/// earlier than it ends: matches are successive and do not overlap.
pub open spec fn spans_in_order(spans: Seq<(usize, usize, Seq<bool>)>) -> bool {
    forall|k: int|
        0 <= k < spans.len() ==> (#[trigger] spans[k]).0 <= spans[k].1 && (k > 0 ==> spans[k
            - 1].1 <= spans[k].0)
}

/// `regex::Regex::new`: the compiled regex, or the text of the error. The
/// contract names the outcome; it claims nothing about which patterns compile.
#[verifier::external_body]
pub(crate) fn compile_pattern(pattern: &str) -> (res: Result<CompiledPattern, String>)
    ensures
        match res {
            Ok(compiled) => compiled@ == pattern@ && regex_compile_error(pattern@) is None,
            Err(message) => regex_compile_error(pattern@) == Some(message@),
        },
{
    match regex::Regex::new(pattern) {
        Ok(regex) => Ok(CompiledPattern { regex, source: pattern.to_string() }),
        Err(e) => Err(e.to_string()),
    }
}

/// `regex::escape`: `text` with a backslash before every regex meta character.
#[verifier::external_body]
pub(crate) fn escape_literal(text: &str) -> (escaped: String)
    ensures
        escaped@ == regex_escaped(text@),
{
    regex::escape(text)
}

/// `Regex::is_match`: whether the regex matches anywhere in `haystack`.
#[verifier::external_body]
pub(crate) fn pattern_matches(pattern: &CompiledPattern, haystack: &str) -> (found: bool)
    ensures
        found == regex_is_match(pattern@, haystack@),
{
    pattern.regex.is_match(haystack)
}

/// `Regex::captures_iter`, each match taken apart into plain values. As the
/// crate documents, the matches are successive and non-overlapping, and their
/// offsets fall on UTF-8 character boundaries of the haystack.
#[verifier::external_body]
pub(crate) fn capture_spans(pattern: &CompiledPattern, haystack: &str) -> (spans: Vec<MatchSpan>)
    ensures
        span_views(spans@) == regex_captures(pattern@, haystack@),
        spans_on_char_boundaries(span_views(spans@), haystack.spec_bytes()),
        spans_in_order(span_views(spans@)),
{
    let mut spans = Vec::new();
    for caps in pattern.regex.captures_iter(haystack) {
        let whole = caps.get_match();
        let mut groups = Vec::new();
        for i in 0..caps.len() {
            groups.push(caps.get(i).is_some());
        }
        spans.push(MatchSpan { start: whole.start(), end: whole.end(), groups });
    }
    spans
}

} // verus!
