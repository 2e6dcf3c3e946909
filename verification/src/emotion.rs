//! Emotion tags in text: building one regex from the keys of an emotion map,
//! and cutting text into segments, each tagged with the key that came last.
use vstd::prelude::*;
use vstd::string::StringSliceAdditionalSpecFns;
use vstd::relations::injective_on;
use vstd::set_lib::{lemma_int_range, lemma_map_size, lemma_subset_equality, set_int_range};
use vstd::utf8::*;
use vstd::multiset::Multiset;
use vstd::seq_lib::{commutative_foldl, lemma_fold_left_permutation};

use vstd::string::StrSliceExecFns;
use vstd::string::StringExecFns;

use crate::error::TtsError;
use crate::pattern::{
    capture_spans, compile_pattern, escape_literal, pattern_matches, regex_captures,
    regex_compile_error, regex_escaped, regex_is_match, span_views, spans_in_order,
    spans_on_char_boundaries, CompiledPattern, MatchSpan,
};

verus! {

broadcast use {encode_utf8_valid_utf8, encode_utf8_decode_utf8, valid_utf8_split};

/// A piece of text and the emotion key in force for it (`None` before the first tag).
pub struct EmotionSegment {
    pub key: Option<String>,
    pub text: String,
}

/// The character view of an optional string.
pub open spec fn opt_view(o: Option<String>) -> Option<Seq<char>> {
    match o {
        Some(s) => Some(s@),
        None => None,
    }
}

impl View for EmotionSegment {
    type V = (Option<Seq<char>>, Seq<char>);

    open spec fn view(&self) -> (Option<Seq<char>>, Seq<char>) {
        (opt_view(self.key), self.text@)
    }
}

/// No key, or one of `keys`.
pub open spec fn key_among(key: Option<Seq<char>>, keys: Seq<Seq<char>>) -> bool {
    match key {
        Some(k) => keys.contains(k),
        None => true,
    }
}

/// The character views of a list of strings.
pub open spec fn string_views(strings: Seq<String>) -> Seq<Seq<char>> {
    strings.map_values(|s: String| s@)
}

/// The views of a list of segments.
pub open spec fn segment_views(segments: Seq<EmotionSegment>) -> Seq<
    (Option<Seq<char>>, Seq<char>),
> {
    segments.map_values(|s: EmotionSegment| s@)
}

/// The key of the first capture group (from group 1, one per key) that took
/// part in a match, looking at the keys from index `from` on.
pub open spec fn first_tagged_key(groups: Seq<bool>, keys: Seq<Seq<char>>, from: nat) -> Option<
    Seq<char>,
>
    decreases keys.len() - from,
{
    if from >= keys.len() {
        None
    } else if from + 1 < groups.len() && groups[from + 1int] {
        Some(keys[from as int])
    } else {
        first_tagged_key(groups, keys, from + 1)
    }
}

/// Walking the first `n` matches: the end of the last match, the key in
/// force after it, and the byte ranges of text (with their keys) met so far.
pub open spec fn tag_walk(spans: Seq<(usize, usize, Seq<bool>)>, keys: Seq<Seq<char>>, n: int) -> (
    int,
    Option<Seq<char>>,
    Seq<(Option<Seq<char>>, int, int)>,
)
    decreases n,
{
    if n <= 0 {
        (0, None, Seq::empty())
    } else {
        let (last_end, current, acc) = tag_walk(spans, keys, n - 1);
        let m = spans[n - 1];
        let acc2 = if m.0 > last_end {
            acc.push((current, last_end, m.0 as int))
        } else {
            acc
        };
        (m.1 as int, first_tagged_key(m.2, keys, 0), acc2)
    }
}

/// The byte ranges of the segments of a text of `len` bytes, given its
/// matches: the text before each match that starts after the previous one
/// ended, then the text after the last match, each with the key in force.
pub open spec fn segment_ranges(
    len: int,
    spans: Seq<(usize, usize, Seq<bool>)>,
    keys: Seq<Seq<char>>,
) -> Seq<(Option<Seq<char>>, int, int)> {
    let (last_end, current, acc) = tag_walk(spans, keys, spans.len() as int);
    if last_end < len {
        acc.push((current, last_end, len))
    } else {
        acc
    }
}

/// `segments` are the pieces of the UTF-8 text `bytes` that `ranges` describe.
pub open spec fn segments_match_ranges(
    segments: Seq<(Option<Seq<char>>, Seq<char>)>,
    bytes: Seq<u8>,
    ranges: Seq<(Option<Seq<char>>, int, int)>,
) -> bool {
    &&& segments.len() == ranges.len()
    &&& forall|i: int|
        0 <= i < segments.len() ==> (#[trigger] segments[i]).0 == ranges[i].0 && segments[i].1
            == decode_utf8(bytes.subrange(ranges[i].1, ranges[i].2))
}

/// The keys and texts of the segments that `ranges` describe in the UTF-8 text `bytes`.
pub open spec fn range_texts(bytes: Seq<u8>, ranges: Seq<(Option<Seq<char>>, int, int)>) -> Seq<
    (Option<Seq<char>>, Seq<char>),
> {
    ranges.map_values(
        |r: (Option<Seq<char>>, int, int)| (r.0, decode_utf8(bytes.subrange(r.1, r.2))),
    )
}

/// The segments of `text` under a regex compiled from `pattern` whose capture
/// groups stand for `keys`.
pub open spec fn tagged_segments(pattern: Seq<char>, keys: Seq<Seq<char>>, text: Seq<char>) -> Seq<
    (Option<Seq<char>>, Seq<char>),
> {
    let bytes = encode_utf8(text);
    range_texts(bytes, segment_ranges(bytes.len() as int, regex_captures(pattern, text), keys))
}

proof fn lemma_prefix_boundary(bytes: Seq<u8>, start: int, end: int)
    requires
        valid_utf8(bytes),
        is_char_boundary(bytes, start),
        is_char_boundary(bytes, end),
        0 <= start <= end <= bytes.len(),
    ensures
        is_char_boundary(bytes.subrange(0, end), start),
{
    let head = bytes.subrange(0, end);
    assert(valid_utf8(head));
    if start == end {
        is_char_boundary_start_end_of_seq(head);
    } else if start > 0 {
        is_char_boundary_iff_not_is_continuation_byte(bytes, start);
        is_char_boundary_iff_not_is_continuation_byte(head, start);
    }
}

/// The text between two character boundaries, as its own string.
fn text_between(text: &str, start: usize, end: usize) -> (part: String)
    requires
        start <= end,
        is_char_boundary(text.spec_bytes(), start as int),
        is_char_boundary(text.spec_bytes(), end as int),
    ensures
        part@ == decode_utf8(text.spec_bytes().subrange(start as int, end as int)),
{
    let ghost bytes = text.spec_bytes();
    proof {
        if !(end <= bytes.len()) {
            assert(!is_char_boundary(bytes, end as int));
        }
        lemma_prefix_boundary(bytes, start as int, end as int);
    }
    let (head, _) = text.split_at(end);
    let (_, middle) = head.split_at(start);
    assert(middle.spec_bytes() =~= bytes.subrange(start as int, end as int));
    middle.to_owned()
}

/// The key of the first capture group (from group 1) that took part in a match.
fn tagged_key(groups: &Vec<bool>, keys: &Vec<String>) -> (key: Option<String>)
    ensures
        opt_view(key) == first_tagged_key(groups@, string_views(keys@), 0),
{
    let mut i: usize = 0;
    while i < keys.len()
        invariant
            0 <= i <= keys.len(),
            first_tagged_key(groups@, string_views(keys@), 0) == first_tagged_key(
                groups@,
                string_views(keys@),
                i as nat,
            ),
        decreases keys.len() - i,
    {
        if i + 1 < groups.len() && groups[i + 1] {
            return Some(keys[i].clone());
        }
        i = i + 1;
    }
    None
}

fn clone_key(key: &Option<String>) -> (copy: Option<String>)
    ensures
        opt_view(copy) == opt_view(*key),
{
    match key {
        Some(k) => Some(k.clone()),
        None => None,
    }
}

/// Cut `text` into segments at the given matches. Text before a match
/// belongs to the key of the previous match (or to none); text after the last
/// match belongs to the key of the last. Empty pieces are dropped.
pub fn segments_from_matches(text: &str, spans: &Vec<MatchSpan>, keys: &Vec<String>) -> (segments:
    Vec<EmotionSegment>)
    requires
        spans_on_char_boundaries(span_views(spans@), text.spec_bytes()),
    ensures
        segments_match_ranges(
            segment_views(segments@),
            text.spec_bytes(),
            segment_ranges(
                text.spec_bytes().len() as int,
                span_views(spans@),
                string_views(keys@),
            ),
        ),
{
    let ghost bytes = text.spec_bytes();
    let ghost sv = span_views(spans@);
    let ghost kv = string_views(keys@);
    let mut segments: Vec<EmotionSegment> = Vec::new();
    let mut last_end: usize = 0;
    let mut current: Option<String> = None;
    proof {
        is_char_boundary_start_end_of_seq(bytes);
    }
    let mut k: usize = 0;
    while k < spans.len()
        invariant
            0 <= k <= spans@.len(),
            sv == span_views(spans@),
            kv == string_views(keys@),
            bytes == text.spec_bytes(),
            valid_utf8(bytes),
            spans_on_char_boundaries(sv, bytes),
            is_char_boundary(bytes, last_end as int),
            ({
                let (walk_end, walk_key, acc) = tag_walk(sv, kv, k as int);
                &&& walk_end == last_end
                &&& walk_key == opt_view(current)
                &&& segments_match_ranges(segment_views(segments@), bytes, acc)
            }),
        decreases spans@.len() - k,
    {
        let m = &spans[k];
        assert(sv[k as int] == m@);
        let ghost before = segments@;
        assert(is_char_boundary(bytes, sv[k as int].0 as int));
        assert(is_char_boundary(bytes, sv[k as int].1 as int));
        if m.start > last_end {
            let piece = text_between(text, last_end, m.start);
            segments.push(EmotionSegment { key: clone_key(&current), text: piece });
        }
        proof {
            let (_, _, acc) = tag_walk(sv, kv, k as int);
            let (_, _, acc2) = tag_walk(sv, kv, k + 1);
            assert(segments_match_ranges(segment_views(segments@), bytes, acc2)) by {
                if m.start > last_end {
                    assert(segments@ == before.push(segments@.last()));
                    assert forall|i: int| 0 <= i < segments@.len() implies (#[trigger] segment_views(
                        segments@,
                    )[i]).0 == acc2[i].0 && segment_views(segments@)[i].1 == decode_utf8(
                        bytes.subrange(acc2[i].1, acc2[i].2),
                    ) by {
                        if i < before.len() {
                            assert(segment_views(segments@)[i] == segment_views(before)[i]);
                        }
                    }
                } else {
                    assert(segments@ == before);
                }
            }
        }
        current = tagged_key(&m.groups, keys);
        last_end = m.end;
        k = k + 1;
    }
    let len = text.as_bytes().len();
    if last_end < len {
        proof {
            is_char_boundary_start_end_of_seq(bytes);
            assert(len == bytes.len());
            assert(is_char_boundary(bytes, len as int));
        }
        let ghost before = segments@;
        let piece = text_between(text, last_end, len);
        segments.push(EmotionSegment { key: clone_key(&current), text: piece });
        proof {
            let (_, _, acc) = tag_walk(sv, kv, spans@.len() as int);
            let ranges = segment_ranges(bytes.len() as int, sv, kv);
            assert(ranges == acc.push((opt_view(current), last_end as int, len as int)));
            assert(segments@ == before.push(segments@.last()));
            assert forall|i: int| 0 <= i < segments@.len() implies (#[trigger] segment_views(
                segments@,
            )[i]).0 == ranges[i].0 && segment_views(segments@)[i].1 == decode_utf8(
                bytes.subrange(ranges[i].1, ranges[i].2),
            ) by {
                if i < before.len() {
                    assert(segment_views(segments@)[i] == segment_views(before)[i]);
                }
            }
        }
    }
    segments
}


/// The character views of a list of (key, pattern) pairs.
pub open spec fn pair_views(pairs: Seq<(String, String)>) -> Seq<(Seq<char>, Seq<char>)> {
    pairs.map_values(|p: (String, String)| (p.0@, p.1@))
}

/// The UTF-8 length of the key of each pair.
pub open spec fn key_byte_lens(pairs: Seq<(Seq<char>, Seq<char>)>) -> Seq<int> {
    pairs.map_values(|p: (Seq<char>, Seq<char>)| encode_utf8(p.0).len() as int)
}

/// In an ordering longest first that keeps ties in input order, the item at
/// index `j` comes before the item at index `i`.
pub open spec fn sorts_before(lens: Seq<int>, j: int, i: int) -> bool {
    lens[j] > lens[i] || (lens[j] == lens[i] && j < i)
}

/// How many of the items `0..m` come before item `i`.
pub open spec fn rank_within(lens: Seq<int>, i: int, m: int) -> int
    decreases m,
{
    if m <= 0 {
        0
    } else {
        rank_within(lens, i, m - 1) + if sorts_before(lens, m - 1, i) {
            1int
        } else {
            0int
        }
    }
}

/// The position of item `i` once ordered longest first, ties in input order.
pub open spec fn rank(lens: Seq<int>, i: int) -> int {
    rank_within(lens, i, lens.len() as int)
}

/// The item whose position is `k`.
pub open spec fn rank_holder(lens: Seq<int>, k: int) -> int {
    choose|i: int| 0 <= i < lens.len() && rank(lens, i) == k
}

/// `items` ordered by `lens`, longest first; items of equal length keep their order.
pub open spec fn longest_first<T>(items: Seq<T>, lens: Seq<int>) -> Seq<T> {
    Seq::new(items.len(), |k: int| items[rank_holder(lens, k)])
}

proof fn lemma_rank_bounds(lens: Seq<int>, i: int, m: int)
    requires
        0 <= i < lens.len(),
        0 <= m <= lens.len(),
    ensures
        0 <= rank_within(lens, i, m) <= m - (if i < m {
            1int
        } else {
            0int
        }),
    decreases m,
{
    if m > 0 {
        lemma_rank_bounds(lens, i, m - 1);
    }
}

proof fn lemma_rank_order(lens: Seq<int>, i: int, j: int, m: int)
    requires
        0 <= i < lens.len(),
        0 <= j < lens.len(),
        0 <= m <= lens.len(),
        sorts_before(lens, i, j),
    ensures
        rank_within(lens, j, m) >= rank_within(lens, i, m) + (if i < m {
            1int
        } else {
            0int
        }),
    decreases m,
{
    if m > 0 {
        lemma_rank_order(lens, i, j, m - 1);
    }
}

proof fn lemma_rank_follows_order(lens: Seq<int>, i: int, j: int)
    requires
        0 <= i < lens.len(),
        0 <= j < lens.len(),
        sorts_before(lens, i, j),
    ensures
        rank(lens, i) < rank(lens, j),
{
    lemma_rank_order(lens, i, j, lens.len() as int);
}

proof fn lemma_rank_injective(lens: Seq<int>, i: int, j: int)
    requires
        0 <= i < lens.len(),
        0 <= j < lens.len(),
        i != j,
    ensures
        rank(lens, i) != rank(lens, j),
{
    if sorts_before(lens, i, j) {
        lemma_rank_follows_order(lens, i, j);
    } else {
        lemma_rank_follows_order(lens, j, i);
    }
}

proof fn lemma_rank_onto(lens: Seq<int>, k: int)
    requires
        0 <= k < lens.len(),
    ensures
        0 <= rank_holder(lens, k) < lens.len(),
        rank(lens, rank_holder(lens, k)) == k,
{
    let n = lens.len() as int;
    let dom = set_int_range(0, n);
    let f = |i: int| rank(lens, i);
    let img = dom.map(f);
    lemma_int_range(0, n);
    assert forall|a: int, b: int| dom.contains(a) && dom.contains(b) && #[trigger] f(a) == #[trigger] f(b) implies a == b by {
        if a != b {
            lemma_rank_injective(lens, a, b);
        }
    }
    assert(injective_on(f, dom));
    lemma_map_size(dom, img, f);
    assert forall|x: int| img.contains(x) implies set_int_range(0, n).contains(x) by {
        let i = choose|i: int| dom.contains(i) && f(i) == x;
        lemma_rank_bounds(lens, i, n);
    }
    lemma_subset_equality(img, set_int_range(0, n));
    assert(img.contains(k));
    let i = choose|i: int| dom.contains(i) && f(i) == k;
    assert(0 <= i < n && rank(lens, i) == k);
}

/// The position of item `i` is held by item `i`.
proof fn lemma_rank_holder_of_rank(lens: Seq<int>, i: int)
    requires
        0 <= i < lens.len(),
    ensures
        0 <= rank(lens, i) < lens.len(),
        rank_holder(lens, rank(lens, i)) == i,
{
    lemma_rank_bounds(lens, i, lens.len() as int);
    lemma_rank_onto(lens, rank(lens, i));
    let h = rank_holder(lens, rank(lens, i));
    if h != i {
        lemma_rank_injective(lens, h, i);
    }
}

/// Ordering longest first puts every item exactly once at the position its
/// rank gives; longer items come before shorter ones, and items of equal
/// length keep their input order.
pub proof fn lemma_longest_first_sorted<T>(items: Seq<T>, lens: Seq<int>)
    requires
        items.len() == lens.len(),
    ensures
        longest_first(items, lens).len() == items.len(),
        forall|i: int|
            0 <= i < items.len() ==> 0 <= #[trigger] rank(lens, i) < items.len() && longest_first(
                items,
                lens,
            )[rank(lens, i)] == items[i],
        forall|a: int, b: int|
            0 <= a < b < items.len() ==> lens[rank_holder(lens, a)] >= lens[rank_holder(lens, b)]
                && (lens[rank_holder(lens, a)] == lens[rank_holder(lens, b)] ==> rank_holder(
                lens,
                a,
            ) < rank_holder(lens, b)),
{
    assert forall|i: int| 0 <= i < items.len() implies 0 <= #[trigger] rank(lens, i)
        < items.len() && longest_first(items, lens)[rank(lens, i)] == items[i] by {
        lemma_rank_holder_of_rank(lens, i);
    }
    assert forall|a: int, b: int| 0 <= a < b < items.len() implies lens[rank_holder(lens, a)]
        >= lens[rank_holder(lens, b)] && (lens[rank_holder(lens, a)] == lens[rank_holder(lens, b)]
        ==> rank_holder(lens, a) < rank_holder(lens, b)) by {
        lemma_rank_onto(lens, a);
        lemma_rank_onto(lens, b);
        let i = rank_holder(lens, a);
        let j = rank_holder(lens, b);
        if sorts_before(lens, j, i) {
            lemma_rank_follows_order(lens, j, i);
        }
    }
}

/// Order (key, pattern) pairs by the UTF-8 length of the key, longest first;
/// pairs whose keys are equally long keep their order.
pub fn order_longest_first(items: &Vec<(String, String)>) -> (ordered: Vec<(String, String)>)
    ensures
        pair_views(ordered@) == longest_first(
            pair_views(items@),
            key_byte_lens(pair_views(items@)),
        ),
{
    let n = items.len();
    let ghost pv = pair_views(items@);
    let ghost lv = key_byte_lens(pv);
    let mut lens: Vec<usize> = Vec::new();
    let mut i: usize = 0;
    while i < n
        invariant
            n == items@.len(),
            pv == pair_views(items@),
            lv == key_byte_lens(pv),
            0 <= i <= n,
            lens@.len() == i,
            forall|k: int| 0 <= k < i ==> #[trigger] lens@[k] as int == lv[k],
        decreases n - i,
    {
        let key_len = items[i].0.as_str().as_bytes().len();
        lens.push(key_len);
        i = i + 1;
    }
    let mut ordered: Vec<(String, String)> = Vec::new();
    let mut p: usize = 0;
    while p < n
        invariant
            0 <= p <= n,
            ordered@.len() == p,
        decreases n - p,
    {
        ordered.push((String::new(), String::new()));
        p = p + 1;
    }
    let mut i: usize = 0;
    while i < n
        invariant
            n == items@.len(),
            pv == pair_views(items@),
            lv == key_byte_lens(pv),
            lens@.len() == n,
            forall|k: int| 0 <= k < n ==> #[trigger] lens@[k] as int == lv[k],
            ordered@.len() == n,
            0 <= i <= n,
            forall|k: int|
                0 <= k < i ==> #[trigger] pair_views(ordered@)[rank(lv, k)] == pv[k],
        decreases n - i,
    {
        let mut position: usize = 0;
        let mut j: usize = 0;
        while j < n
            invariant
                n == items@.len(),
                lv.len() == n,
                lens@.len() == n,
                forall|k: int| 0 <= k < n ==> #[trigger] lens@[k] as int == lv[k],
                0 <= i < n,
                0 <= j <= n,
                position == rank_within(lv, i as int, j as int),
            decreases n - j,
        {
            proof {
                lemma_rank_bounds(lv, i as int, j as int);
            }
            if lens[j] > lens[i] || (lens[j] == lens[i] && j < i) {
                position = position + 1;
            }
            j = j + 1;
        }
        proof {
            lemma_rank_bounds(lv, i as int, n as int);
            assert forall|k: int| 0 <= k < i implies rank(lv, k) != rank(lv, i as int) by {
                lemma_rank_injective(lv, k, i as int);
            }
        }
        let ghost before = ordered@;
        let pair = (items[i].0.clone(), items[i].1.clone());
        ordered.set(position, pair);
        proof {
            assert forall|k: int| 0 <= k < i + 1 implies #[trigger] pair_views(ordered@)[rank(
                lv,
                k,
            )] == pv[k] by {
                lemma_rank_bounds(lv, k, n as int);
                if k < i {
                    assert(ordered@[rank(lv, k)] == before[rank(lv, k)]);
                    assert(pair_views(ordered@)[rank(lv, k)] == pair_views(before)[rank(lv, k)]);
                }
            }
        }
        i = i + 1;
    }
    proof {
        assert(pair_views(ordered@) =~= longest_first(pv, lv)) by {
            assert forall|k: int| 0 <= k < n implies #[trigger] pair_views(ordered@)[k]
                == longest_first(pv, lv)[k] by {
                lemma_rank_onto(lv, k);
                let h = rank_holder(lv, k);
                assert(pair_views(ordered@)[rank(lv, h)] == pv[h]);
            }
        }
    }
    ordered
}


/// The keys of a list of (key, pattern) pairs.
pub open spec fn pair_keys(pairs: Seq<(Seq<char>, Seq<char>)>) -> Seq<Seq<char>> {
    pairs.map_values(|p: (Seq<char>, Seq<char>)| p.0)
}

/// The patterns of a list of (key, pattern) pairs.
pub open spec fn pair_patterns(pairs: Seq<(Seq<char>, Seq<char>)>) -> Seq<Seq<char>> {
    pairs.map_values(|p: (Seq<char>, Seq<char>)| p.1)
}

/// `(pattern)`
pub open spec fn grouped(pattern: Seq<char>) -> Seq<char> {
    seq!['('] + pattern + seq![')']
}

/// Each pattern in its own capture group, joined by `|`.
pub open spec fn alternation(patterns: Seq<Seq<char>>) -> Seq<char>
    decreases patterns.len(),
{
    if patterns.len() == 0 {
        Seq::empty()
    } else if patterns.len() == 1 {
        grouped(patterns[0])
    } else {
        alternation(patterns.drop_last()) + seq!['|'] + grouped(patterns.last())
    }
}

/// A key wrapped in slashes (`/.../`, at least two characters) is a regex of its own.
pub open spec fn is_raw_pattern_key(key: Seq<char>) -> bool {
    key.len() >= 2 && key[0] == '/' && key[key.len() - 1] == '/'
}

/// The regex a key stands for: the text between the slashes of a raw key,
/// else the key escaped as a literal.
pub open spec fn key_pattern(key: Seq<char>) -> Seq<char> {
    if is_raw_pattern_key(key) {
        key.subrange(1, key.len() - 1)
    } else {
        regex_escaped(key)
    }
}

/// The pattern of a key, unless the key is empty, the pattern is empty, or
/// the pattern compiles and matches the empty string.
pub open spec fn key_candidate(key: Seq<char>) -> Option<Seq<char>> {
    if key.len() == 0 {
        None
    } else {
        let pattern = key_pattern(key);
        if pattern.len() == 0 || (regex_compile_error(pattern) is None && regex_is_match(
            pattern,
            Seq::empty(),
        )) {
            None
        } else {
            Some(pattern)
        }
    }
}

/// The (key, pattern) pairs kept from the keys `0..n`, in input order.
pub open spec fn candidates(keys: Seq<Seq<char>>, n: int) -> Seq<(Seq<char>, Seq<char>)>
    decreases n,
{
    if n <= 0 {
        Seq::empty()
    } else {
        let kept = candidates(keys, n - 1);
        match key_candidate(keys[n - 1]) {
            Some(pattern) => kept.push((keys[n - 1], pattern)),
            None => kept,
        }
    }
}

/// The kept pairs ordered longest key first.
pub open spec fn ordered_candidates(keys: Seq<Seq<char>>) -> Seq<(Seq<char>, Seq<char>)> {
    let kept = candidates(keys, keys.len() as int);
    longest_first(kept, key_byte_lens(kept))
}

/// The single regex that finds any of the keys.
pub open spec fn combined_pattern(keys: Seq<Seq<char>>) -> Seq<char> {
    alternation(pair_patterns(ordered_candidates(keys)))
}

/// The text between the slashes of a raw-regex key, if the key is one.
pub fn raw_pattern_body(key: &str) -> (body: Option<String>)
    ensures
        match body {
            Some(b) => is_raw_pattern_key(key@) && b@ == key@.subrange(1, key@.len() - 1),
            None => !is_raw_pattern_key(key@),
        },
{
    let n = key.unicode_len();
    if n >= 2 && key.get_char(0) == '/' && key.get_char(n - 1) == '/' {
        Some(key.substring_char(1, n - 1).to_owned())
    } else {
        None
    }
}

/// Each pattern of the pairs in its own capture group, joined by `|`.
pub fn alternation_pattern(pairs: &Vec<(String, String)>) -> (combined: String)
    ensures
        combined@ == alternation(pair_patterns(pair_views(pairs@))),
{
    let ghost patterns = pair_patterns(pair_views(pairs@));
    let mut combined = String::new();
    proof {
        reveal_strlit("(");
        reveal_strlit(")");
        reveal_strlit("|");
    }
    let mut i: usize = 0;
    while i < pairs.len()
        invariant
            0 <= i <= pairs@.len(),
            patterns == pair_patterns(pair_views(pairs@)),
            combined@ == alternation(patterns.take(i as int)),
            "("@ == seq!['('],
            ")"@ == seq![')'],
            "|"@ == seq!['|'],
        decreases pairs@.len() - i,
    {
        let ghost before = combined@;
        if i > 0 {
            combined.append("|");
        }
        combined.append("(");
        combined.append(pairs[i].1.as_str());
        combined.append(")");
        proof {
            let taken = patterns.take(i + 1);
            assert(taken.drop_last() =~= patterns.take(i as int));
            assert(taken.last() == pairs@[i as int].1@);
            if i == 0 {
                assert(combined@ =~= grouped(taken[0]));
            } else {
                assert(combined@ =~= before + seq!['|'] + grouped(taken.last()));
            }
        }
        i = i + 1;
    }
    assert(patterns.take(pairs@.len() as int) =~= patterns);
    combined
}

/// What building a matcher from `keys` gives: no matcher when no key is
/// kept; else a matcher for the combined pattern whose capture groups stand
/// for the kept keys longest first, or the error of the regex crate when
/// that pattern does not compile.
pub open spec fn build_outcome(keys: Seq<Seq<char>>, res: Result<Option<EmotionMatcher>, TtsError>) -> bool {
    let combined = combined_pattern(keys);
    if candidates(keys, keys.len() as int).len() == 0 {
        res matches Ok(None)
    } else {
        match regex_compile_error(combined) {
            None => res matches Ok(Some(m)) && m.pattern_source() == combined && m.key_list()
                == pair_keys(ordered_candidates(keys)),
            Some(message) => res matches Err(TtsError::InvalidPattern(text)) && text@ == message,
        }
    }
}

/// A regex built from the keys of an emotion map, and the key that each of
/// its capture groups stands for.
pub struct EmotionMatcher {
    pattern: CompiledPattern,
    keys: Vec<String>,
}

impl EmotionMatcher {
    /// The pattern the regex was compiled from.
    pub closed spec fn pattern_source(&self) -> Seq<char> {
        self.pattern@
    }

    /// The key of capture group `i + 1`, for each `i`.
    pub closed spec fn key_list(&self) -> Seq<Seq<char>> {
        string_views(self.keys@)
    }

    /// Build a matcher from the keys of an emotion map. Empty keys, keys whose
    /// pattern is empty, and patterns that match the empty string are skipped;
    /// `None` when nothing is left. The rest are ordered longest key first
    /// (specific before generic) and joined into one regex.
    pub fn build(raw_keys: &[String]) -> (res: Result<Option<EmotionMatcher>, TtsError>)
        ensures
            build_outcome(string_views(raw_keys@), res),
    {
        let ghost keys = string_views(raw_keys@);
        let n = raw_keys.len();
        let mut patterns: Vec<(String, String)> = Vec::new();
        let mut i: usize = 0;
        while i < n
            invariant
                n == raw_keys@.len(),
                keys == string_views(raw_keys@),
                0 <= i <= n,
                pair_views(patterns@) == candidates(keys, i as int),
            decreases n - i,
        {
            let key = raw_keys[i].as_str();
            assert(key@ == keys[i as int]);
            if !key.is_empty() {
                let pattern = match raw_pattern_body(key) {
                    Some(body) => body,
                    None => escape_literal(key),
                };
                if !pattern.as_str().is_empty() {
                    let empty = String::new();
                    let matches_empty = match compile_pattern(pattern.as_str()) {
                        Ok(test_re) => pattern_matches(&test_re, empty.as_str()),
                        Err(_) => false,
                    };
                    if !matches_empty {
                        patterns.push((raw_keys[i].clone(), pattern));
                    }
                }
            }
            proof {
                assert(pair_views(patterns@) =~= candidates(keys, i + 1));
            }
            i = i + 1;
        }
        if patterns.len() == 0 {
            return Ok(None);
        }
        let ordered = order_longest_first(&patterns);
        let combined = alternation_pattern(&ordered);
        match compile_pattern(combined.as_str()) {
            Ok(pattern) => {
                let mut ordered_keys: Vec<String> = Vec::new();
                let mut k: usize = 0;
                while k < ordered.len()
                    invariant
                        0 <= k <= ordered@.len(),
                        ordered_keys@.len() == k,
                        forall|j: int|
                            0 <= j < k ==> #[trigger] ordered_keys@[j]@ == ordered@[j].0@,
                    decreases ordered@.len() - k,
                {
                    ordered_keys.push(ordered[k].0.clone());
                    k = k + 1;
                }
                let matcher = EmotionMatcher { pattern, keys: ordered_keys };
                assert(matcher.key_list() =~= pair_keys(pair_views(ordered@)));
                Ok(Some(matcher))
            },
            Err(message) => Err(TtsError::InvalidPattern(message)),
        }
    }

    /// Cut `text` into segments at the emotion tags: text before the first tag
    /// has no key, text after a tag has the key of that tag; empty pieces are
    /// dropped.
    pub fn parse(&self, text: &str) -> (segments: Vec<EmotionSegment>)
        ensures
            segment_views(segments@) == tagged_segments(
                self.pattern_source(),
                self.key_list(),
                text@,
            ),
            spans_on_char_boundaries(
                regex_captures(self.pattern_source(), text@),
                text.spec_bytes(),
            ),
            spans_in_order(regex_captures(self.pattern_source(), text@)),
            forall|i: int| 0 <= i < segments@.len() ==> (#[trigger] segments@[i]).text@.len() > 0,
            forall|i: int|
                0 <= i < segments@.len() ==> key_among((#[trigger] segments@[i])@.0, self.key_list()),
            text@.len() == 0 ==> segments@.len() == 0,
    {
        let spans = capture_spans(&self.pattern, text);
        let segments = segments_from_matches(text, &spans, &self.keys);
        let ghost tagged = tagged_segments(self.pattern_source(), self.key_list(), text@);
        assert(segment_views(segments@) =~= tagged);
        proof {
            lemma_segments_not_empty(self.pattern_source(), self.key_list(), text@);
            lemma_segment_keys_in_keys(self.pattern_source(), self.key_list(), text@);
            if text@.len() == 0 {
                lemma_empty_text_no_segments(self.pattern_source(), self.key_list(), text@);
            }
            assert forall|i: int| 0 <= i < segments@.len() implies (#[trigger] segments@[i]).text@.len() > 0
                && key_among((segments@[i])@.0, self.key_list()) by {
                assert(segment_views(segments@)[i] == segments@[i]@);
                assert(tagged[i] == segments@[i]@);
            }
        }
        segments
    }
}


/// The end of the match before match `k` (0 for the first).
pub open spec fn end_before(spans: Seq<(usize, usize, Seq<bool>)>, k: int) -> int {
    if k <= 0 {
        0
    } else {
        spans[k - 1].1 as int
    }
}

/// The text in front of each of the first `n` matches (after the one before it).
pub open spec fn text_before_tags(bytes: Seq<u8>, spans: Seq<(usize, usize, Seq<bool>)>, n: int) -> Seq<
    u8,
>
    decreases n,
{
    if n <= 0 {
        Seq::empty()
    } else {
        text_before_tags(bytes, spans, n - 1) + bytes.subrange(
            end_before(spans, n - 1),
            spans[n - 1].0 as int,
        )
    }
}

/// The text with every match cut out.
pub open spec fn untagged_text(bytes: Seq<u8>, spans: Seq<(usize, usize, Seq<bool>)>) -> Seq<u8> {
    let n = spans.len() as int;
    text_before_tags(bytes, spans, n) + bytes.subrange(end_before(spans, n), bytes.len() as int)
}

/// The texts of the segments, one after the other.
pub open spec fn joined_texts(segments: Seq<(Option<Seq<char>>, Seq<char>)>) -> Seq<char>
    decreases segments.len(),
{
    if segments.len() == 0 {
        Seq::empty()
    } else {
        joined_texts(segments.drop_last()) + segments.last().1
    }
}

/// The byte ranges, read one after the other.
pub open spec fn joined_ranges(bytes: Seq<u8>, ranges: Seq<(Option<Seq<char>>, int, int)>) -> Seq<
    u8,
>
    decreases ranges.len(),
{
    if ranges.len() == 0 {
        Seq::empty()
    } else {
        joined_ranges(bytes, ranges.drop_last()) + bytes.subrange(
            ranges.last().1,
            ranges.last().2,
        )
    }
}

/// Each range is non-empty and runs between two character boundaries.
pub open spec fn ranges_on_boundaries(bytes: Seq<u8>, ranges: Seq<(Option<Seq<char>>, int, int)>) -> bool {
    forall|i: int|
        0 <= i < ranges.len() ==> (#[trigger] ranges[i]).1 < ranges[i].2 && is_char_boundary(
            bytes,
            ranges[i].1,
        ) && is_char_boundary(bytes, ranges[i].2)
}

proof fn lemma_walk_ranges(
    bytes: Seq<u8>,
    spans: Seq<(usize, usize, Seq<bool>)>,
    keys: Seq<Seq<char>>,
    n: int,
)
    requires
        valid_utf8(bytes),
        spans_on_char_boundaries(spans, bytes),
        0 <= n <= spans.len(),
    ensures
        is_char_boundary(bytes, tag_walk(spans, keys, n).0),
        ranges_on_boundaries(bytes, tag_walk(spans, keys, n).2),
    decreases n,
{
    is_char_boundary_start_end_of_seq(bytes);
    if n > 0 {
        lemma_walk_ranges(bytes, spans, keys, n - 1);
        assert(is_char_boundary(bytes, spans[n - 1].0 as int));
    }
}

proof fn lemma_walk_join(
    bytes: Seq<u8>,
    spans: Seq<(usize, usize, Seq<bool>)>,
    keys: Seq<Seq<char>>,
    n: int,
)
    requires
        valid_utf8(bytes),
        spans_on_char_boundaries(spans, bytes),
        spans_in_order(spans),
        0 <= n <= spans.len(),
    ensures
        tag_walk(spans, keys, n).0 == end_before(spans, n),
        joined_ranges(bytes, tag_walk(spans, keys, n).2) == text_before_tags(bytes, spans, n),
    decreases n,
{
    if n > 0 {
        lemma_walk_join(bytes, spans, keys, n - 1);
        let (last_end, current, acc) = tag_walk(spans, keys, n - 1);
        let m = spans[n - 1];
        if m.0 > last_end {
            assert(acc.push((current, last_end, m.0 as int)).drop_last() =~= acc);
        } else {
            assert(spans[n - 1].0 <= spans[n - 1].1);
            assert(is_char_boundary(bytes, spans[n - 1].0 as int));
            if m.0 > bytes.len() {
                assert(!is_char_boundary(bytes, m.0 as int));
            }
            assert(last_end == m.0);
            assert(bytes.subrange(last_end, m.0 as int) =~= Seq::<u8>::empty());
            assert(text_before_tags(bytes, spans, n - 1) + Seq::<u8>::empty() =~= text_before_tags(
                bytes,
                spans,
                n - 1,
            ));
        }
    }
}

proof fn lemma_sub_valid(bytes: Seq<u8>, a: int, b: int)
    requires
        valid_utf8(bytes),
        is_char_boundary(bytes, a),
        is_char_boundary(bytes, b),
        a <= b,
    ensures
        valid_utf8(bytes.subrange(a, b)),
{
    if !(b <= bytes.len()) {
        assert(!is_char_boundary(bytes, b));
    }
    if a < 0 {
        assert(!is_char_boundary(bytes, a));
    }
    lemma_prefix_boundary(bytes, a, b);
    let head = bytes.subrange(0, b);
    assert(valid_utf8(head));
    assert(valid_utf8(head.subrange(a, head.len() as int)));
    assert(head.subrange(a, head.len() as int) =~= bytes.subrange(a, b));
}

proof fn lemma_encode_concat(a: Seq<char>, b: Seq<char>)
    ensures
        encode_utf8(a + b) == encode_utf8(a) + encode_utf8(b),
    decreases a.len(),
{
    if a.len() == 0 {
        assert(a + b =~= b);
    } else {
        lemma_encode_concat(a.drop_first(), b);
        assert((a + b).drop_first() =~= a.drop_first() + b);
        assert((a + b)[0] == a[0]);
    }
}

proof fn lemma_joined_encoding(bytes: Seq<u8>, ranges: Seq<(Option<Seq<char>>, int, int)>)
    requires
        valid_utf8(bytes),
        ranges_on_boundaries(bytes, ranges),
    ensures
        encode_utf8(joined_texts(range_texts(bytes, ranges))) == joined_ranges(bytes, ranges),
    decreases ranges.len(),
{
    if ranges.len() > 0 {
        let rest = ranges.drop_last();
        assert(ranges_on_boundaries(bytes, rest)) by {
            assert forall|i: int| 0 <= i < rest.len() implies (#[trigger] rest[i]).1 < rest[i].2
                && is_char_boundary(bytes, rest[i].1) && is_char_boundary(bytes, rest[i].2) by {
                assert(rest[i] == ranges[i]);
            }
        }
        lemma_joined_encoding(bytes, rest);
        let texts = range_texts(bytes, ranges);
        assert(texts.drop_last() =~= range_texts(bytes, rest));
        let last = ranges.last();
        assert(last == ranges[ranges.len() - 1]);
        lemma_sub_valid(bytes, last.1, last.2);
        let sub = bytes.subrange(last.1, last.2);
        decode_utf8_encode_utf8(sub);
        lemma_encode_concat(joined_texts(texts.drop_last()), texts.last().1);
    }
}

/// No segment is empty: each is a non-empty run of text between tags.
pub proof fn lemma_segments_not_empty(pattern: Seq<char>, keys: Seq<Seq<char>>, text: Seq<char>)
    requires
        spans_on_char_boundaries(regex_captures(pattern, text), encode_utf8(text)),
    ensures
        forall|i: int|
            0 <= i < tagged_segments(pattern, keys, text).len() ==> (#[trigger] tagged_segments(
                pattern,
                keys,
                text,
            )[i]).1.len() > 0,
{
    let bytes = encode_utf8(text);
    let spans = regex_captures(pattern, text);
    let n = spans.len() as int;
    lemma_walk_ranges(bytes, spans, keys, n);
    is_char_boundary_start_end_of_seq(bytes);
    let ranges = segment_ranges(bytes.len() as int, spans, keys);
    assert(ranges_on_boundaries(bytes, ranges)) by {
        let (last_end, current, acc) = tag_walk(spans, keys, n);
        if last_end < bytes.len() {
            assert forall|i: int| 0 <= i < ranges.len() implies (#[trigger] ranges[i]).1
                < ranges[i].2 && is_char_boundary(bytes, ranges[i].1) && is_char_boundary(
                bytes,
                ranges[i].2,
            ) by {
                if i < acc.len() {
                    assert(ranges[i] == acc[i]);
                }
            }
        }
    }
    assert forall|i: int| 0 <= i < tagged_segments(pattern, keys, text).len() implies (
    #[trigger] tagged_segments(pattern, keys, text)[i]).1.len() > 0 by {
        let r = ranges[i];
        lemma_sub_valid(bytes, r.1, r.2);
        let sub = bytes.subrange(r.1, r.2);
        assert(sub.len() > 0);
        assert(decode_utf8(sub).len() > 0);
    }
}

/// Empty text has no segments.
pub proof fn lemma_empty_text_no_segments(pattern: Seq<char>, keys: Seq<Seq<char>>, text: Seq<char>)
    requires
        spans_on_char_boundaries(regex_captures(pattern, text), encode_utf8(text)),
        text.len() == 0,
    ensures
        tagged_segments(pattern, keys, text).len() == 0,
{
    let bytes = encode_utf8(text);
    assert(bytes.len() == 0);
    let spans = regex_captures(pattern, text);
    let n = spans.len() as int;
    lemma_walk_ranges(bytes, spans, keys, n);
    let (last_end, current, acc) = tag_walk(spans, keys, n);
    if acc.len() > 0 {
        let r = acc[0];
        assert(r.1 < r.2 && is_char_boundary(bytes, r.1) && is_char_boundary(bytes, r.2));
        if r.1 < 0 {
            assert(!is_char_boundary(bytes, r.1));
        }
        assert(!is_char_boundary(bytes, r.2));
    }
    if last_end > 0 {
        assert(!is_char_boundary(bytes, last_end));
    }
}

/// The key of the first taking-part group is one of the keys.
proof fn lemma_first_tagged_key_in_keys(groups: Seq<bool>, keys: Seq<Seq<char>>, from: nat)
    ensures
        key_among(first_tagged_key(groups, keys, from), keys),
    decreases keys.len() - from,
{
    if from < keys.len() {
        if !(from + 1 < groups.len() && groups[from + 1int]) {
            lemma_first_tagged_key_in_keys(groups, keys, from + 1);
        } else {
            assert(keys[from as int] == keys[from as int]);
        }
    }
}

/// Every key the walk hands out is one of the keys.
proof fn lemma_walk_keys(spans: Seq<(usize, usize, Seq<bool>)>, keys: Seq<Seq<char>>, n: int)
    ensures
        key_among(tag_walk(spans, keys, n).1, keys),
        forall|i: int|
            0 <= i < tag_walk(spans, keys, n).2.len() ==> key_among((#[trigger] tag_walk(spans, keys, n).2[i]).0, keys),
    decreases n,
{
    if n > 0 {
        lemma_walk_keys(spans, keys, n - 1);
        lemma_first_tagged_key_in_keys(spans[n - 1].2, keys, 0);
        let (last_end, current, acc) = tag_walk(spans, keys, n - 1);
        let m = spans[n - 1];
        if m.0 > last_end {
            let acc2 = acc.push((current, last_end, m.0 as int));
            assert forall|i: int| 0 <= i < acc2.len() implies key_among((#[trigger] acc2[i]).0, keys) by {
                if i < acc.len() {
                    assert(acc2[i] == acc[i]);
                }
            }
        }
    }
}

/// Every segment's key is one of the keys.
pub proof fn lemma_segment_keys_in_keys(pattern: Seq<char>, keys: Seq<Seq<char>>, text: Seq<char>)
    ensures
        forall|i: int|
            0 <= i < tagged_segments(pattern, keys, text).len() ==> key_among(
                (#[trigger] tagged_segments(pattern, keys, text)[i]).0,
                keys,
            ),
{
    let bytes = encode_utf8(text);
    let spans = regex_captures(pattern, text);
    let n = spans.len() as int;
    lemma_walk_keys(spans, keys, n);
    let (last_end, current, acc) = tag_walk(spans, keys, n);
    let ranges = segment_ranges(bytes.len() as int, spans, keys);
    assert forall|i: int| 0 <= i < tagged_segments(pattern, keys, text).len() implies key_among(
        (#[trigger] tagged_segments(pattern, keys, text)[i]).0,
        keys,
    ) by {
        assert(tagged_segments(pattern, keys, text)[i].0 == ranges[i].0);
        if i < acc.len() {
            assert(ranges[i] == acc[i]);
        }
    }
}

/// Text without tags is one segment, with no key.
pub proof fn lemma_untagged_text_is_one_segment(
    pattern: Seq<char>,
    keys: Seq<Seq<char>>,
    text: Seq<char>,
)
    requires
        regex_captures(pattern, text).len() == 0,
        text.len() > 0,
    ensures
        tagged_segments(pattern, keys, text) == seq![(None::<Seq<char>>, text)],
{
    let bytes = encode_utf8(text);
    assert(bytes.len() > 0) by {
        assert(bytes == encode_scalar(text[0] as u32) + encode_utf8(text.drop_first()));
    }
    assert(bytes.subrange(0, bytes.len() as int) =~= bytes);
    assert(tagged_segments(pattern, keys, text) =~= seq![(None::<Seq<char>>, text)]);
}

/// Only the tags are cut out: the segments, read one after the other, are
/// the text without its matches, every other character kept and in order.
pub proof fn lemma_segments_keep_untagged_text(
    pattern: Seq<char>,
    keys: Seq<Seq<char>>,
    text: Seq<char>,
)
    requires
        spans_on_char_boundaries(regex_captures(pattern, text), encode_utf8(text)),
        spans_in_order(regex_captures(pattern, text)),
    ensures
        encode_utf8(joined_texts(tagged_segments(pattern, keys, text))) == untagged_text(
            encode_utf8(text),
            regex_captures(pattern, text),
        ),
{
    let bytes = encode_utf8(text);
    let spans = regex_captures(pattern, text);
    let n = spans.len() as int;
    lemma_walk_ranges(bytes, spans, keys, n);
    lemma_walk_join(bytes, spans, keys, n);
    is_char_boundary_start_end_of_seq(bytes);
    let (last_end, current, acc) = tag_walk(spans, keys, n);
    let ranges = segment_ranges(bytes.len() as int, spans, keys);
    assert(ranges_on_boundaries(bytes, ranges)) by {
        if last_end < bytes.len() {
            assert forall|i: int| 0 <= i < ranges.len() implies (#[trigger] ranges[i]).1
                < ranges[i].2 && is_char_boundary(bytes, ranges[i].1) && is_char_boundary(
                bytes,
                ranges[i].2,
            ) by {
                if i < acc.len() {
                    assert(ranges[i] == acc[i]);
                }
            }
        }
    }
    lemma_joined_encoding(bytes, ranges);
    if last_end < bytes.len() {
        assert(ranges.drop_last() =~= acc);
    } else {
        assert(last_end <= bytes.len()) by {
            if last_end > bytes.len() {
                assert(!is_char_boundary(bytes, last_end));
            }
        }
        assert(bytes.subrange(last_end, bytes.len() as int) =~= Seq::<u8>::empty());
        assert(text_before_tags(bytes, spans, n) + Seq::<u8>::empty() =~= text_before_tags(
            bytes,
            spans,
            n,
        ));
    }
}


/// The lengths are pairwise different.
pub open spec fn lens_distinct(lens: Seq<int>) -> bool {
    forall|i: int, j: int| 0 <= i < j < lens.len() ==> lens[i] != lens[j]
}

/// The keys that building keeps from `keys` have pairwise different UTF-8 lengths.
pub open spec fn kept_lengths_distinct(keys: Seq<Seq<char>>) -> bool {
    lens_distinct(key_byte_lens(candidates(keys, keys.len() as int)))
}

/// Counting step: one more when the key of the pair is longer than `v` bytes.
pub open spec fn longer_step(v: int) -> spec_fn(int, (Seq<char>, Seq<char>)) -> int {
    |acc: int, p: (Seq<char>, Seq<char>)|
        acc + if encode_utf8(p.0).len() > v {
            1int
        } else {
            0int
        }
}

/// Counting step: one more when the key of the pair is exactly `v` bytes long.
pub open spec fn same_len_step(v: int) -> spec_fn(int, (Seq<char>, Seq<char>)) -> int {
    |acc: int, p: (Seq<char>, Seq<char>)|
        acc + if encode_utf8(p.0).len() == v {
            1int
        } else {
            0int
        }
}

/// Collecting step: the (key, pattern) pair of a kept key joins the multiset.
pub open spec fn kept_step() -> spec_fn(Multiset<(Seq<char>, Seq<char>)>, Seq<char>) -> Multiset<
    (Seq<char>, Seq<char>),
> {
    |m: Multiset<(Seq<char>, Seq<char>)>, key: Seq<char>|
        match key_candidate(key) {
            Some(pattern) => m.insert((key, pattern)),
            None => m,
        }
}

proof fn lemma_kept_step_commutes()
    ensures
        commutative_foldl(kept_step()),
{
    broadcast use vstd::multiset::group_multiset_axioms;

    assert forall|m: Multiset<(Seq<char>, Seq<char>)>, x: Seq<char>, y: Seq<char>|
        #[trigger] kept_step()(kept_step()(m, x), y) == kept_step()(kept_step()(m, y), x) by {
        assert(kept_step()(kept_step()(m, x), y) =~= kept_step()(kept_step()(m, y), x));
    }
}

proof fn lemma_count_steps_commute(v: int)
    ensures
        commutative_foldl(longer_step(v)),
        commutative_foldl(same_len_step(v)),
{
}

proof fn lemma_candidates_multiset(keys: Seq<Seq<char>>, n: int)
    requires
        0 <= n <= keys.len(),
    ensures
        candidates(keys, n).to_multiset() == keys.subrange(0, n).fold_left(
            Multiset::empty(),
            kept_step(),
        ),
    decreases n,
{
    broadcast use vstd::seq_lib::group_to_multiset_ensures;

    if n == 0 {
        assert(candidates(keys, 0).to_multiset() =~= Multiset::empty());
    } else {
        lemma_candidates_multiset(keys, n - 1);
        assert(keys.subrange(0, n).drop_last() =~= keys.subrange(0, n - 1));
        assert(keys.subrange(0, n).last() == keys[n - 1]);
    }
}

proof fn lemma_rank_counts_longer(items: Seq<(Seq<char>, Seq<char>)>, i: int, m: int)
    requires
        0 <= i < items.len(),
        0 <= m <= items.len(),
        lens_distinct(key_byte_lens(items)),
    ensures
        rank_within(key_byte_lens(items), i, m) == items.subrange(0, m).fold_left(
            0int,
            longer_step(key_byte_lens(items)[i]),
        ),
    decreases m,
{
    let lens = key_byte_lens(items);
    if m > 0 {
        lemma_rank_counts_longer(items, i, m - 1);
        assert(items.subrange(0, m).drop_last() =~= items.subrange(0, m - 1));
        assert(items.subrange(0, m).last() == items[m - 1]);
        if m - 1 < i {
            assert(lens[m - 1] != lens[i]);
        } else if m - 1 > i {
            assert(lens[i] != lens[m - 1]);
        }
    }
}

proof fn lemma_count_nonneg(items: Seq<(Seq<char>, Seq<char>)>, v: int, m: int)
    requires
        0 <= m <= items.len(),
    ensures
        items.subrange(0, m).fold_left(0int, same_len_step(v)) >= 0,
    decreases m,
{
    if m > 0 {
        lemma_count_nonneg(items, v, m - 1);
        assert(items.subrange(0, m).drop_last() =~= items.subrange(0, m - 1));
    }
}

proof fn lemma_count_one_hit(items: Seq<(Seq<char>, Seq<char>)>, m: int, p: int)
    requires
        0 <= p < m <= items.len(),
    ensures
        items.subrange(0, m).fold_left(0int, same_len_step(key_byte_lens(items)[p])) >= 1,
    decreases m,
{
    let v = key_byte_lens(items)[p];
    assert(items.subrange(0, m).drop_last() =~= items.subrange(0, m - 1));
    assert(items.subrange(0, m).last() == items[m - 1]);
    if p == m - 1 {
        lemma_count_nonneg(items, v, m - 1);
    } else {
        lemma_count_one_hit(items, m - 1, p);
    }
}

proof fn lemma_count_two_hits(items: Seq<(Seq<char>, Seq<char>)>, m: int, p: int, q: int)
    requires
        0 <= p < q < m <= items.len(),
        key_byte_lens(items)[p] == key_byte_lens(items)[q],
    ensures
        items.subrange(0, m).fold_left(0int, same_len_step(key_byte_lens(items)[p])) >= 2,
    decreases m,
{
    let v = key_byte_lens(items)[p];
    assert(items.subrange(0, m).drop_last() =~= items.subrange(0, m - 1));
    assert(items.subrange(0, m).last() == items[m - 1]);
    if q == m - 1 {
        lemma_count_one_hit(items, m - 1, p);
    } else {
        lemma_count_two_hits(items, m - 1, p, q);
    }
}

proof fn lemma_count_distinct(items: Seq<(Seq<char>, Seq<char>)>, m: int, p: int)
    requires
        0 <= p < items.len(),
        0 <= m <= items.len(),
        lens_distinct(key_byte_lens(items)),
    ensures
        items.subrange(0, m).fold_left(0int, same_len_step(key_byte_lens(items)[p])) == if p < m {
            1int
        } else {
            0int
        },
    decreases m,
{
    let lens = key_byte_lens(items);
    if m > 0 {
        lemma_count_distinct(items, m - 1, p);
        assert(items.subrange(0, m).drop_last() =~= items.subrange(0, m - 1));
        assert(items.subrange(0, m).last() == items[m - 1]);
        if m - 1 < p {
            assert(lens[m - 1] != lens[p]);
        } else if m - 1 > p {
            assert(lens[p] != lens[m - 1]);
        }
    }
}

/// Two arrangements of the same pairs, whose keys have pairwise different
/// lengths, are ordered longest first into the same sequence.
proof fn lemma_longest_first_unique(a: Seq<(Seq<char>, Seq<char>)>, b: Seq<(Seq<char>, Seq<char>)>)
    requires
        a.to_multiset() == b.to_multiset(),
        lens_distinct(key_byte_lens(a)),
    ensures
        lens_distinct(key_byte_lens(b)),
        longest_first(a, key_byte_lens(a)) == longest_first(b, key_byte_lens(b)),
{
    broadcast use vstd::seq_lib::group_to_multiset_ensures;

    let la = key_byte_lens(a);
    let lb = key_byte_lens(b);
    assert(a.len() == a.to_multiset().len());
    assert(b.len() == b.to_multiset().len());
    assert(a.subrange(0, a.len() as int) =~= a);
    assert(b.subrange(0, b.len() as int) =~= b);
    assert forall|p: int, q: int| 0 <= p < q < lb.len() implies lb[p] != lb[q] by {
        if lb[p] == lb[q] {
            let v = lb[p];
            lemma_count_two_hits(b, b.len() as int, p, q);
            assert(b.contains(b[p]));
            assert(a.to_multiset().count(b[p]) > 0);
            let p2 = choose|k: int| 0 <= k < a.len() && a[k] == b[p];
            assert(la[p2] == v);
            lemma_count_distinct(a, a.len() as int, p2);
            lemma_count_steps_commute(v);
            lemma_fold_left_permutation(a, b, same_len_step(v), 0int);
        }
    }
    lemma_longest_first_sorted(a, la);
    lemma_longest_first_sorted(b, lb);
    assert forall|k: int| 0 <= k < a.len() implies longest_first(a, la)[k] == longest_first(
        b,
        lb,
    )[k] by {
        lemma_rank_onto(la, k);
        let i = rank_holder(la, k);
        let x = a[i];
        assert(a.contains(x));
        assert(b.to_multiset().count(x) > 0);
        let j = choose|k: int| 0 <= k < b.len() && b[k] == x;
        assert(la[i] == lb[j]);
        lemma_rank_counts_longer(a, i, a.len() as int);
        lemma_rank_counts_longer(b, j, b.len() as int);
        lemma_count_steps_commute(la[i]);
        lemma_fold_left_permutation(a, b, longer_step(la[i]), 0int);
        lemma_rank_holder_of_rank(lb, j);
    }
    assert(longest_first(a, la) =~= longest_first(b, lb));
}

/// Building does not depend on the order of the keys when the keys it keeps
/// have pairwise different UTF-8 lengths: two arrangements of the same keys
/// give the same ordered pairs, and so both no matcher, both the same pattern
/// error, or matchers with the same pattern and key list (on which `parse`
/// cuts every text into the same segments).
pub proof fn lemma_build_ignores_key_order(
    keys1: Seq<Seq<char>>,
    keys2: Seq<Seq<char>>,
    res1: Result<Option<EmotionMatcher>, TtsError>,
    res2: Result<Option<EmotionMatcher>, TtsError>,
)
    requires
        keys1.to_multiset() == keys2.to_multiset(),
        kept_lengths_distinct(keys1),
        build_outcome(keys1, res1),
        build_outcome(keys2, res2),
    ensures
        ordered_candidates(keys1) == ordered_candidates(keys2),
        match (res1, res2) {
            (Ok(None), Ok(None)) => true,
            (Ok(Some(m1)), Ok(Some(m2))) => m1.pattern_source() == m2.pattern_source()
                && m1.key_list() == m2.key_list(),
            (Err(TtsError::InvalidPattern(t1)), Err(TtsError::InvalidPattern(t2))) => t1@ == t2@,
            _ => false,
        },
{
    broadcast use vstd::seq_lib::group_to_multiset_ensures;

    let a = candidates(keys1, keys1.len() as int);
    let b = candidates(keys2, keys2.len() as int);
    lemma_candidates_multiset(keys1, keys1.len() as int);
    lemma_candidates_multiset(keys2, keys2.len() as int);
    assert(keys1.subrange(0, keys1.len() as int) =~= keys1);
    assert(keys2.subrange(0, keys2.len() as int) =~= keys2);
    lemma_kept_step_commutes();
    lemma_fold_left_permutation(keys1, keys2, kept_step(), Multiset::empty());
    lemma_longest_first_unique(a, b);
    assert(a.len() == a.to_multiset().len());
    assert(b.len() == b.to_multiset().len());
}

} // verus!
