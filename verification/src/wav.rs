//! WAV/RIFF handling: locating the PCM data, reading the format fields,
//! and joining several WAV files of one format into one.
use vstd::prelude::*;

use crate::error::TtsError;

verus! {

/// Little-endian `u16` stored at `at`.
pub open spec fn le_u16(s: Seq<u8>, at: int) -> u16 {
    (s[at] as int + 256 * (s[at + 1] as int)) as u16
}

/// Little-endian `u32` stored at `at`.
pub open spec fn le_u32(s: Seq<u8>, at: int) -> u32 {
    (s[at] as int + 256 * (s[at + 1] as int) + 65536 * (s[at + 2] as int) + 16777216 * (
    s[at + 3] as int)) as u32
}

/// The four bytes of a chunk identifier such as `RIFF`.
pub open spec fn four_cc(a: u8, b: u8, c: u8, d: u8) -> Seq<u8> {
    seq![a, b, c, d]
}

/// `RIFF`
pub open spec fn riff_tag() -> Seq<u8> {
    four_cc(0x52, 0x49, 0x46, 0x46)
}

/// `WAVE`
pub open spec fn wave_tag() -> Seq<u8> {
    four_cc(0x57, 0x41, 0x56, 0x45)
}

/// `data`
pub open spec fn data_tag() -> Seq<u8> {
    four_cc(0x64, 0x61, 0x74, 0x61)
}

/// The identifier `tag` stands at offset `at` of `s`.
pub open spec fn tag_at(s: Seq<u8>, at: int, tag: Seq<u8>) -> bool {
    &&& 0 <= at
    &&& at + 4 <= s.len()
    &&& s.subrange(at, at + 4) == tag
}

/// The buffer opens with a RIFF header of form WAVE.
pub open spec fn has_riff_header(s: Seq<u8>) -> bool {
    tag_at(s, 0, riff_tag()) && tag_at(s, 8, wave_tag())
}

/// Bytes from one chunk header to the next: the 8-byte header, the body,
/// and a pad byte when that sum is odd.
pub open spec fn chunk_advance(size: u32) -> int {
    if (8 + size) % 2 == 1 {
        9 + size
    } else {
        8 + size
    }
}

pub open spec fn scan_measure(len: int, pos: int) -> int {
    if pos <= len {
        len - pos
    } else {
        0
    }
}

/// Walk the RIFF chunks from `pos`: the offset of the body of the first
/// `data` chunk and its declared size, if a full chunk header for it is present.
pub open spec fn scan_data_chunk(wav: Seq<u8>, pos: nat) -> Option<(int, u32)>
    decreases scan_measure(wav.len() as int, pos as int),
{
    if pos + 8 > wav.len() {
        None
    } else if tag_at(wav, pos as int, data_tag()) {
        Some((pos + 8int, le_u32(wav, pos + 4int)))
    } else {
        scan_data_chunk(wav, (pos + chunk_advance(le_u32(wav, pos + 4int))) as nat)
    }
}

/// What locating the `data` chunk of `wav` gives.
pub open spec fn locate_data_chunk(wav: Seq<u8>) -> Result<(usize, u32), TtsError> {
    if wav.len() < 12 {
        Err(TtsError::WavTooShort)
    } else if !has_riff_header(wav) {
        Err(TtsError::InvalidWavHeader)
    } else {
        match scan_data_chunk(wav, 12) {
            Some((offset, size)) => Ok((offset as usize, size)),
            None => Err(TtsError::DataChunkNotFound),
        }
    }
}

/// Sample rate (offset 24) and channel count (offset 22).
pub open spec fn format_info(wav: Seq<u8>) -> Result<(u32, u16), TtsError> {
    if wav.len() < 28 {
        Err(TtsError::FormatInfoTooShort)
    } else {
        Ok((le_u32(wav, 24), le_u16(wav, 22)))
    }
}

proof fn lemma_scan_past_end(wav: Seq<u8>, pos: nat)
    requires
        pos + 8 > wav.len(),
    ensures
        scan_data_chunk(wav, pos) is None,
{
}

fn read_le_u16(wav: &[u8], at: usize) -> (v: u16)
    requires
        at + 2 <= wav@.len(),
    ensures
        v == le_u16(wav@, at as int),
{
    let b0 = wav[at] as u16;
    let b1 = wav[at + 1] as u16;
    b0 + 256 * b1
}

fn read_le_u32(wav: &[u8], at: usize) -> (v: u32)
    requires
        at + 4 <= wav@.len(),
    ensures
        v == le_u32(wav@, at as int),
{
    let b0 = wav[at] as u32;
    let b1 = wav[at + 1] as u32;
    let b2 = wav[at + 2] as u32;
    let b3 = wav[at + 3] as u32;
    b0 + 256 * b1 + 65536 * b2 + 16777216 * b3
}

fn tag_matches(wav: &[u8], at: usize, tag: &[u8; 4]) -> (b: bool)
    requires
        at + 4 <= wav@.len(),
    ensures
        b == tag_at(wav@, at as int, tag@),
{
    let m = wav[at] == tag[0] && wav[at + 1] == tag[1] && wav[at + 2] == tag[2] && wav[at + 3]
        == tag[3];
    proof {
        if m {
            assert(wav@.subrange(at as int, at + 4) =~= tag@);
        } else {
            if wav@.subrange(at as int, at + 4) == tag@ {
                assert(wav@.subrange(at as int, at + 4)[0] == tag@[0]);
                assert(wav@.subrange(at as int, at + 4)[1] == tag@[1]);
                assert(wav@.subrange(at as int, at + 4)[2] == tag@[2]);
                assert(wav@.subrange(at as int, at + 4)[3] == tag@[3]);
            }
        }
    }
    m
}

/// Find the `data` chunk of a WAV/RIFF buffer: the offset where its PCM
/// bytes start and the size its header declares.
pub fn find_wav_data_chunk(wav: &[u8]) -> (res: Result<(usize, u32), TtsError>)
    ensures
        res == locate_data_chunk(wav@),
        res matches Ok((offset, size)) ==> 20 <= offset <= wav@.len() && tag_at(
            wav@,
            offset - 8,
            data_tag(),
        ) && size == le_u32(wav@, offset - 4),
{
    let _len = wav.len();
    let res = find_data_chunk_walk(wav);
    proof {
        if res is Ok {
            lemma_located(wav@);
        }
    }
    res
}

fn find_data_chunk_walk(wav: &[u8]) -> (res: Result<(usize, u32), TtsError>)
    ensures
        res == locate_data_chunk(wav@),
{
    let len = wav.len();
    if len < 12 {
        return Err(TtsError::WavTooShort);
    }
    let riff: [u8; 4] = [0x52, 0x49, 0x46, 0x46];
    let wave: [u8; 4] = [0x57, 0x41, 0x56, 0x45];
    let data: [u8; 4] = [0x64, 0x61, 0x74, 0x61];
    assert(riff@ =~= riff_tag());
    assert(wave@ =~= wave_tag());
    assert(data@ =~= data_tag());
    if !tag_matches(wav, 0, &riff) || !tag_matches(wav, 8, &wave) {
        return Err(TtsError::InvalidWavHeader);
    }
    let mut pos: usize = 12;
    while pos <= len && len - pos >= 8
        invariant
            len == wav@.len(),
            12 <= pos,
            has_riff_header(wav@),
            data@ == data_tag(),
            scan_data_chunk(wav@, 12) == scan_data_chunk(wav@, pos as nat),
        decreases scan_measure(len as int, pos as int),
    {
        let size = read_le_u32(wav, pos + 4);
        if tag_matches(wav, pos, &data) {
            return Ok((pos + 8, size));
        }
        let advance: u64 = if (size % 2) == 1 {
            9 + size as u64
        } else {
            8 + size as u64
        };
        assert(advance == chunk_advance(size));
        if advance > (len - pos) as u64 {
            proof {
                lemma_scan_past_end(wav@, (pos + chunk_advance(size)) as nat);
            }
            return Err(TtsError::DataChunkNotFound);
        }
        pos = pos + advance as usize;
    }
    proof {
        lemma_scan_past_end(wav@, pos as nat);
    }
    Err(TtsError::DataChunkNotFound)
}

/// Sample rate (4 bytes at offset 24) and number of channels (2 bytes at offset 22).
pub fn wav_format_info(wav: &[u8]) -> (res: Result<(u32, u16), TtsError>)
    ensures
        res == format_info(wav@),
{
    if wav.len() < 28 {
        return Err(TtsError::FormatInfoTooShort);
    }
    let channels = read_le_u16(wav, 22);
    let sample_rate = read_le_u32(wav, 24);
    Ok((sample_rate, channels))
}


/// Byte offset of the PCM data of a WAV whose `data` chunk was found.
pub open spec fn data_offset(wav: Seq<u8>) -> int {
    locate_data_chunk(wav)->Ok_0.0 as int
}

/// End of the PCM data: the declared size, cut at the end of the buffer.
pub open spec fn data_end(wav: Seq<u8>) -> int {
    let offset = data_offset(wav);
    let declared = offset + locate_data_chunk(wav)->Ok_0.1;
    if declared <= wav.len() {
        declared
    } else {
        wav.len() as int
    }
}

/// The PCM bytes of a WAV whose `data` chunk was found.
pub open spec fn pcm_data(wav: Seq<u8>) -> Seq<u8> {
    wav.subrange(data_offset(wav), data_end(wav))
}

/// Why the WAV at `index` cannot join a concatenation of the given format, if it cannot.
pub open spec fn segment_error(wav: Seq<u8>, index: int, rate: u32, channels: u16) -> Option<
    TtsError,
> {
    match format_info(wav) {
        Err(e) => Some(e),
        Ok((r, c)) => if r != rate || c != channels {
            Some(
                TtsError::FormatMismatch {
                    index: index as usize,
                    expected_rate: rate,
                    expected_channels: channels,
                    rate: r,
                    channels: c,
                },
            )
        } else {
            match locate_data_chunk(wav) {
                Err(e) => Some(e),
                Ok(_) => None,
            }
        },
    }
}

/// The first failure among the WAVs `0..n`, checked in order.
pub open spec fn first_segment_error(ws: Seq<Seq<u8>>, n: int, rate: u32, channels: u16) -> Option<
    TtsError,
>
    decreases n,
{
    if n <= 0 {
        None
    } else {
        match first_segment_error(ws, n - 1, rate, channels) {
            Some(e) => Some(e),
            None => segment_error(ws[n - 1], n - 1, rate, channels),
        }
    }
}

/// The PCM bytes of the WAVs `0..n`, one after the other.
pub open spec fn joined_pcm(ws: Seq<Seq<u8>>, n: int) -> Seq<u8>
    decreases n,
{
    if n <= 0 {
        Seq::empty()
    } else {
        joined_pcm(ws, n - 1) + pcm_data(ws[n - 1])
    }
}

/// Little-endian bytes of `v`.
pub open spec fn le_bytes_u32(v: u32) -> Seq<u8> {
    seq![(v % 256) as u8, ((v / 256) % 256) as u8, ((v / 65536) % 256) as u8, (v / 16777216) as u8]
}

/// `s` with the four bytes at `at` replaced by `v` in little-endian order.
pub open spec fn put_le_u32(s: Seq<u8>, at: int, v: u32) -> Seq<u8> {
    s.subrange(0, at) + le_bytes_u32(v) + s.subrange(at + 4, s.len() as int)
}

/// `n` reduced to the 32 bits a RIFF size field holds.
pub open spec fn riff_size_field(n: int) -> u32 {
    (n % 4294967296) as u32
}

/// The header of the first WAV (up to its PCM data) followed by the PCM data
/// of all of them, with the `data` size and the RIFF size rewritten.
pub open spec fn assembled_wav(ws: Seq<Seq<u8>>) -> Seq<u8> {
    let header_len = data_offset(ws[0]);
    let pcm = joined_pcm(ws, ws.len() as int);
    let body = ws[0].subrange(0, header_len) + pcm;
    let sized = put_le_u32(body, header_len - 4, riff_size_field(pcm.len() as int));
    put_le_u32(sized, 4, riff_size_field(body.len() - 8))
}

/// What concatenating the WAVs `ws` gives.
pub open spec fn concatenated_wav(ws: Seq<Seq<u8>>) -> Result<Seq<u8>, TtsError> {
    if ws.len() == 0 {
        Err(TtsError::NoWavData)
    } else if ws.len() == 1 {
        Ok(ws[0])
    } else {
        match format_info(ws[0]) {
            Err(e) => Err(e),
            Ok((rate, channels)) => match first_segment_error(ws, ws.len() as int, rate, channels) {
                Some(e) => Err(e),
                None => Ok(assembled_wav(ws)),
            },
        }
    }
}

/// The byte contents of a list of buffers.
pub open spec fn wav_bytes(wavs: Seq<Vec<u8>>) -> Seq<Seq<u8>> {
    wavs.map_values(|w: Vec<u8>| w@)
}

proof fn lemma_scan_result(wav: Seq<u8>, pos: nat)
    requires
        scan_data_chunk(wav, pos) is Some,
    ensures
        ({
            let (offset, size) = scan_data_chunk(wav, pos)->Some_0;
            &&& pos + 8 <= offset <= wav.len()
            &&& tag_at(wav, offset - 8, data_tag())
            &&& size == le_u32(wav, offset - 4)
        }),
    decreases scan_measure(wav.len() as int, pos as int),
{
    if pos + 8 <= wav.len() && !tag_at(wav, pos as int, data_tag()) {
        lemma_scan_result(wav, (pos + chunk_advance(le_u32(wav, pos + 4int))) as nat);
    }
}

proof fn lemma_located(wav: Seq<u8>)
    requires
        locate_data_chunk(wav) is Ok,
        wav.len() <= usize::MAX,
    ensures
        20 <= data_offset(wav) <= data_end(wav) <= wav.len(),
        pcm_data(wav).len() <= wav.len(),
        has_riff_header(wav),
        tag_at(wav, data_offset(wav) - 8, data_tag()),
        locate_data_chunk(wav)->Ok_0.1 == le_u32(wav, data_offset(wav) - 4),
{
    lemma_scan_result(wav, 12);
}

proof fn lemma_first_error_prefix(ws: Seq<Seq<u8>>, m: int, n: int, rate: u32, channels: u16)
    requires
        0 <= m <= n,
        first_segment_error(ws, n, rate, channels) is None,
    ensures
        first_segment_error(ws, m, rate, channels) is None,
    decreases n - m,
{
    if m < n {
        lemma_first_error_prefix(ws, m, n - 1, rate, channels);
    }
}

proof fn lemma_segment_ok(ws: Seq<Seq<u8>>, i: int, rate: u32, channels: u16)
    requires
        0 <= i,
        first_segment_error(ws, i + 1, rate, channels) is None,
    ensures
        segment_error(ws[i], i, rate, channels) is None,
        locate_data_chunk(ws[i]) is Ok,
        format_info(ws[i]) == Ok::<(u32, u16), TtsError>((rate, channels)),
{
}

proof fn lemma_first_error_stable(ws: Seq<Seq<u8>>, m: int, n: int, rate: u32, channels: u16)
    requires
        0 <= m <= n,
        first_segment_error(ws, m, rate, channels) is Some,
    ensures
        first_segment_error(ws, n, rate, channels) == first_segment_error(ws, m, rate, channels),
    decreases n - m,
{
    if m < n {
        lemma_first_error_stable(ws, m, n - 1, rate, channels);
    }
}

fn write_le_u32(v: &mut Vec<u8>, at: usize, x: u32)
    requires
        at + 4 <= old(v)@.len(),
    ensures
        final(v)@ == put_le_u32(old(v)@, at as int, x),
{
    let _len = v.len();
    v.set(at, (x % 256) as u8);
    v.set(at + 1, ((x / 256) % 256) as u8);
    v.set(at + 2, ((x / 65536) % 256) as u8);
    v.set(at + 3, (x / 16777216) as u8);
    assert(v@ =~= put_le_u32(old(v)@, at as int, x));
}

/// Check one WAV against the format of the first: its PCM byte range, or why it cannot join.
fn check_segment(wav: &[u8], index: usize, rate: u32, channels: u16) -> (res: Result<
    (usize, usize),
    TtsError,
>)
    ensures
        match segment_error(wav@, index as int, rate, channels) {
            Some(e) => res == Err::<(usize, usize), TtsError>(e),
            None => res matches Ok((start, end)) && start == data_offset(wav@) && end == data_end(
                wav@,
            ),
        },
{
    let len = wav.len();
    let (r, c) = match wav_format_info(wav) {
        Ok(info) => info,
        Err(e) => {
            return Err(e);
        },
    };
    if r != rate || c != channels {
        return Err(
            TtsError::FormatMismatch {
                index,
                expected_rate: rate,
                expected_channels: channels,
                rate: r,
                channels: c,
            },
        );
    }
    let (offset, size) = match find_wav_data_chunk(wav) {
        Ok(found) => found,
        Err(e) => {
            return Err(e);
        },
    };
    proof {
        lemma_located(wav@);
    }
    let end = if size as usize > len - offset {
        len
    } else {
        offset + size as usize
    };
    Ok((offset, end))
}

/// Concatenate WAV files of one sample rate and channel count into one:
/// the header of the first, then the PCM data of each in order, with the
/// `data` chunk size and the RIFF size rewritten.
pub fn concatenate_wavs(wavs: &[Vec<u8>]) -> (res: Result<Vec<u8>, TtsError>)
    ensures
        match (res, concatenated_wav(wav_bytes(wavs@))) {
            (Ok(out), Ok(expected)) => out@ == expected,
            (Err(e), Err(expected)) => e == expected,
            _ => false,
        },
{
    let ghost ws = wav_bytes(wavs@);
    let n = wavs.len();
    if n == 0 {
        return Err(TtsError::NoWavData);
    }
    if n == 1 {
        let single = wavs[0].clone();
        assert(single@ =~= ws[0]);
        return Ok(single);
    }
    assert(ws[0] == wavs@[0]@);
    let (ref_rate, ref_channels) = match wav_format_info(wavs[0].as_slice()) {
        Ok(info) => info,
        Err(e) => {
            return Err(e);
        },
    };
    let mut ranges: Vec<(usize, usize)> = Vec::new();
    let mut i: usize = 0;
    while i < n
        invariant
            n == wavs@.len(),
            n >= 2,
            ws == wav_bytes(wavs@),
            format_info(ws[0]) == Ok::<(u32, u16), TtsError>((ref_rate, ref_channels)),
            0 <= i <= n,
            first_segment_error(ws, i as int, ref_rate, ref_channels) is None,
            ranges@.len() == i,
            forall|k: int|
                0 <= k < i ==> #[trigger] ranges@[k].0 == data_offset(ws[k]) && ranges@[k].1
                    == data_end(ws[k]),
        decreases n - i,
    {
        assert(ws[i as int] == wavs@[i as int]@);
        let wav = wavs[i].as_slice();
        let _len = wav.len();
        let (offset, end) = match check_segment(wav, i, ref_rate, ref_channels) {
            Ok(range) => range,
            Err(e) => {
                proof {
                    lemma_first_error_stable(ws, i + 1, n as int, ref_rate, ref_channels);
                }
                return Err(e);
            },
        };
        proof {
            lemma_located(ws[i as int]);
        }
        ranges.push((offset, end));
        i = i + 1;
    }
    let ghost header_len = data_offset(ws[0]);
    let first = wavs[0].as_slice();
    let _first_len = first.len();
    proof {
        lemma_first_error_prefix(ws, 1, n as int, ref_rate, ref_channels);
        lemma_segment_ok(ws, 0, ref_rate, ref_channels);
        lemma_located(ws[0]);
    }
    let header_len_exec = ranges[0].0;
    let mut out: Vec<u8> = Vec::new();
    let mut j: usize = 0;
    while j < header_len_exec
        invariant
            first@ == ws[0],
            header_len_exec == header_len,
            header_len <= first@.len(),
            0 <= j <= header_len_exec,
            out@ == ws[0].subrange(0, j as int),
        decreases header_len_exec - j,
    {
        out.push(first[j]);
        j = j + 1;
        assert(out@ =~= ws[0].subrange(0, j as int));
    }
    let mut k: usize = 0;
    while k < n
        invariant
            n == wavs@.len(),
            ws == wav_bytes(wavs@),
            first_segment_error(ws, n as int, ref_rate, ref_channels) is None,
            ranges@.len() == n,
            forall|m: int|
                0 <= m < n ==> #[trigger] ranges@[m].0 == data_offset(ws[m]) && ranges@[m].1
                    == data_end(ws[m]),
            0 <= k <= n,
            header_len_exec == header_len,
            out@ == ws[0].subrange(0, header_len) + joined_pcm(ws, k as int),
        decreases n - k,
    {
        assert(ws[k as int] == wavs@[k as int]@);
        let wav = wavs[k].as_slice();
        let _len = wav.len();
        proof {
            lemma_first_error_prefix(ws, k + 1, n as int, ref_rate, ref_channels);
            lemma_segment_ok(ws, k as int, ref_rate, ref_channels);
            lemma_located(ws[k as int]);
        }
        let (start, stop) = ranges[k];
        let ghost before = out@;
        let mut p: usize = start;
        while p < stop
            invariant
                wav@ == ws[k as int],
                start == data_offset(ws[k as int]),
                stop == data_end(ws[k as int]),
                start <= stop <= wav@.len(),
                start <= p <= stop,
                out@ == before + ws[k as int].subrange(start as int, p as int),
            decreases stop - p,
        {
            out.push(wav[p]);
            p = p + 1;
            assert(out@ =~= before + ws[k as int].subrange(start as int, p as int));
        }
        k = k + 1;
        assert(out@ =~= ws[0].subrange(0, header_len) + joined_pcm(ws, k as int));
    }
    let total = out.len() - header_len_exec;
    let data_size = ((total as u64) % 4294967296) as u32;
    write_le_u32(&mut out, header_len_exec - 4, data_size);
    let riff_size = (((out.len() - 8) as u64) % 4294967296) as u32;
    write_le_u32(&mut out, 4, riff_size);
    Ok(out)
}


proof fn lemma_le_bytes_round_trip(v: u32)
    ensures
        le_u32(le_bytes_u32(v), 0) == v,
{
    let b = le_bytes_u32(v);
    assert(b[0] == (v % 256) as u8);
    assert(b[1] == ((v / 256) % 256) as u8);
    assert(b[2] == ((v / 65536) % 256) as u8);
    assert(b[3] == (v / 16777216) as u8);
    assert(((v % 256) as u8) as int + 256 * (((v / 256) % 256) as u8) as int + 65536 * (((v
        / 65536) % 256) as u8) as int + 16777216 * ((v / 16777216) as u8) as int == v)
        by (bit_vector);
}

/// Walking the chunks of `b` from `pos` reaches the same `data` chunk as in
/// `a` when the two agree on every byte the walk reads before that chunk's size field.
proof fn lemma_scan_agree(a: Seq<u8>, b: Seq<u8>, pos: nat)
    requires
        scan_data_chunk(a, pos) is Some,
        b.len() >= scan_data_chunk(a, pos)->Some_0.0,
        forall|i: int|
            pos <= i < scan_data_chunk(a, pos)->Some_0.0 - 4 ==> #[trigger] a[i] == b[i],
    ensures
        scan_data_chunk(b, pos) == Some((
            scan_data_chunk(a, pos)->Some_0.0,
            le_u32(b, scan_data_chunk(a, pos)->Some_0.0 - 4),
        )),
    decreases scan_measure(a.len() as int, pos as int),
{
    lemma_scan_result(a, pos);
    let h = scan_data_chunk(a, pos)->Some_0.0;
    assert(a[pos as int] == b[pos as int]);
    assert(a[pos + 1int] == b[pos + 1int]);
    assert(a[pos + 2int] == b[pos + 2int]);
    assert(a[pos + 3int] == b[pos + 3int]);
    assert(a.subrange(pos as int, pos + 4int) =~= b.subrange(pos as int, pos + 4int));
    if !tag_at(a, pos as int, data_tag()) {
        let next = (pos + chunk_advance(le_u32(a, pos + 4int))) as nat;
        lemma_scan_result(a, next);
        assert(a[pos + 4int] == b[pos + 4int]);
        assert(a[pos + 5int] == b[pos + 5int]);
        assert(a[pos + 6int] == b[pos + 6int]);
        assert(a[pos + 7int] == b[pos + 7int]);
        lemma_scan_agree(a, b, next);
    }
}

proof fn lemma_put_le_u32(s: Seq<u8>, at: int, v: u32)
    requires
        0 <= at,
        at + 4 <= s.len(),
    ensures
        put_le_u32(s, at, v).len() == s.len(),
        forall|i: int|
            0 <= i < s.len() && !(at <= i < at + 4) ==> #[trigger] put_le_u32(s, at, v)[i] == s[i],
        put_le_u32(s, at, v).subrange(at, at + 4) == le_bytes_u32(v),
        le_u32(put_le_u32(s, at, v), at) == v,
{
    let out = put_le_u32(s, at, v);
    assert(out.subrange(at, at + 4) =~= le_bytes_u32(v));
    lemma_le_bytes_round_trip(v);
    assert(le_u32(out, at) == le_u32(le_bytes_u32(v), 0));
}

/// The assembly step on its own: a header that locates its `data` chunk at
/// `h`, followed by `pcm`, with both size fields rewritten.
proof fn lemma_assembly_read_back(w0: Seq<u8>, pcm: Seq<u8>, h: int)
    requires
        has_riff_header(w0),
        scan_data_chunk(w0, 12) is Some,
        scan_data_chunk(w0, 12)->Some_0.0 == h,
        20 <= h <= w0.len(),
        h <= usize::MAX,
    ensures
        ({
            let body = w0.subrange(0, h) + pcm;
            let out = put_le_u32(
                put_le_u32(body, h - 4, riff_size_field(pcm.len() as int)),
                4,
                riff_size_field(body.len() - 8),
            );
            &&& has_riff_header(out)
            &&& out.len() == h + pcm.len()
            &&& locate_data_chunk(out) == Ok::<(usize, u32), TtsError>(
                (h as usize, riff_size_field(pcm.len() as int)),
            )
            &&& out.subrange(h, out.len() as int) == pcm
            &&& le_u32(out, 4) == riff_size_field(out.len() - 8)
            &&& h >= 32 ==> format_info(out) == format_info(w0)
            &&& forall|i: int|
                0 <= i < h - 4 && !(4 <= i < 8) ==> #[trigger] out[i] == w0[i]
            &&& le_u32(out, h - 4) == riff_size_field(pcm.len() as int)
            &&& tag_at(out, h - 8, data_tag())
        }),
{
    let body = w0.subrange(0, h) + pcm;
    let t = riff_size_field(pcm.len() as int);
    let sized = put_le_u32(body, h - 4, t);
    let r = riff_size_field(body.len() - 8);
    let out = put_le_u32(sized, 4, r);
    lemma_put_le_u32(body, h - 4, t);
    lemma_put_le_u32(sized, 4, r);
    assert forall|i: int| 0 <= i < h - 4 && !(4 <= i < 8) implies #[trigger] out[i] == w0[i] by {
        assert(sized[i] == body[i]);
    }
    assert(out.subrange(h, out.len() as int) =~= pcm) by {
        assert forall|i: int| h <= i < out.len() implies #[trigger] out[i] == pcm[i - h] by {
            assert(sized[i] == body[i]);
        }
    }
    assert(le_u32(out, h - 4) == t) by {
        assert(out[h - 4] == sized[h - 4]);
        assert(out[h - 3] == sized[h - 3]);
        assert(out[h - 2] == sized[h - 2]);
        assert(out[h - 1] == sized[h - 1]);
    }
    assert(has_riff_header(out)) by {
        assert(out.subrange(0, 4) =~= w0.subrange(0, 4));
        assert(out.subrange(8, 12) =~= w0.subrange(8, 12));
    }
    lemma_scan_agree(w0, out, 12);
    lemma_scan_result(out, 12);
    if h >= 32 {
        assert(out[22] == w0[22]);
        assert(out[23] == w0[23]);
        assert(out[24] == w0[24]);
        assert(out[25] == w0[25]);
        assert(out[26] == w0[26]);
        assert(out[27] == w0[27]);
    }
}

proof fn lemma_concatenation_ok(ws: Seq<Seq<u8>>, rate: u32, channels: u16)
    requires
        ws.len() >= 2,
        format_info(ws[0]) == Ok::<(u32, u16), TtsError>((rate, channels)),
        first_segment_error(ws, ws.len() as int, rate, channels) is None,
        ws[0].len() <= usize::MAX,
    ensures
        has_riff_header(ws[0]),
        scan_data_chunk(ws[0], 12) is Some,
        scan_data_chunk(ws[0], 12)->Some_0.0 == data_offset(ws[0]),
        20 <= data_offset(ws[0]) <= ws[0].len(),
{
    lemma_first_error_prefix(ws, 1, ws.len() as int, rate, channels);
    lemma_segment_ok(ws, 0, rate, channels);
    lemma_located(ws[0]);
    lemma_scan_result(ws[0], 12);
}

/// Reading back a concatenation: the result is a RIFF/WAVE buffer whose
/// `data` chunk sits where it sat in the first input, declares the total PCM
/// length (in 32 bits), and holds the PCM data of every input in order; the
/// RIFF size field is the length after the first 8 bytes; every other byte
/// before the `data` size field is that of the first input, so its format
/// fields are kept when they lie before the `data` chunk.
pub proof fn lemma_concatenation_read_back(ws: Seq<Seq<u8>>)
    requires
        ws.len() >= 2,
        concatenated_wav(ws) is Ok,
        ws[0].len() <= usize::MAX,
    ensures
        ({
            let out = concatenated_wav(ws)->Ok_0;
            let pcm = joined_pcm(ws, ws.len() as int);
            let header_len = data_offset(ws[0]);
            &&& has_riff_header(out)
            &&& out.len() == header_len + pcm.len()
            &&& locate_data_chunk(out) == Ok::<(usize, u32), TtsError>(
                (header_len as usize, riff_size_field(pcm.len() as int)),
            )
            &&& out.subrange(header_len, out.len() as int) == pcm
            &&& le_u32(out, 4) == riff_size_field(out.len() - 8)
            &&& header_len >= 32 ==> format_info(out) == format_info(ws[0])
            &&& forall|i: int|
                0 <= i < header_len - 4 && !(4 <= i < 8) ==> #[trigger] out[i] == ws[0][i]
            &&& le_u32(out, header_len - 4) == riff_size_field(pcm.len() as int)
            &&& tag_at(out, header_len - 8, data_tag())
            &&& 20 <= header_len
        }),
{
    let (rate, channels) = format_info(ws[0])->Ok_0;
    assert(first_segment_error(ws, ws.len() as int, rate, channels) is None);
    assert(concatenated_wav(ws) == Ok::<Seq<u8>, TtsError>(assembled_wav(ws)));
    lemma_concatenation_ok(ws, rate, channels);
    lemma_assembly_read_back(ws[0], joined_pcm(ws, ws.len() as int), data_offset(ws[0]));
}


proof fn lemma_three_ok(a: Seq<u8>, b: Seq<u8>, c: Seq<u8>)
    requires
        concatenated_wav(seq![a, b, c]) is Ok,
    ensures
        format_info(a) is Ok,
        ({
            let (rate, channels) = format_info(a)->Ok_0;
            &&& segment_error(a, 0, rate, channels) is None
            &&& segment_error(b, 1, rate, channels) is None
            &&& segment_error(c, 2, rate, channels) is None
        }),
{
    let ws = seq![a, b, c];
    if let Ok((rate, channels)) = format_info(a) {
        assert(first_segment_error(ws, 3, rate, channels) is None);
        lemma_first_error_prefix(ws, 1, 3, rate, channels);
        lemma_first_error_prefix(ws, 2, 3, rate, channels);
        assert(ws[0] == a && ws[1] == b && ws[2] == c);
    }
}

proof fn lemma_headers_agree(a: Seq<u8>, ab: Seq<u8>, pcm: Seq<u8>, p2: Seq<u8>, h: int)
    requires
        32 <= h <= a.len(),
        h <= ab.len(),
        ab == put_le_u32(
            put_le_u32(a.subrange(0, h) + p2, h - 4, riff_size_field(p2.len() as int)),
            4,
            riff_size_field(h + p2.len() - 8),
        ),
    ensures
        ({
            let t = riff_size_field(pcm.len() as int);
            let r = riff_size_field(h + pcm.len() - 8);
            put_le_u32(put_le_u32(ab.subrange(0, h) + pcm, h - 4, t), 4, r) == put_le_u32(
                put_le_u32(a.subrange(0, h) + pcm, h - 4, t),
                4,
                r,
            )
        }),
{
    let body2 = a.subrange(0, h) + p2;
    let sized2 = put_le_u32(body2, h - 4, riff_size_field(p2.len() as int));
    lemma_put_le_u32(body2, h - 4, riff_size_field(p2.len() as int));
    lemma_put_le_u32(sized2, 4, riff_size_field(h + p2.len() - 8));
    let t = riff_size_field(pcm.len() as int);
    let r = riff_size_field(h + pcm.len() - 8);
    let x = ab.subrange(0, h) + pcm;
    let y = a.subrange(0, h) + pcm;
    let x1 = put_le_u32(x, h - 4, t);
    let y1 = put_le_u32(y, h - 4, t);
    lemma_put_le_u32(x, h - 4, t);
    lemma_put_le_u32(y, h - 4, t);
    lemma_put_le_u32(x1, 4, r);
    lemma_put_le_u32(y1, 4, r);
    let x2 = put_le_u32(x1, 4, r);
    let y2 = put_le_u32(y1, 4, r);
    assert forall|i: int| 0 <= i < x2.len() implies x2[i] == y2[i] by {
        if 4 <= i < 8 {
            assert(x2.subrange(4, 8)[i - 4] == y2.subrange(4, 8)[i - 4]);
        } else if h - 4 <= i < h {
            assert(x1.subrange(h - 4, h)[i - (h - 4)] == y1.subrange(h - 4, h)[i - (h - 4)]);
            assert(x2[i] == x1[i]);
            assert(y2[i] == y1[i]);
        } else if i < h {
            assert(ab[i] == sized2[i]);
            assert(sized2[i] == body2[i]);
            assert(x2[i] == x1[i]);
            assert(y2[i] == y1[i]);
        } else {
            assert(x2[i] == x1[i]);
            assert(y2[i] == y1[i]);
        }
    }
    assert(x2 =~= y2);
}

proof fn lemma_pair_ok(x: Seq<u8>, y: Seq<u8>, rate: u32, channels: u16)
    requires
        format_info(x) == Ok::<(u32, u16), TtsError>((rate, channels)),
        segment_error(x, 0, rate, channels) is None,
        segment_error(y, 1, rate, channels) is None,
    ensures
        concatenated_wav(seq![x, y]) == Ok::<Seq<u8>, TtsError>(assembled_wav(seq![x, y])),
        joined_pcm(seq![x, y], 2) == pcm_data(x) + pcm_data(y),
{
    let ws = seq![x, y];
    assert(ws[0] == x && ws[1] == y);
    assert(first_segment_error(ws, 0, rate, channels) is None);
    assert(segment_error(ws[0], 0, rate, channels) is None);
    assert(first_segment_error(ws, 1, rate, channels) is None);
    assert(segment_error(ws[1], 1, rate, channels) is None);
    assert(first_segment_error(ws, 2, rate, channels) is None);
    assert(joined_pcm(ws, 0) =~= Seq::<u8>::empty());
    assert(joined_pcm(ws, 1) =~= pcm_data(x));
}

proof fn lemma_triple_ok(a: Seq<u8>, b: Seq<u8>, c: Seq<u8>)
    requires
        concatenated_wav(seq![a, b, c]) is Ok,
    ensures
        concatenated_wav(seq![a, b, c]) == Ok::<Seq<u8>, TtsError>(assembled_wav(seq![a, b, c])),
        joined_pcm(seq![a, b, c], 3) == pcm_data(a) + pcm_data(b) + pcm_data(c),
{
    let ws = seq![a, b, c];
    assert(ws[0] == a && ws[1] == b && ws[2] == c);
    assert(joined_pcm(ws, 0) =~= Seq::<u8>::empty());
    assert(joined_pcm(ws, 1) =~= pcm_data(a));
    assert(joined_pcm(ws, 2) =~= pcm_data(a) + pcm_data(b));
}

#[verifier::rlimit(40)]
proof fn lemma_first_step(a: Seq<u8>, b: Seq<u8>, rate: u32, channels: u16, bound: int)
    requires
        a.len() <= usize::MAX,
        format_info(a) == Ok::<(u32, u16), TtsError>((rate, channels)),
        segment_error(a, 0, rate, channels) is None,
        segment_error(b, 1, rate, channels) is None,
        data_offset(a) >= 32,
        (pcm_data(a) + pcm_data(b)).len() <= bound < 4294967296,
    ensures
        ({
            let ab = assembled_wav(seq![a, b]);
            let h = data_offset(a);
            let p2 = pcm_data(a) + pcm_data(b);
            &&& 32 <= h <= a.len()
            &&& h <= ab.len()
            &&& ab == put_le_u32(
                put_le_u32(a.subrange(0, h) + p2, h - 4, riff_size_field(p2.len() as int)),
                4,
                riff_size_field(h + p2.len() - 8),
            )
            &&& format_info(ab) == Ok::<(u32, u16), TtsError>((rate, channels))
            &&& locate_data_chunk(ab) is Ok
            &&& data_offset(ab) == h
            &&& pcm_data(ab) == p2
        }),
{
    lemma_pair_ok(a, b, rate, channels);
    let ws = seq![a, b];
    assert(ws[0] == a);
    lemma_located(a);
    lemma_concatenation_read_back(ws);
    let ab = assembled_wav(ws);
    let h = data_offset(a);
    let p2 = pcm_data(a) + pcm_data(b);
    assert(riff_size_field(p2.len() as int) == p2.len());
    assert(data_end(ab) == ab.len());
    assert(pcm_data(ab) =~= p2);
}

/// Concatenating in two steps gives the same bytes as in one: joining `a`
/// and `b`, then the result and `c`, equals joining `a`, `b` and `c`, when
/// the data chunk of `a` starts after its format fields and the PCM data
/// fits a 32-bit size field.
pub proof fn lemma_concatenation_in_two_steps(a: Seq<u8>, b: Seq<u8>, c: Seq<u8>)
    requires
        a.len() <= usize::MAX,
        concatenated_wav(seq![a, b, c]) is Ok,
        data_offset(a) >= 32,
        joined_pcm(seq![a, b, c], 3).len() < 4294967296,
    ensures
        concatenated_wav(seq![a, b]) is Ok,
        concatenated_wav(seq![concatenated_wav(seq![a, b])->Ok_0, c]) == concatenated_wav(
            seq![a, b, c],
        ),
{
    lemma_three_ok(a, b, c);
    let (rate, channels) = format_info(a)->Ok_0;
    lemma_pair_ok(a, b, rate, channels);
    lemma_triple_ok(a, b, c);
    let p3 = pcm_data(a) + pcm_data(b) + pcm_data(c);
    lemma_first_step(a, b, rate, channels, p3.len() as int);
    let ab = assembled_wav(seq![a, b]);
    let h = data_offset(a);
    let p2 = pcm_data(a) + pcm_data(b);
    assert(segment_error(ab, 0, rate, channels) is None);
    lemma_pair_ok(ab, c, rate, channels);
    assert(p2 + pcm_data(c) == p3);
    let ws3 = seq![a, b, c];
    assert(ws3[0] == a);
    assert(assembled_wav(ws3) == put_le_u32(
        put_le_u32(a.subrange(0, h) + p3, h - 4, riff_size_field(p3.len() as int)),
        4,
        riff_size_field(h + p3.len() - 8),
    ));
    let ws = seq![ab, c];
    assert(ws[0] == ab);
    assert(assembled_wav(ws) == put_le_u32(
        put_le_u32(ab.subrange(0, h) + p3, h - 4, riff_size_field(p3.len() as int)),
        4,
        riff_size_field(h + p3.len() - 8),
    ));
    lemma_headers_agree(a, ab, p3, p2, h);
}


/// Walking from `p + d` in `a` meets the chunks met from `p` in `b`, shifted
/// by `d`, when `a` is `b` with `d` bytes put in before `p`.
proof fn lemma_scan_shift(a: Seq<u8>, b: Seq<u8>, p: nat, d: nat)
    requires
        a.len() == b.len() + d,
        forall|i: int| p <= i < b.len() ==> #[trigger] b[i] == a[i + d],
    ensures
        scan_data_chunk(a, p + d) == match scan_data_chunk(b, p) {
            Some((o, s)) => Some((o + d, s)),
            None => None,
        },
    decreases scan_measure(b.len() as int, p as int),
{
    if p + 8 <= b.len() {
        assert(b.subrange(p as int, p + 4int) =~= a.subrange(p + d + 0int, p + d + 4int)) by {
            assert(b[p as int] == a[p + d + 0int]);
            assert(b[p + 1int] == a[p + d + 1int]);
            assert(b[p + 2int] == a[p + d + 2int]);
            assert(b[p + 3int] == a[p + d + 3int]);
        }
        assert(le_u32(b, p + 4int) == le_u32(a, p + d + 4int)) by {
            assert(b[p + 4int] == a[p + d + 4int]);
            assert(b[p + 5int] == a[p + d + 5int]);
            assert(b[p + 6int] == a[p + d + 6int]);
            assert(b[p + 7int] == a[p + d + 7int]);
        }
        if !tag_at(b, p as int, data_tag()) {
            let next = (p + chunk_advance(le_u32(b, p + 4int))) as nat;
            lemma_scan_shift(a, b, next, d);
            assert((p + d + chunk_advance(le_u32(a, p + d + 4int))) as nat == next + d);
        }
    }
}

/// A RIFF/WAVE buffer whose first chunk is the `data` chunk has its PCM data
/// right after that chunk's 8-byte header, with the size the header declares.
pub proof fn lemma_data_chunk_first(header: Seq<u8>, size: u32, rest: Seq<u8>)
    requires
        header.len() == 12,
        has_riff_header(header),
    ensures
        locate_data_chunk(header + data_tag() + le_bytes_u32(size) + rest) == Ok::<
            (usize, u32),
            TtsError,
        >((20usize, size)),
{
    let w = header + data_tag() + le_bytes_u32(size) + rest;
    assert(w.subrange(0, 4) =~= header.subrange(0, 4));
    assert(w.subrange(8, 12) =~= header.subrange(8, 12));
    assert(w.subrange(12, 16) =~= data_tag());
    lemma_le_bytes_round_trip(size);
    assert(le_u32(w, 16) == le_u32(le_bytes_u32(size), 0)) by {
        assert(w[16] == le_bytes_u32(size)[0]);
        assert(w[17] == le_bytes_u32(size)[1]);
        assert(w[18] == le_bytes_u32(size)[2]);
        assert(w[19] == le_bytes_u32(size)[3]);
    }
}

/// Walking past a chunk: putting a chunk that is not `data`, with `size`
/// body bytes and one pad byte when `size` is odd, right after the RIFF
/// header moves the `data` chunk found afterwards by `8 + size + size % 2`
/// bytes, and keeps a failure to find one.
pub proof fn lemma_chunk_skipped(
    header: Seq<u8>,
    tag: Seq<u8>,
    size: u32,
    body: Seq<u8>,
    pad: Seq<u8>,
    rest: Seq<u8>,
)
    requires
        header.len() == 12,
        has_riff_header(header),
        tag.len() == 4,
        tag != data_tag(),
        body.len() == size,
        pad.len() == size % 2,
        (header + tag + le_bytes_u32(size) + body + pad + rest).len() <= usize::MAX,
    ensures
        locate_data_chunk(header + tag + le_bytes_u32(size) + body + pad + rest) == match locate_data_chunk(
            header + rest,
        ) {
            Ok((offset, declared)) => Ok::<(usize, u32), TtsError>(
                ((offset + 8 + size + size % 2) as usize, declared),
            ),
            Err(e) => Err(e),
        },
{
    let w = header + tag + le_bytes_u32(size) + body + pad + rest;
    let short = header + rest;
    let d: nat = (8 + size + size % 2) as nat;
    assert(w.len() == short.len() + d);
    assert(w.subrange(0, 4) =~= header.subrange(0, 4));
    assert(w.subrange(8, 12) =~= header.subrange(8, 12));
    assert(short.subrange(0, 4) =~= header.subrange(0, 4));
    assert(short.subrange(8, 12) =~= header.subrange(8, 12));
    assert(w.subrange(12, 16) =~= tag);
    lemma_le_bytes_round_trip(size);
    assert(le_u32(w, 16) == size) by {
        assert(w[16] == le_bytes_u32(size)[0]);
        assert(w[17] == le_bytes_u32(size)[1]);
        assert(w[18] == le_bytes_u32(size)[2]);
        assert(w[19] == le_bytes_u32(size)[3]);
    }
    assert(chunk_advance(size) == d);
    assert forall|i: int| 12 <= i < short.len() implies #[trigger] short[i] == w[i + d] by {
        assert(short[i] == rest[i - 12]);
        assert(w[i + d] == rest[i + d - 12 - d]);
    }
    lemma_scan_shift(w, short, 12, d);
    if let Some((o, _)) = scan_data_chunk(short, 12) {
        lemma_scan_result(short, 12);
    }
}

/// The PCM bytes of the WAVs `0..n` given by `f`, one after the other.
proof fn lemma_joined_pcm_flat(ws: Seq<Seq<u8>>, n: int, f: spec_fn(int) -> Seq<u8>)
    requires
        0 <= n <= ws.len(),
        forall|i: int| 0 <= i < n ==> #[trigger] f(i) == pcm_data(ws[i]),
    ensures
        joined_pcm(ws, n) == Seq::new(n as nat, f).flatten_alt(),
    decreases n,
{
    if n > 0 {
        lemma_joined_pcm_flat(ws, n - 1, f);
        assert(Seq::new(n as nat, f).drop_last() =~= Seq::new((n - 1) as nat, f));
        assert(Seq::new(n as nat, f).last() == f(n - 1));
    }
}

/// Layout of a concatenation: after the header of the first WAV come, in
/// order, the PCM bytes of every WAV, each taken from where its `data` chunk
/// starts for as many bytes as that chunk declares, cut at the end of its
/// buffer; the `data` size field reads back as the number of those bytes
/// mod 2^32, the RIFF size field as the length after its first 8 bytes mod
/// 2^32, and every other header byte is that of the first WAV.
pub proof fn lemma_concatenation_layout(ws: Seq<Seq<u8>>)
    requires
        ws.len() >= 2,
        concatenated_wav(ws) is Ok,
        ws[0].len() <= usize::MAX,
    ensures
        ({
            let out = concatenated_wav(ws)->Ok_0;
            let h = locate_data_chunk(ws[0])->Ok_0.0 as int;
            let pcm = Seq::new(
                ws.len(),
                |i: int|
                    {
                        let w = ws[i];
                        let start = locate_data_chunk(w)->Ok_0.0 as int;
                        let declared_end = start + locate_data_chunk(w)->Ok_0.1;
                        w.subrange(
                            start,
                            if declared_end <= w.len() {
                                declared_end
                            } else {
                                w.len() as int
                            },
                        )
                    },
            ).flatten();
            &&& 20 <= h
            &&& out.len() == h + pcm.len()
            &&& out.subrange(h, out.len() as int) == pcm
            &&& tag_at(out, h - 8, data_tag())
            &&& le_u32(out, h - 4) == (pcm.len() % 4294967296) as u32
            &&& le_u32(out, 4) == ((out.len() - 8) % 4294967296) as u32
            &&& forall|i: int| 0 <= i < h - 4 && !(4 <= i < 8) ==> #[trigger] out[i] == ws[0][i]
        }),
{
    let f = |i: int|
        {
            let w = ws[i];
            let start = locate_data_chunk(w)->Ok_0.0 as int;
            let declared_end = start + locate_data_chunk(w)->Ok_0.1;
            w.subrange(
                start,
                if declared_end <= w.len() {
                    declared_end
                } else {
                    w.len() as int
                },
            )
        };
    assert forall|i: int| 0 <= i < ws.len() implies #[trigger] f(i) == pcm_data(ws[i]) by {}
    lemma_joined_pcm_flat(ws, ws.len() as int, f);
    Seq::new(ws.len(), f).lemma_flatten_and_flatten_alt_are_equivalent();
    lemma_layout_fields(ws);
}

proof fn lemma_layout_fields(ws: Seq<Seq<u8>>)
    requires
        ws.len() >= 2,
        concatenated_wav(ws) is Ok,
        ws[0].len() <= usize::MAX,
    ensures
        ({
            let out = concatenated_wav(ws)->Ok_0;
            let h = locate_data_chunk(ws[0])->Ok_0.0 as int;
            let pcm = joined_pcm(ws, ws.len() as int);
            &&& 20 <= h
            &&& out.len() == h + pcm.len()
            &&& out.subrange(h, out.len() as int) == pcm
            &&& tag_at(out, h - 8, data_tag())
            &&& le_u32(out, h - 4) == (pcm.len() % 4294967296) as u32
            &&& le_u32(out, 4) == ((out.len() - 8) % 4294967296) as u32
            &&& forall|i: int| 0 <= i < h - 4 && !(4 <= i < 8) ==> #[trigger] out[i] == ws[0][i]
        }),
{
    lemma_concatenation_read_back(ws);
}


proof fn lemma_no_segment_error(ws: Seq<Seq<u8>>, n: int, rate: u32, channels: u16)
    requires
        0 <= n <= ws.len(),
    ensures
        first_segment_error(ws, n, rate, channels) is None <==> forall|i: int|
            0 <= i < n ==> #[trigger] format_info(ws[i]) == Ok::<(u32, u16), TtsError>(
                (rate, channels),
            ) && locate_data_chunk(ws[i]) is Ok,
    decreases n,
{
    if n > 0 {
        lemma_no_segment_error(ws, n - 1, rate, channels);
    }
}

/// Concatenating two or more WAVs succeeds exactly when every one of them
/// has format fields equal to those of the first and a `data` chunk that
/// can be found.
pub proof fn lemma_concatenation_succeeds_exactly(ws: Seq<Seq<u8>>)
    requires
        ws.len() >= 2,
    ensures
        concatenated_wav(ws) is Ok <==> (format_info(ws[0]) is Ok && forall|i: int|
            0 <= i < ws.len() ==> #[trigger] format_info(ws[i]) == format_info(ws[0])
                && locate_data_chunk(ws[i]) is Ok),
{
    if let Ok((rate, channels)) = format_info(ws[0]) {
        lemma_no_segment_error(ws, ws.len() as int, rate, channels);
    }
}

/// A buffer shorter than the 12-byte RIFF header has no `data` chunk to
/// find; one that does not open with `RIFF` and carry `WAVE` at offset 8 is
/// refused as not a WAV.
pub proof fn lemma_header_refusals(wav: Seq<u8>)
    ensures
        wav.len() < 12 ==> locate_data_chunk(wav) == Err::<(usize, u32), TtsError>(
            TtsError::WavTooShort,
        ),
        wav.len() >= 12 && !(wav[0] == 0x52 && wav[1] == 0x49 && wav[2] == 0x46 && wav[3] == 0x46
            && wav[8] == 0x57 && wav[9] == 0x41 && wav[10] == 0x56 && wav[11] == 0x45)
            ==> locate_data_chunk(wav) == Err::<(usize, u32), TtsError>(
            TtsError::InvalidWavHeader,
        ),
{
    if wav.len() >= 12 && has_riff_header(wav) {
        assert(wav.subrange(0, 4)[0] == wav[0] && wav.subrange(0, 4)[1] == wav[1]);
        assert(wav.subrange(0, 4)[2] == wav[2] && wav.subrange(0, 4)[3] == wav[3]);
        assert(wav.subrange(8, 12)[0] == wav[8] && wav.subrange(8, 12)[1] == wav[9]);
        assert(wav.subrange(8, 12)[2] == wav[10] && wav.subrange(8, 12)[3] == wav[11]);
    }
}

/// The format fields are read from fixed places: the channel count from the
/// two bytes at offset 22 and the sample rate from the four at offset 24,
/// least significant first; a buffer too short to hold them is refused.
pub proof fn lemma_format_fields(wav: Seq<u8>)
    ensures
        format_info(wav) == if wav.len() < 28 {
            Err::<(u32, u16), TtsError>(TtsError::FormatInfoTooShort)
        } else {
            Ok(
                (
                    (wav[24] + wav[25] * 256 + wav[26] * 65536 + wav[27] * 16777216) as u32,
                    (wav[22] + wav[23] * 256) as u16,
                ),
            )
        },
{
}

} // verus!
