use vstd::prelude::*;
use vstd::slice::slice_subrange;

use crate::decode::chunk::{
    decode_chunk, encoded_len, QOIChunk, QOIOpDiffChunk, QOIOpLumaChunk, QOIOpRunChunk,
};
use crate::decode::error::{DecodeError, FormatError};
use crate::decode::header::{has_magic, header_of, QOIHeader, HEADER_LEN};

verus! {

/// Number of slots in the pixel cache.
pub const INDEX_ARRAY_LENGTH: usize = 64;

/// A decoded image: its header and its chunks in stream order.
#[derive(Debug)]
pub struct QOI {
    pub header: QOIHeader,
    pub chunks: Vec<QOIChunk>,
}

/// One output pixel, eight bits per channel.
#[derive(Debug, Clone, Copy, PartialEq, Eq, Structural)]
pub struct Pixel {
    pub r: u8,
    pub g: u8,
    pub b: u8,
    pub a: u8,
}

/// The eight bytes that close the chunk stream.
pub open spec fn end_marker_bytes() -> Seq<u8> {
    seq![0u8, 0u8, 0u8, 0u8, 0u8, 0u8, 0u8, 1u8]
}

/// `s` opens with the end marker.
pub open spec fn is_end_marker(s: Seq<u8>) -> bool {
    s.len() >= 8 && s.take(8) == end_marker_bytes()
}

/// `cs` put in front of the chunks of a decoded stream.
pub open spec fn prepend_chunks(
    cs: Seq<QOIChunk>,
    d: Option<(Seq<QOIChunk>, Seq<u8>)>,
) -> Option<(Seq<QOIChunk>, Seq<u8>)> {
    match d {
        Some((more, rest)) => Some((cs + more, rest)),
        None => None,
    }
}

/// The chunks of the stream at the start of `s`, up to the end marker, and
/// the bytes after the marker. The marker is looked for before each chunk.
pub open spec fn decode_stream(s: Seq<u8>) -> Option<(Seq<QOIChunk>, Seq<u8>)>
    decreases s.len(),
{
    if is_end_marker(s) {
        Some((Seq::empty(), s.skip(8)))
    } else {
        match decode_chunk(s) {
            Some(c) => if encoded_len(c) <= s.len() {
                prepend_chunks(seq![c], decode_stream(s.skip(encoded_len(c) as int)))
            } else {
                None
            },
            None => None,
        }
    }
}

/// Recognises the end marker, seven zero bytes and a one, at the start of
/// `input`, and returns the bytes after it.
pub fn end_marker(input: &[u8]) -> (res: Result<(&[u8], ()), DecodeError>)
    ensures
        match res {
            Ok((rest, _)) => is_end_marker(input@) && rest@ == input@.skip(8),
            Err(e) => !is_end_marker(input@) && e == DecodeError::Format(FormatError::Tag),
        },
{
    if input.len() < 8 {
        return Err(DecodeError::Format(FormatError::Tag));
    }
    let mut i: usize = 0;
    while i < 8
        invariant
            0 <= i <= 8,
            input@.len() >= 8,
            forall|k: int| 0 <= k < i ==> input@[k] == end_marker_bytes()[k],
        decreases 8 - i,
    {
        let want: u8 = if i == 7 {
            1
        } else {
            0
        };
        if input[i] != want {
            proof {
                assert(input@.take(8)[i as int] == input@[i as int]);
            }
            return Err(DecodeError::Format(FormatError::Tag));
        }
        i = i + 1;
    }
    assert(input@.take(8) =~= end_marker_bytes());
    let rest = slice_subrange(input, 8, input.len());
    assert(rest@ =~= input@.skip(8));
    Ok((rest, ()))
}

/// Decodes chunks from the start of `bytes` until the end marker, checking
/// for the marker before each chunk. Returns the chunks and the bytes after
/// the marker, or fails if the input ends first.
pub fn parse_chunks(bytes: &[u8]) -> (res: Result<(&[u8], Vec<QOIChunk>), DecodeError>)
    ensures
        match res {
            Ok((rest, cs)) => decode_stream(bytes@) == Some((cs@, rest@)),
            Err(e) => decode_stream(bytes@) is None && e == DecodeError::Format(
                FormatError::Truncated,
            ),
        },
{
    let mut rest = bytes;
    let mut chunks: Vec<QOIChunk> = Vec::new();
    loop
        invariant
            decode_stream(bytes@) == prepend_chunks(chunks@, decode_stream(rest@)),
        decreases rest@.len(),
    {
        if let Ok((after, _)) = end_marker(rest) {
            assert(chunks@ + Seq::<QOIChunk>::empty() =~= chunks@);
            return Ok((after, chunks));
        }
        match QOIChunk::parse(rest) {
            Ok((after, c)) => {
                proof {
                    match decode_stream(after@) {
                        Some((more, tail)) => {
                            assert(chunks@ + (seq![c] + more) =~= chunks@.push(c) + more);
                        },
                        None => {},
                    }
                }
                chunks.push(c);
                rest = after;
            },
            Err(e) => {
                return Err(e);
            },
        }
    }
}

/// The pixel before the first chunk.
pub open spec fn start_pixel() -> Pixel {
    Pixel { r: 0, g: 0, b: 0, a: 255 }
}

/// The cache slot of a pixel.
pub open spec fn pixel_hash(p: Pixel) -> int {
    (p.r * 3 + p.g * 5 + p.b * 7 + p.a * 11) % 64
}

/// Channel value `c` moved by `d`, modulo 256.
pub open spec fn add_wrap(c: u8, d: int) -> u8 {
    ((c + d) % 256) as u8
}

/// The cache entry at `index`; slots past the end were never written.
pub open spec fn cache_at(cache: Seq<Option<Pixel>>, index: u8) -> Option<Pixel> {
    if index < cache.len() {
        cache[index as int]
    } else {
        None
    }
}

/// The last pixel that chunk `c` yields after `prev`, or none for an index
/// chunk whose slot is empty.
pub open spec fn chunk_pixel(prev: Pixel, cache: Seq<Option<Pixel>>, c: QOIChunk) -> Option<Pixel> {
    match c {
        QOIChunk::QOIRGBChunk(k) => Some(Pixel { r: k.r, g: k.g, b: k.b, a: prev.a }),
        QOIChunk::QOIRGBAChunk(k) => Some(Pixel { r: k.r, g: k.g, b: k.b, a: k.a }),
        QOIChunk::QOIOpIndexChunk(k) => cache_at(cache, k.index),
        QOIChunk::QOIOpDiffChunk(k) => Some(
            Pixel {
                r: add_wrap(prev.r, k.diff_r as int),
                g: add_wrap(prev.g, k.diff_g as int),
                b: add_wrap(prev.b, k.diff_b as int),
                a: prev.a,
            },
        ),
        QOIChunk::QOIOpLumaChunk(k) => Some(
            Pixel {
                r: add_wrap(prev.r, k.diff_g + k.dr_dg),
                g: add_wrap(prev.g, k.diff_g as int),
                b: add_wrap(prev.b, k.diff_g + k.db_dg),
                a: prev.a,
            },
        ),
        QOIChunk::QOIOpRunChunk(_) => Some(prev),
    }
}

/// How many pixels chunk `c` emits.
pub open spec fn pixel_count(c: QOIChunk) -> nat {
    match c {
        QOIChunk::QOIOpRunChunk(k) => k.run as nat,
        _ => 1,
    }
}

/// The cache slot an index chunk refers to; 0 for other chunks.
pub open spec fn referenced_slot(c: QOIChunk) -> u8 {
    match c {
        QOIChunk::QOIOpIndexChunk(k) => k.index,
        _ => 0,
    }
}

/// What reconstruction has built after some chunks: the pixels emitted, the
/// previous pixel and the cache.
pub struct ReplayState {
    pub pixels: Seq<Pixel>,
    pub prev: Pixel,
    pub cache: Seq<Option<Pixel>>,
}

pub open spec fn initial_state() -> ReplayState {
    ReplayState {
        pixels: Seq::empty(),
        prev: start_pixel(),
        cache: Seq::new(INDEX_ARRAY_LENGTH as nat, |i: int| None),
    }
}

/// One chunk applied to `st`: its pixels are emitted, and its last pixel
/// becomes the previous pixel and is stored at its hash. Fails with the
/// referenced slot when an index chunk finds its slot empty.
pub open spec fn apply_chunk(st: ReplayState, c: QOIChunk) -> Result<ReplayState, u8> {
    match chunk_pixel(st.prev, st.cache, c) {
        Some(p) => Ok(
            ReplayState {
                pixels: st.pixels + Seq::new(pixel_count(c), |j: int| p),
                prev: p,
                cache: st.cache.update(pixel_hash(p), Some(p)),
            },
        ),
        None => Err(referenced_slot(c)),
    }
}

/// The state after the first `n` chunks, or the slot of the first index
/// chunk that found its slot empty.
pub open spec fn replay(chunks: Seq<QOIChunk>, n: nat) -> Result<ReplayState, u8>
    decreases n,
{
    if n == 0 {
        Ok(initial_state())
    } else {
        match replay(chunks, (n - 1) as nat) {
            Ok(st) => apply_chunk(st, chunks[n - 1]),
            Err(slot) => Err(slot),
        }
    }
}

/// The pixels of a whole chunk sequence.
pub open spec fn decode_pixels(chunks: Seq<QOIChunk>) -> Result<Seq<Pixel>, u8> {
    match replay(chunks, chunks.len()) {
        Ok(st) => Ok(st.pixels),
        Err(slot) => Err(slot),
    }
}

/// Once a replay fails, every longer replay fails with the same slot.
proof fn lemma_replay_err_persists(chunks: Seq<QOIChunk>, n: nat, m: nat)
    requires
        n <= m,
        replay(chunks, n) is Err,
    ensures
        replay(chunks, m) == replay(chunks, n),
    decreases m - n,
{
    if n < m {
        lemma_replay_err_persists(chunks, n, (m - 1) as nat);
    }
}

/// Slot `slot` was written by one of the first `n` chunks: the last pixel
/// of one of them hashes to it.
pub open spec fn slot_written(chunks: Seq<QOIChunk>, n: nat, slot: int) -> bool {
    exists|j: nat|
        0 < j <= n && #[trigger] replay(chunks, j) is Ok && pixel_hash(replay(chunks, j)->Ok_0.prev)
            == slot
}

/// The slots written by the first `n` chunks are those written by the first
/// `n - 1` and the slot of the `n`-th chunk's last pixel.
proof fn lemma_slot_written_step(chunks: Seq<QOIChunk>, n: nat, s: int)
    requires
        n > 0,
        replay(chunks, n) is Ok,
    ensures
        slot_written(chunks, n, s) <==> (slot_written(chunks, (n - 1) as nat, s) || pixel_hash(
            replay(chunks, n)->Ok_0.prev,
        ) == s),
{
    let m = (n - 1) as nat;
    if slot_written(chunks, n, s) {
        let j = choose|j: nat|
            0 < j <= n && #[trigger] replay(chunks, j) is Ok && pixel_hash(
                replay(chunks, j)->Ok_0.prev,
            ) == s;
        if j < n {
            assert(0 < j <= m && replay(chunks, j) is Ok);
        }
    }
    if slot_written(chunks, m, s) {
        let j = choose|j: nat|
            0 < j <= m && #[trigger] replay(chunks, j) is Ok && pixel_hash(
                replay(chunks, j)->Ok_0.prev,
            ) == s;
        assert(0 < j <= n && replay(chunks, j) is Ok);
    }
    if pixel_hash(replay(chunks, n)->Ok_0.prev) == s {
        assert(0 < n <= n && replay(chunks, n) is Ok);
    }
}

/// After a successful replay the cache has its 64 slots, and a slot is
/// filled exactly when some chunk so far wrote it.
proof fn lemma_cache_tracks_writes(chunks: Seq<QOIChunk>, n: nat)
    requires
        replay(chunks, n) is Ok,
    ensures
        replay(chunks, n)->Ok_0.cache.len() == INDEX_ARRAY_LENGTH,
        forall|s: int|
            0 <= s < INDEX_ARRAY_LENGTH ==> (replay(chunks, n)->Ok_0.cache[s] is Some
                <==> slot_written(chunks, n, s)),
    decreases n,
{
    if n > 0 {
        let m = (n - 1) as nat;
        lemma_cache_tracks_writes(chunks, m);
        let old_st = replay(chunks, m)->Ok_0;
        let st = replay(chunks, n)->Ok_0;
        assert forall|s: int| 0 <= s < INDEX_ARRAY_LENGTH implies (st.cache[s] is Some
            <==> slot_written(chunks, n, s)) by {
            lemma_slot_written_step(chunks, n, s);
        }
    }
}

/// An index chunk fails exactly when no earlier chunk of the same stream
/// wrote the slot it refers to.
pub proof fn lemma_index_fails_iff_unwritten(chunks: Seq<QOIChunk>, n: nat)
    requires
        n < chunks.len(),
        replay(chunks, n) is Ok,
        chunks[n as int] is QOIOpIndexChunk,
    ensures
        replay(chunks, n + 1) is Err <==> !slot_written(
            chunks,
            n,
            chunks[n as int]->QOIOpIndexChunk_0.index as int,
        ),
{
    lemma_cache_tracks_writes(chunks, n);
    let slot = chunks[n as int]->QOIOpIndexChunk_0.index as int;
    assert(replay(chunks, n + 1) == apply_chunk(replay(chunks, n)->Ok_0, chunks[n as int]));
    if slot >= INDEX_ARRAY_LENGTH {
        if slot_written(chunks, n, slot) {
            let j = choose|j: nat|
                0 < j <= n && #[trigger] replay(chunks, j) is Ok && pixel_hash(
                    replay(chunks, j)->Ok_0.prev,
                ) == slot;
        }
    }
}

/// A run chunk of length `run` emits exactly `run` copies of the previous
/// pixel after the pixels so far, and the cache stores the last emitted pixel
/// at that pixel's hash.
pub proof fn lemma_run_chunk(st: ReplayState, k: QOIOpRunChunk)
    requires
        k.run >= 1,
    ensures
        apply_chunk(st, QOIChunk::QOIOpRunChunk(k)) is Ok,
        apply_chunk(st, QOIChunk::QOIOpRunChunk(k))->Ok_0.pixels.len() == st.pixels.len() + k.run,
        apply_chunk(st, QOIChunk::QOIOpRunChunk(k))->Ok_0.pixels.take(st.pixels.len() as int)
            == st.pixels,
        forall|t: int|
            st.pixels.len() <= t < st.pixels.len() + k.run ==> apply_chunk(
                st,
                QOIChunk::QOIOpRunChunk(k),
            )->Ok_0.pixels[t] == st.prev,
        apply_chunk(st, QOIChunk::QOIOpRunChunk(k))->Ok_0.prev == apply_chunk(
            st,
            QOIChunk::QOIOpRunChunk(k),
        )->Ok_0.pixels.last(),
        apply_chunk(st, QOIChunk::QOIOpRunChunk(k))->Ok_0.cache == st.cache.update(
            pixel_hash(apply_chunk(st, QOIChunk::QOIOpRunChunk(k))->Ok_0.pixels.last()),
            Some(apply_chunk(st, QOIChunk::QOIOpRunChunk(k))->Ok_0.pixels.last()),
        ),
{
    let next = apply_chunk(st, QOIChunk::QOIOpRunChunk(k))->Ok_0;
    assert(next.pixels.take(st.pixels.len() as int) =~= st.pixels);
}

/// A diff chunk moves each channel modulo 256: a channel at 255 moved by a
/// positive difference `d` comes out as `d - 1`.
pub proof fn lemma_diff_wraps(st: ReplayState, k: QOIOpDiffChunk)
    ensures
        apply_chunk(st, QOIChunk::QOIOpDiffChunk(k)) is Ok,
        apply_chunk(st, QOIChunk::QOIOpDiffChunk(k))->Ok_0.prev.r as int == (st.prev.r + k.diff_r)
            % 256,
        apply_chunk(st, QOIChunk::QOIOpDiffChunk(k))->Ok_0.prev.g as int == (st.prev.g + k.diff_g)
            % 256,
        apply_chunk(st, QOIChunk::QOIOpDiffChunk(k))->Ok_0.prev.b as int == (st.prev.b + k.diff_b)
            % 256,
        st.prev.r == 255 && k.diff_r > 0 ==> apply_chunk(
            st,
            QOIChunk::QOIOpDiffChunk(k),
        )->Ok_0.prev.r == k.diff_r - 1,
        st.prev.g == 255 && k.diff_g > 0 ==> apply_chunk(
            st,
            QOIChunk::QOIOpDiffChunk(k),
        )->Ok_0.prev.g == k.diff_g - 1,
        st.prev.b == 255 && k.diff_b > 0 ==> apply_chunk(
            st,
            QOIChunk::QOIOpDiffChunk(k),
        )->Ok_0.prev.b == k.diff_b - 1,
{
}

/// A luma chunk moves each channel modulo 256: green by its difference, red
/// and blue by green's plus their own; green at 255 moved by a positive
/// difference `d` comes out as `d - 1`.
pub proof fn lemma_luma_wraps(st: ReplayState, k: QOIOpLumaChunk)
    ensures
        apply_chunk(st, QOIChunk::QOIOpLumaChunk(k)) is Ok,
        apply_chunk(st, QOIChunk::QOIOpLumaChunk(k))->Ok_0.prev.r as int == (st.prev.r + k.diff_g
            + k.dr_dg) % 256,
        apply_chunk(st, QOIChunk::QOIOpLumaChunk(k))->Ok_0.prev.g as int == (st.prev.g + k.diff_g)
            % 256,
        apply_chunk(st, QOIChunk::QOIOpLumaChunk(k))->Ok_0.prev.b as int == (st.prev.b + k.diff_g
            + k.db_dg) % 256,
        st.prev.g == 255 && k.diff_g > 0 ==> apply_chunk(
            st,
            QOIChunk::QOIOpLumaChunk(k),
        )->Ok_0.prev.g == k.diff_g - 1,
{
}

proof fn lemma_add_wrap_twice(c: u8, x: int, y: int)
    ensures
        add_wrap(add_wrap(c, x), y) == add_wrap(c, x + y),
{
    let m = add_wrap(c, x);
    assert(m as int == (c + x) % 256);
    vstd::arithmetic::div_mod::lemma_add_mod_noop(c + x, y, 256);
    vstd::arithmetic::div_mod::lemma_mod_twice(c + x, 256);
}

/// `c` moved by `d`, modulo 256.
fn add_delta(c: u8, d: i8) -> (r: u8)
    ensures
        r == add_wrap(c, d as int),
{
    c.wrapping_add_signed(d)
}

/// The cache slot of `p`.
pub fn hash_position(p: Pixel) -> (h: usize)
    ensures
        h as int == pixel_hash(p),
        h < INDEX_ARRAY_LENGTH,
{
    ((p.r as usize) * 3 + (p.g as usize) * 5 + (p.b as usize) * 7 + (p.a as usize) * 11) % 64
}

impl QOI {
    /// Parses a whole image: the header, then the chunks up to the end
    /// marker. Returns the image and the bytes after the marker.
    pub fn parse(bytes: &[u8]) -> (res: Result<(&[u8], QOI), DecodeError>)
        ensures
            match res {
                Ok((rest, q)) => {
                    &&& has_magic(bytes@) && bytes@.len() >= HEADER_LEN
                    &&& q.header == header_of(bytes@)
                    &&& decode_stream(bytes@.skip(HEADER_LEN as int)) == Some((q.chunks@, rest@))
                },
                Err(e) => if !has_magic(bytes@) {
                    e == DecodeError::Format(FormatError::Magic)
                } else if bytes@.len() < HEADER_LEN {
                    e == DecodeError::Format(FormatError::Truncated)
                } else {
                    &&& decode_stream(bytes@.skip(HEADER_LEN as int)) is None
                    &&& e == DecodeError::Format(FormatError::Truncated)
                },
            },
    {
        let (after_header, header) = QOIHeader::parse(bytes)?;
        let (rest, chunks) = parse_chunks(after_header)?;
        Ok((rest, QOI { header, chunks }))
    }

    /// Replays the chunks against the pixel cache, starting from an opaque
    /// black previous pixel and an empty cache, and returns every pixel
    /// emitted. Fails at the first index chunk whose slot no earlier chunk
    /// wrote.
    pub fn into_pixels(&self) -> (res: Result<Vec<Pixel>, DecodeError>)
        ensures
            match (res, decode_pixels(self.chunks@)) {
                (Ok(v), Ok(px)) => v@ == px,
                (Err(e), Err(slot)) => e == DecodeError::Reconstruction { index: slot },
                _ => false,
            },
    {
        let mut pixels: Vec<Pixel> = Vec::new();
        let mut cache: Vec<Option<Pixel>> = Vec::new();
        let mut k: usize = 0;
        while k < INDEX_ARRAY_LENGTH
            invariant
                k <= INDEX_ARRAY_LENGTH,
                cache@ =~= Seq::new(k as nat, |i: int| None::<Pixel>),
            decreases INDEX_ARRAY_LENGTH - k,
        {
            cache.push(None);
            k = k + 1;
        }
        let mut prev = Pixel { r: 0, g: 0, b: 0, a: 255 };
        let mut i: usize = 0;
        while i < self.chunks.len()
            invariant
                i <= self.chunks@.len(),
                cache@.len() == INDEX_ARRAY_LENGTH,
                replay(self.chunks@, i as nat) == Ok::<ReplayState, u8>(
                    ReplayState { pixels: pixels@, prev, cache: cache@ },
                ),
            decreases self.chunks@.len() - i,
        {
            let c = self.chunks[i];
            let ghost before = pixels@;
            let p = match c {
                QOIChunk::QOIRGBChunk(k) => Pixel { r: k.r, g: k.g, b: k.b, a: prev.a },
                QOIChunk::QOIRGBAChunk(k) => Pixel { r: k.r, g: k.g, b: k.b, a: k.a },
                QOIChunk::QOIOpIndexChunk(k) => {
                    let slot = k.index as usize;
                    if slot >= INDEX_ARRAY_LENGTH {
                        proof {
                            lemma_replay_err_persists(self.chunks@, (i + 1) as nat, self.chunks@.len());
                        }
                        return Err(DecodeError::Reconstruction { index: k.index });
                    }
                    match cache[slot] {
                        Some(p) => p,
                        None => {
                            proof {
                                lemma_replay_err_persists(self.chunks@, (i + 1) as nat, self.chunks@.len());
                            }
                            return Err(DecodeError::Reconstruction { index: k.index });
                        },
                    }
                },
                QOIChunk::QOIOpDiffChunk(k) => Pixel {
                    r: add_delta(prev.r, k.diff_r),
                    g: add_delta(prev.g, k.diff_g),
                    b: add_delta(prev.b, k.diff_b),
                    a: prev.a,
                },
                QOIChunk::QOIOpLumaChunk(k) => {
                    proof {
                        lemma_add_wrap_twice(prev.r, k.diff_g as int, k.dr_dg as int);
                        lemma_add_wrap_twice(prev.b, k.diff_g as int, k.db_dg as int);
                    }
                    Pixel {
                        r: add_delta(add_delta(prev.r, k.diff_g), k.dr_dg),
                        g: add_delta(prev.g, k.diff_g),
                        b: add_delta(add_delta(prev.b, k.diff_g), k.db_dg),
                        a: prev.a,
                    }
                },
                QOIChunk::QOIOpRunChunk(_) => prev,
            };
            let count: u8 = match c {
                QOIChunk::QOIOpRunChunk(k) => k.run,
                _ => 1,
            };
            let mut j: u8 = 0;
            while j < count
                invariant
                    j <= count,
                    pixels@ =~= before + Seq::new(j as nat, |t: int| p),
                decreases count - j,
            {
                pixels.push(p);
                j = j + 1;
            }
            let h = hash_position(p);
            cache.set(h, Some(p));
            prev = p;
            i = i + 1;
        }
        assert(self.chunks@.len() == i);
        Ok(pixels)
    }
}

} // verus!
