use crate::my_image::{DecodeErrorKind, ImageDecodeError};
use crate::pixel::{hash_of, wrap8, wsub, Pixel};
use vstd::prelude::*;

verus! {

/// The four magic bytes "qoif" that open every stream.
pub open spec fn magic() -> Seq<u8> {
    seq![0x71u8, 0x6fu8, 0x69u8, 0x66u8]
}

/// The fixed eight-byte trailer that closes every stream.
pub open spec fn end_marker() -> Seq<u8> {
    seq![0u8, 0u8, 0u8, 0u8, 0u8, 0u8, 0u8, 1u8]
}

/// The color cache at the start of a call: 64 all-zero pixels.
pub open spec fn init_cache() -> Seq<Pixel> {
    Seq::new(64, |i: int| Pixel { r: 0, g: 0, b: 0, a: 0 })
}

/// The previous-pixel register at the start of a call.
pub open spec fn init_prev() -> Pixel {
    Pixel { r: 0, g: 0, b: 0, a: 255 }
}

/// A 32-bit value as four big-endian bytes.
pub open spec fn be32(n: int) -> Seq<u8> {
    seq![
        ((n / 0x1000000) % 256) as u8,
        ((n / 0x10000) % 256) as u8,
        ((n / 0x100) % 256) as u8,
        (n % 256) as u8,
    ]
}

/// The value of the four big-endian bytes at offset `i`.
pub open spec fn read_be32(bs: Seq<u8>, i: int) -> int {
    bs[i] * 0x1000000 + bs[i + 1] * 0x10000 + bs[i + 2] * 0x100 + bs[i + 3]
}

/// Pixel number `k` of a raw buffer with the given channel count; a 3-channel
/// buffer carries an implicit alpha of 255.
pub open spec fn pixel_of_bytes(bs: Seq<u8>, stride: int, k: int) -> Pixel {
    Pixel {
        r: bs[k * stride],
        g: bs[k * stride + 1],
        b: bs[k * stride + 2],
        a: if stride == 4 {
            bs[k * stride + 3]
        } else {
            255
        },
    }
}

/// The first `n` pixels of a raw buffer, as RGBA values.
pub open spec fn bytes_to_pixels(bs: Seq<u8>, stride: int, n: int) -> Seq<Pixel> {
    Seq::new(n as nat, |k: int| pixel_of_bytes(bs, stride, k))
}

/// The stored bytes of one pixel: alpha is dropped when the buffer has three
/// channels.
pub open spec fn pixel_bytes_one(p: Pixel, stride: int) -> Seq<u8> {
    if stride == 4 {
        seq![p.r, p.g, p.b, p.a]
    } else {
        seq![p.r, p.g, p.b]
    }
}

/// The raw buffer holding a pixel sequence at the given channel count.
pub open spec fn pixel_bytes(ps: Seq<Pixel>, stride: int) -> Seq<u8>
    decreases ps.len(),
{
    if ps.len() == 0 {
        Seq::empty()
    } else {
        pixel_bytes_one(ps[0], stride) + pixel_bytes(ps.skip(1), stride)
    }
}

// ------------------------------------------------------------------
// The decoder, one opcode at a time.
// ------------------------------------------------------------------
/// What one opcode at offset `i` does: either it yields `1 + more` copies of
/// one pixel and consumes `consumed` bytes, or the stream ends inside it.
pub enum OpStep {
    Op { px: Pixel, more: nat, consumed: nat },
    Fail { pos: int },
}

/// Decode the single opcode at offset `i` (which must be in range), given the
/// cache and the previous pixel. Only a run yields more than one pixel.
pub open spec fn spec_decode_op(bs: Seq<u8>, i: int, cache: Seq<Pixel>, prev: Pixel) -> OpStep {
    let op = bs[i] as int;
    if op == 254 {
        // RGB literal; alpha is carried over from the previous pixel.
        if i + 4 <= bs.len() {
            OpStep::Op {
                px: Pixel { r: bs[i + 1], g: bs[i + 2], b: bs[i + 3], a: prev.a },
                more: 0,
                consumed: 4,
            }
        } else {
            OpStep::Fail { pos: i }
        }
    } else if op == 255 {
        // RGBA literal.
        if i + 5 <= bs.len() {
            OpStep::Op {
                px: Pixel { r: bs[i + 1], g: bs[i + 2], b: bs[i + 3], a: bs[i + 4] },
                more: 0,
                consumed: 5,
            }
        } else {
            OpStep::Fail { pos: i }
        }
    } else if op < 64 {
        // Cache index.
        OpStep::Op { px: cache[op], more: 0, consumed: 1 }
    } else if op < 128 {
        // Small diff: two bits per channel, biased by 2.
        OpStep::Op {
            px: Pixel {
                r: wrap8(prev.r + (op / 16) % 4 - 2),
                g: wrap8(prev.g + (op / 4) % 4 - 2),
                b: wrap8(prev.b + op % 4 - 2),
                a: prev.a,
            },
            more: 0,
            consumed: 1,
        }
    } else if op < 192 {
        // Luma diff: six-bit green delta, and four-bit red and blue deltas
        // relative to the green delta.
        if i + 2 <= bs.len() {
            let dg = op % 64 - 32;
            let hi = bs[i + 1] as int / 16;
            let lo = bs[i + 1] as int % 16;
            OpStep::Op {
                px: Pixel {
                    r: wrap8(prev.r + dg + (hi - 8)),
                    g: wrap8(prev.g + dg),
                    b: wrap8(prev.b + dg + (lo - 8)),
                    a: prev.a,
                },
                more: 0,
                consumed: 2,
            }
        } else {
            OpStep::Fail { pos: i }
        }
    } else {
        // Run of the previous pixel; the length field is biased by 1.
        OpStep::Op { px: prev, more: (op - 192) as nat, consumed: 1 }
    }
}

/// Decode opcodes from offset `i` until exactly `remaining` pixels have been
/// produced. A run longer than the budget is truncated to it. On success the
/// result carries the pixels and the offset just past the last opcode.
pub open spec fn spec_decode_pixels(
    bs: Seq<u8>,
    i: int,
    remaining: nat,
    cache: Seq<Pixel>,
    prev: Pixel,
) -> Result<(Seq<Pixel>, int), ImageDecodeError>
    decreases remaining,
{
    if remaining == 0 {
        Ok((Seq::empty(), i))
    } else if i >= bs.len() {
        Err(
            ImageDecodeError {
                position: bs.len() as usize,
                kind: DecodeErrorKind::TruncatedStream,
            },
        )
    } else {
        match spec_decode_op(bs, i, cache, prev) {
            OpStep::Fail { pos } => Err(
                ImageDecodeError { position: pos as usize, kind: DecodeErrorKind::UnexpectedEof },
            ),
            OpStep::Op { px, more, consumed } => {
                let taken = 1 + if more <= remaining - 1 {
                    more
                } else {
                    (remaining - 1) as nat
                };
                match spec_decode_pixels(
                    bs,
                    i + consumed,
                    (remaining - taken) as nat,
                    cache.update(hash_of(px), px),
                    px,
                ) {
                    Ok((ps, end)) => Ok((Seq::new(taken as nat, |j: int| px) + ps, end)),
                    Err(e) => Err(e),
                }
            },
        }
    }
}

/// What a decoded stream describes: the header fields and the pixels, still as
/// RGBA values.
pub struct DecodedImage {
    pub width: int,
    pub height: int,
    pub channels: int,
    pub pixels: Seq<Pixel>,
}

/// The meaning of a whole stream: the header is validated, then exactly
/// width * height pixels are decoded, then the end marker must follow. Bytes
/// after the marker are ignored. The colorspace byte is read past, not
/// interpreted. A stream shorter than four bytes counts as having the wrong
/// magic; one that ends inside the rest of the header is an unexpected end.
pub open spec fn spec_decode(bs: Seq<u8>) -> Result<DecodedImage, ImageDecodeError> {
    if bs.len() < 4 || bs.subrange(0, 4) != magic() {
        Err(ImageDecodeError { position: 0, kind: DecodeErrorKind::InvalidMagic })
    } else if bs.len() < 14 {
        Err(ImageDecodeError { position: bs.len() as usize, kind: DecodeErrorKind::UnexpectedEof })
    } else {
        let w = read_be32(bs, 4);
        let h = read_be32(bs, 8);
        let ch = bs[12] as int;
        if ch != 3 && ch != 4 {
            Err(ImageDecodeError { position: 12, kind: DecodeErrorKind::InvalidHeader })
        } else if w == 0 {
            Err(ImageDecodeError { position: 4, kind: DecodeErrorKind::InvalidHeader })
        } else if h == 0 {
            Err(ImageDecodeError { position: 8, kind: DecodeErrorKind::InvalidHeader })
        } else {
            match spec_decode_pixels(bs, 14, (w * h) as nat, init_cache(), init_prev()) {
                Err(e) => Err(e),
                Ok((ps, end)) => if end + 8 > bs.len() {
                    Err(
                        ImageDecodeError {
                            position: bs.len() as usize,
                            kind: DecodeErrorKind::TruncatedStream,
                        },
                    )
                } else if bs.subrange(end, end + 8) != end_marker() {
                    Err(
                        ImageDecodeError {
                            position: end as usize,
                            kind: DecodeErrorKind::MissingEndMarker,
                        },
                    )
                } else {
                    Ok(DecodedImage { width: w, height: h, channels: ch, pixels: ps })
                },
            }
        }
    }
}

// ------------------------------------------------------------------
// The encoder.
// ------------------------------------------------------------------
/// A wrapped difference representable by the small-diff opcode: in [-2, 1].
pub open spec fn near2(w: u8) -> bool {
    w < 2 || w >= 254
}

/// A wrapped difference representable as a luma green delta: in [-32, 31].
pub open spec fn near32(w: u8) -> bool {
    w < 32 || w >= 224
}

/// A wrapped difference representable as a luma red/blue delta: in [-8, 7].
pub open spec fn near8(w: u8) -> bool {
    w < 8 || w >= 248
}

/// The biased field value of a wrapped difference.
pub open spec fn bias(w: u8, k: int) -> int {
    (w + k) % 256
}

/// The small-diff opcode applies: alpha unchanged and every channel within
/// [-2, 1] of the previous pixel, modulo 256.
pub open spec fn small_diff_ok(p: Pixel, prev: Pixel) -> bool {
    &&& p.a == prev.a
    &&& near2(wsub(p.r, prev.r))
    &&& near2(wsub(p.g, prev.g))
    &&& near2(wsub(p.b, prev.b))
}

/// The luma opcode applies: alpha unchanged, green delta within [-32, 31], and
/// the red and blue deltas within [-8, 7] of the green delta, all modulo 256.
pub open spec fn luma_ok(p: Pixel, prev: Pixel) -> bool {
    &&& p.a == prev.a
    &&& near32(wsub(p.g, prev.g))
    &&& near8(wsub(wsub(p.r, prev.r), wsub(p.g, prev.g)))
    &&& near8(wsub(wsub(p.b, prev.b), wsub(p.g, prev.g)))
}

/// The bytes the encoder emits for one pixel that does not extend a run,
/// choosing the first applicable rule: cache hit, small diff, luma diff, RGB
/// literal, RGBA literal.
pub open spec fn spec_encode_op(p: Pixel, cache: Seq<Pixel>, prev: Pixel) -> Seq<u8> {
    if cache[hash_of(p)] == p {
        seq![hash_of(p) as u8]
    } else if small_diff_ok(p, prev) {
        seq![
            (64 + bias(wsub(p.r, prev.r), 2) * 16 + bias(wsub(p.g, prev.g), 2) * 4 + bias(
                wsub(p.b, prev.b),
                2,
            )) as u8,
        ]
    } else if luma_ok(p, prev) {
        seq![
            (128 + bias(wsub(p.g, prev.g), 32)) as u8,
            (bias(wsub(wsub(p.r, prev.r), wsub(p.g, prev.g)), 8) * 16 + bias(
                wsub(wsub(p.b, prev.b), wsub(p.g, prev.g)),
                8,
            )) as u8,
        ]
    } else if p.a == prev.a {
        seq![254u8, p.r, p.g, p.b]
    } else {
        seq![255u8, p.r, p.g, p.b, p.a]
    }
}

/// How many leading pixels of `ps` equal `p`, capped at `cap`.
pub open spec fn run_ext(ps: Seq<Pixel>, p: Pixel, cap: nat) -> nat
    decreases ps.len(),
{
    if cap == 0 || ps.len() == 0 || ps[0] != p {
        0
    } else {
        1 + run_ext(ps.skip(1), p, (cap - 1) as nat)
    }
}

pub proof fn lemma_run_ext_props(ps: Seq<Pixel>, p: Pixel, cap: nat)
    ensures
        run_ext(ps, p, cap) <= cap,
        run_ext(ps, p, cap) <= ps.len(),
        forall|i: int| 0 <= i < run_ext(ps, p, cap) ==> ps[i] == p,
        run_ext(ps, p, cap) < cap && run_ext(ps, p, cap) < ps.len() ==> ps[
            run_ext(ps, p, cap) as int
        ] != p,
    decreases ps.len(),
{
    if !(cap == 0 || ps.len() == 0 || ps[0] != p) {
        lemma_run_ext_props(ps.skip(1), p, (cap - 1) as nat);
        assert forall|i: int| 0 <= i < run_ext(ps, p, cap) implies ps[i] == p by {
            if i > 0 {
                assert(ps.skip(1)[i - 1] == ps[i]);
            }
        }
        if run_ext(ps, p, cap) < cap && run_ext(ps, p, cap) < ps.len() {
            assert(ps.skip(1)[run_ext(ps, p, cap) - 1] == ps[run_ext(ps, p, cap) as int]);
        }
    }
}

/// The length of the run the encoder takes at the head of `ps`, given that the
/// head equals the previous pixel: at most 62.
pub open spec fn spec_run_len(ps: Seq<Pixel>, prev: Pixel) -> nat {
    run_ext(ps, prev, 62)
}

/// The opcode stream for a pixel sequence, from the given cache and
/// previous-pixel state. A pixel equal to the previous one opens a run of up
/// to 62; any other pixel is encoded by `spec_encode_op`. After every pixel
/// the cache slot of that pixel is rewritten and the register moves.
pub open spec fn spec_encode_pixels(ps: Seq<Pixel>, cache: Seq<Pixel>, prev: Pixel) -> Seq<u8>
    decreases ps.len(),
    via spec_encode_pixels_dec
{
    if ps.len() == 0 {
        Seq::empty()
    } else if ps[0] == prev {
        let rl = spec_run_len(ps, prev);
        seq![(192 + rl - 1) as u8] + spec_encode_pixels(
            ps.skip(rl as int),
            cache.update(hash_of(prev), prev),
            prev,
        )
    } else {
        spec_encode_op(ps[0], cache, prev) + spec_encode_pixels(
            ps.skip(1),
            cache.update(hash_of(ps[0]), ps[0]),
            ps[0],
        )
    }
}

#[via_fn]
proof fn spec_encode_pixels_dec(ps: Seq<Pixel>, cache: Seq<Pixel>, prev: Pixel) {
    if ps.len() > 0 && ps[0] == prev {
        lemma_run_ext_props(ps, prev, 62);
    }
}

/// The 14-byte header: magic, width, height, channel count, colorspace.
pub open spec fn spec_header(w: int, h: int, ch: int, cs: u8) -> Seq<u8> {
    magic() + be32(w) + be32(h) + seq![ch as u8, cs]
}

/// The whole encoded stream for a pixel sequence.
pub open spec fn spec_encode(w: int, h: int, ch: int, cs: u8, ps: Seq<Pixel>) -> Seq<u8> {
    spec_header(w, h, ch, cs) + spec_encode_pixels(ps, init_cache(), init_prev()) + end_marker()
}

/// The pixels of an image, as RGBA values, row-major.
pub open spec fn img_pixels(img: &crate::my_image::Image) -> Seq<Pixel> {
    bytes_to_pixels(img.pixels@, img.stride as int, (img.width * img.height) as int)
}

/// `run_ext` is pinned down by its characteristic facts: `m` leading copies,
/// and a stop at the cap, the end, or the first different pixel.
pub proof fn lemma_run_ext_char(ps: Seq<Pixel>, p: Pixel, cap: nat, m: nat)
    requires
        m <= cap,
        m <= ps.len(),
        forall|i: int| 0 <= i < m ==> ps[i] == p,
        m < cap && m < ps.len() ==> ps[m as int] != p,
    ensures
        run_ext(ps, p, cap) == m,
    decreases ps.len(),
{
    if m == 0 {
    } else {
        assert(ps[0] == p);
        assert forall|i: int| 0 <= i < m - 1 implies ps.skip(1)[i] == p by {
            assert(ps.skip(1)[i] == ps[i + 1]);
        }
        if m - 1 < cap - 1 && m - 1 < ps.skip(1).len() {
            assert(ps.skip(1)[m - 1] == ps[m as int]);
        }
        lemma_run_ext_char(ps.skip(1), p, (cap - 1) as nat, (m - 1) as nat);
    }
}

/// Prefixing already-decoded pixels onto the outcome of the rest of a decode.
pub open spec fn decode_cont(
    done: Seq<Pixel>,
    r: Result<(Seq<Pixel>, int), ImageDecodeError>,
) -> Result<(Seq<Pixel>, int), ImageDecodeError> {
    match r {
        Ok((ps, end)) => Ok((done + ps, end)),
        Err(e) => Err(e),
    }
}

pub proof fn lemma_decode_cont_empty(r: Result<(Seq<Pixel>, int), ImageDecodeError>)
    ensures
        decode_cont(Seq::empty(), r) == r,
{
    match r {
        Ok((ps, end)) => {
            assert(Seq::empty() + ps =~= ps);
        },
        Err(_) => {},
    }
}

pub proof fn lemma_decode_cont_assoc(
    done: Seq<Pixel>,
    mid: Seq<Pixel>,
    r: Result<(Seq<Pixel>, int), ImageDecodeError>,
)
    ensures
        decode_cont(
            done,
            match r {
                Ok((ps, end)) => Ok((mid + ps, end)),
                Err(e) => Err(e),
            },
        ) == decode_cont(done + mid, r),
{
    match r {
        Ok((ps, end)) => {
            assert(done + (mid + ps) =~= (done + mid) + ps);
        },
        Err(_) => {},
    }
}

/// Appending one pixel appends its bytes.
pub proof fn lemma_pixel_bytes_push(ps: Seq<Pixel>, p: Pixel, s: int)
    ensures
        pixel_bytes(ps.push(p), s) == pixel_bytes(ps, s) + pixel_bytes_one(p, s),
    decreases ps.len(),
{
    if ps.len() == 0 {
        assert(ps.push(p)[0] == p);
        assert(ps.push(p).skip(1) =~= Seq::<Pixel>::empty());
        assert(pixel_bytes(Seq::<Pixel>::empty(), s) == Seq::<u8>::empty());
        assert(pixel_bytes(ps.push(p), s) == pixel_bytes_one(p, s) + pixel_bytes(
            Seq::<Pixel>::empty(),
            s,
        ));
        assert(pixel_bytes_one(p, s) + Seq::<u8>::empty() =~= pixel_bytes_one(p, s));
        assert(Seq::<u8>::empty() + pixel_bytes_one(p, s) =~= pixel_bytes_one(p, s));
    } else {
        lemma_pixel_bytes_push(ps.skip(1), p, s);
        assert(ps.push(p)[0] == ps[0]);
        assert(ps.push(p).skip(1) =~= ps.skip(1).push(p));
        assert(pixel_bytes(ps.push(p), s) == pixel_bytes_one(ps[0], s) + pixel_bytes(
            ps.skip(1).push(p),
            s,
        ));
        assert((pixel_bytes_one(ps[0], s) + pixel_bytes(ps.skip(1), s)) + pixel_bytes_one(p, s)
            =~= pixel_bytes_one(ps[0], s) + (pixel_bytes(ps.skip(1), s) + pixel_bytes_one(p, s)));
    }
}

/// A pixel sequence stores exactly `stride` bytes per pixel.
pub proof fn lemma_pixel_bytes_len(ps: Seq<Pixel>, s: int)
    requires
        s == 3 || s == 4,
    ensures
        pixel_bytes(ps, s).len() == ps.len() * s,
    decreases ps.len(),
{
    if ps.len() > 0 {
        lemma_pixel_bytes_len(ps.skip(1), s);
    }
}

/// Concatenating pixel sequences concatenates their bytes.
pub proof fn lemma_pixel_bytes_concat(a: Seq<Pixel>, b: Seq<Pixel>, s: int)
    ensures
        pixel_bytes(a + b, s) == pixel_bytes(a, s) + pixel_bytes(b, s),
    decreases b.len(),
{
    if b.len() == 0 {
        assert(a + b =~= a);
        assert(pixel_bytes(b, s) == Seq::<u8>::empty());
        assert(pixel_bytes(a, s) + Seq::<u8>::empty() =~= pixel_bytes(a, s));
    } else {
        let front = b.drop_last();
        let last = b.last();
        lemma_pixel_bytes_concat(a, front, s);
        assert(front.push(last) =~= b);
        assert((a + front).push(last) =~= a + b);
        lemma_pixel_bytes_push(a + front, last, s);
        lemma_pixel_bytes_push(front, last, s);
        assert((pixel_bytes(a, s) + pixel_bytes(front, s)) + pixel_bytes_one(last, s)
            =~= pixel_bytes(a, s) + (pixel_bytes(front, s) + pixel_bytes_one(last, s)));
    }
}

} // verus!
