use crate::pixel::{
    hash_of, lemma_hash_bound, lemma_mod256_shift, lemma_mod256_small, lemma_wrap8_absorb,
    lemma_wrap8_add256, lemma_wrap8_byte, wrap8, wsub, Pixel,
};
use crate::my_image::{DecodeErrorKind, ImageDecodeError};
use crate::qoi_spec::{
    bias, be32, bytes_to_pixels, end_marker, init_cache, init_prev, lemma_pixel_bytes_push,
    img_pixels, lemma_run_ext_char, lemma_run_ext_props, luma_ok, magic, pixel_bytes,
    pixel_bytes_one, pixel_of_bytes, read_be32, small_diff_ok, spec_decode,
    spec_decode_op, spec_decode_pixels, spec_encode, spec_encode_op, spec_encode_pixels,
    spec_header, spec_run_len, DecodedImage, OpStep,
};
use vstd::arithmetic::div_mod::lemma_fundamental_div_mod_converse;
use vstd::prelude::*;

verus! {

/// A biased small-diff field lies in [0, 4) and differs from its wrapped
/// difference by 2, up to one turn of the wheel.
proof fn lemma_bias2(w: u8)
    requires
        w < 2 || w >= 254,
    ensures
        0 <= bias(w, 2) < 4,
        bias(w, 2) - 2 == w || bias(w, 2) - 2 == w - 256,
{
    if w < 2 {
        lemma_mod256_small(w + 2);
    } else {
        lemma_mod256_shift(w + 2);
    }
}

/// The wrapped sum recovers the original byte once the wrapped difference is
/// folded back in, even if the field shed one turn of 256.
proof fn lemma_recover(x: u8, y: u8, d: int)
    requires
        d == wsub(x, y) || d == wsub(x, y) - 256,
    ensures
        wrap8(y + d) == x,
{
    if d == wsub(x, y) - 256 {
        lemma_wrap8_add256(y + d);
    }
    lemma_wrap8_absorb(0, x, y);
    lemma_wrap8_byte(x);
}

/// Decoding the one-byte small-diff opcode the encoder chose gives back the
/// encoded pixel.
proof fn lemma_dec_enc_small(bs: Seq<u8>, i: int, p: Pixel, cache: Seq<Pixel>, prev: Pixel)
    requires
        cache.len() == 64,
        cache[hash_of(p)] != p,
        small_diff_ok(p, prev),
        0 <= i < bs.len(),
        bs[i] == spec_encode_op(p, cache, prev)[0],
    ensures
        spec_decode_op(bs, i, cache, prev) == (OpStep::Op { px: p, more: 0, consumed: 1 }),
{
    let wr = wsub(p.r, prev.r);
    let wg = wsub(p.g, prev.g);
    let wb = wsub(p.b, prev.b);
    let br = bias(wr, 2);
    let bg = bias(wg, 2);
    let bb = bias(wb, 2);
    lemma_bias2(wr);
    lemma_bias2(wg);
    lemma_bias2(wb);
    let v = 64 + br * 16 + bg * 4 + bb;
    assert(spec_encode_op(p, cache, prev) == seq![v as u8]);
    assert(bs[i] as int == v);
    lemma_fundamental_div_mod_converse(v, 16, 4 + br, bg * 4 + bb);
    lemma_fundamental_div_mod_converse(4 + br, 4, 1, br);
    lemma_fundamental_div_mod_converse(v, 4, 16 + br * 4 + bg, bb);
    lemma_fundamental_div_mod_converse(16 + br * 4 + bg, 4, 4 + br, bg);
    assert((v / 16) % 4 == br);
    assert((v / 4) % 4 == bg);
    assert(v % 4 == bb);
    lemma_recover(p.r, prev.r, br - 2);
    lemma_recover(p.g, prev.g, bg - 2);
    lemma_recover(p.b, prev.b, bb - 2);
    assert(spec_decode_op(bs, i, cache, prev) == (OpStep::Op {
        px: Pixel {
            r: wrap8(prev.r + (v / 16) % 4 - 2),
            g: wrap8(prev.g + (v / 4) % 4 - 2),
            b: wrap8(prev.b + v % 4 - 2),
            a: prev.a,
        },
        more: 0,
        consumed: 1,
    }));
    assert((Pixel {
        r: wrap8(prev.r + (v / 16) % 4 - 2),
        g: wrap8(prev.g + (v / 4) % 4 - 2),
        b: wrap8(prev.b + v % 4 - 2),
        a: prev.a,
    }) =~= p);
}

/// A biased luma field lies in its field width and differs from its wrapped
/// difference by the bias, up to one turn of the wheel.
proof fn lemma_bias_luma(w: u8, k: int)
    requires
        k == 32 && (w < 32 || w >= 224) || k == 8 && (w < 8 || w >= 248),
    ensures
        0 <= bias(w, k) < 2 * k,
        bias(w, k) - k == w || bias(w, k) - k == w - 256,
{
    if w + k < 256 {
        lemma_mod256_small(w + k);
    } else {
        lemma_mod256_shift(w + k);
    }
}

/// Decoding the two-byte luma opcode the encoder chose gives back the
/// encoded pixel.
proof fn lemma_dec_enc_luma(bs: Seq<u8>, i: int, p: Pixel, cache: Seq<Pixel>, prev: Pixel)
    requires
        cache.len() == 64,
        cache[hash_of(p)] != p,
        !small_diff_ok(p, prev),
        luma_ok(p, prev),
        0 <= i,
        i + 2 <= bs.len(),
        bs[i] == spec_encode_op(p, cache, prev)[0],
        bs[i + 1] == spec_encode_op(p, cache, prev)[1],
    ensures
        spec_decode_op(bs, i, cache, prev) == (OpStep::Op { px: p, more: 0, consumed: 2 }),
{
    let wr = wsub(p.r, prev.r);
    let wg = wsub(p.g, prev.g);
    let wb = wsub(p.b, prev.b);
    let wrg = wsub(wr, wg);
    let wbg = wsub(wb, wg);
    let t = bias(wg, 32);
    let f1 = bias(wrg, 8);
    let f2 = bias(wbg, 8);
    lemma_bias_luma(wg, 32);
    lemma_bias_luma(wrg, 8);
    lemma_bias_luma(wbg, 8);
    let v1 = 128 + t;
    let v2 = f1 * 16 + f2;
    assert(spec_encode_op(p, cache, prev) == seq![v1 as u8, v2 as u8]);
    assert(bs[i] as int == v1);
    assert(bs[i + 1] as int == v2);
    lemma_fundamental_div_mod_converse(v1, 64, 2, t);
    lemma_fundamental_div_mod_converse(v2, 16, f1, f2);
    assert(v1 % 64 == t);
    assert(v2 / 16 == f1);
    assert(v2 % 16 == f2);
    // green: prev.g + (t - 32), and t - 32 is wg up to one turn.
    if t - 32 == wg - 256 {
        lemma_wrap8_add256(prev.g + (t - 32));
    }
    lemma_recover(p.g, prev.g, wg as int);
    assert(wrap8(prev.g + (t - 32)) == p.g);
    // red: prev.r + (t - 32) + (f1 - 8) collapses to prev.r + wg + wrg
    // up to turns of 256, and wrg folds back into wr.
    if t - 32 == wg - 256 {
        lemma_wrap8_add256(prev.r + (t - 32) + (f1 - 8));
        lemma_wrap8_add256(prev.b + (t - 32) + (f2 - 8));
    }
    if f1 - 8 == wrg - 256 {
        lemma_wrap8_add256(prev.r + wg + (wrg - 256));
    }
    if f2 - 8 == wbg - 256 {
        lemma_wrap8_add256(prev.b + wg + (wbg - 256));
    }
    assert(wrap8(prev.r + (t - 32) + (f1 - 8)) == wrap8(prev.r + wg + wrg));
    assert(wrap8(prev.b + (t - 32) + (f2 - 8)) == wrap8(prev.b + wg + wbg));
    lemma_wrap8_absorb(prev.r as int, wr, wg);
    lemma_wrap8_absorb(prev.b as int, wb, wg);
    assert(wrap8(prev.r + wg + wrg) == wrap8(prev.r + wr));
    assert(wrap8(prev.b + wg + wbg) == wrap8(prev.b + wb));
    lemma_recover(p.r, prev.r, wr as int);
    lemma_recover(p.b, prev.b, wb as int);
    assert(128 <= v1 < 192);
    assert(spec_decode_op(bs, i, cache, prev) == (OpStep::Op {
        px: Pixel {
            r: wrap8(prev.r + (v1 % 64 - 32) + (v2 / 16 - 8)),
            g: wrap8(prev.g + (v1 % 64 - 32)),
            b: wrap8(prev.b + (v1 % 64 - 32) + (v2 % 16 - 8)),
            a: prev.a,
        },
        more: 0,
        consumed: 2,
    }));
    assert((Pixel {
        r: wrap8(prev.r + (v1 % 64 - 32) + (v2 / 16 - 8)),
        g: wrap8(prev.g + (v1 % 64 - 32)),
        b: wrap8(prev.b + (v1 % 64 - 32) + (v2 % 16 - 8)),
        a: prev.a,
    }) =~= p);
}

/// Decoding the bytes the encoder emits for one pixel that does not extend a
/// run yields exactly that pixel, once, consuming the whole chunk.
pub proof fn lemma_decode_encode_op(bs: Seq<u8>, i: int, p: Pixel, cache: Seq<Pixel>, prev: Pixel)
    requires
        cache.len() == 64,
        p != prev,
        0 <= i,
        i + spec_encode_op(p, cache, prev).len() <= bs.len(),
        bs.subrange(i, i + spec_encode_op(p, cache, prev).len() as int) == spec_encode_op(
            p,
            cache,
            prev,
        ),
    ensures
        spec_decode_op(bs, i, cache, prev) == (OpStep::Op {
            px: p,
            more: 0,
            consumed: spec_encode_op(p, cache, prev).len(),
        }),
{
    let enc = spec_encode_op(p, cache, prev);
    assert forall|j: int| 0 <= j < enc.len() implies bs[i + j] == enc[j] by {
        assert(bs.subrange(i, i + enc.len() as int)[j] == bs[i + j]);
    }
    lemma_hash_bound(p);
    if cache[hash_of(p)] == p {
        assert(enc == seq![hash_of(p) as u8]);
        assert(bs[i + 0] == enc[0]);
        assert(bs[i] as int == hash_of(p));
        assert(spec_decode_op(bs, i, cache, prev) == (OpStep::Op {
            px: cache[hash_of(p)],
            more: 0,
            consumed: 1,
        }));
    } else if small_diff_ok(p, prev) {
        assert(bs[i + 0] == enc[0]);
        lemma_dec_enc_small(bs, i, p, cache, prev);
    } else if luma_ok(p, prev) {
        assert(bs[i + 0] == enc[0]);
        assert(bs[i + 1] == enc[1]);
        lemma_dec_enc_luma(bs, i, p, cache, prev);
    } else if p.a == prev.a {
        assert(enc == seq![254u8, p.r, p.g, p.b]);
        assert(bs[i + 0] == enc[0]);
        assert(bs[i + 1] == enc[1]);
        assert(bs[i + 2] == enc[2]);
        assert(bs[i + 3] == enc[3]);
        assert((Pixel { r: bs[i + 1], g: bs[i + 2], b: bs[i + 3], a: prev.a }) =~= p);
    } else {
        assert(enc == seq![255u8, p.r, p.g, p.b, p.a]);
        assert(bs[i + 0] == enc[0]);
        assert(bs[i + 1] == enc[1]);
        assert(bs[i + 2] == enc[2]);
        assert(bs[i + 3] == enc[3]);
        assert(bs[i + 4] == enc[4]);
        assert((Pixel { r: bs[i + 1], g: bs[i + 2], b: bs[i + 3], a: bs[i + 4] }) =~= p);
    }
}

/// Splitting a known subrange into its two halves.
proof fn lemma_subrange_split(bs: Seq<u8>, i: int, a: Seq<u8>, b: Seq<u8>)
    requires
        0 <= i,
        i + a.len() + b.len() <= bs.len(),
        bs.subrange(i, i + a.len() + b.len()) == a + b,
    ensures
        bs.subrange(i, i + a.len() as int) == a,
        bs.subrange(i + a.len() as int, i + a.len() + b.len()) == b,
{
    let whole = bs.subrange(i, i + a.len() + b.len());
    assert forall|j: int| 0 <= j < a.len() implies bs.subrange(i, i + a.len() as int)[j]
        == a[j] by {
        assert(whole[j] == bs[i + j]);
        assert(bs.subrange(i, i + a.len() as int)[j] == bs[i + j]);
        assert((a + b)[j] == a[j]);
    }
    assert(bs.subrange(i, i + a.len() as int) =~= a);
    assert forall|j: int| 0 <= j < b.len() implies bs.subrange(
        i + a.len() as int,
        i + a.len() + b.len(),
    )[j] == b[j] by {
        assert(whole[a.len() + j] == bs[i + a.len() + j]);
        assert(bs.subrange(i + a.len() as int, i + a.len() + b.len())[j] == bs[i + a.len() + j]);
        assert((a + b)[a.len() + j] == b[j]);
    }
    assert(bs.subrange(i + a.len() as int, i + a.len() + b.len()) =~= b);
}

/// One decoding step, written out: with the opcode at `i` known, the decode
/// of `remaining` pixels is that opcode's pixels followed by the rest.
proof fn lemma_decode_unfold(
    bs: Seq<u8>,
    i: int,
    remaining: nat,
    cache: Seq<Pixel>,
    prev: Pixel,
    px: Pixel,
    more: nat,
    consumed: nat,
)
    requires
        remaining > 0,
        0 <= i < bs.len(),
        spec_decode_op(bs, i, cache, prev) == (OpStep::Op { px, more, consumed }),
    ensures
        ({
            let taken = 1 + if more <= remaining - 1 {
                more
            } else {
                (remaining - 1) as nat
            };
            spec_decode_pixels(bs, i, remaining, cache, prev) == (match spec_decode_pixels(
                bs,
                i + consumed,
                (remaining - taken) as nat,
                cache.update(hash_of(px), px),
                px,
            ) {
                Ok((ps, end)) => Ok::<(Seq<Pixel>, int), ImageDecodeError>(
                    (Seq::new(taken as nat, |j: int| px) + ps, end),
                ),
                Err(e) => Err(e),
            })
        }),
{
}

/// A run opcode byte decodes to copies of the previous pixel.
proof fn lemma_decode_op_run(bs: Seq<u8>, i: int, cache: Seq<Pixel>, prev: Pixel)
    requires
        0 <= i < bs.len(),
        192 <= bs[i] < 254,
    ensures
        spec_decode_op(bs, i, cache, prev) == (OpStep::Op {
            px: prev,
            more: (bs[i] - 192) as nat,
            consumed: 1,
        }),
{
}

/// Every opcode the encoder emits for one pixel is 1 to 5 bytes long.
proof fn lemma_encode_op_len(p: Pixel, cache: Seq<Pixel>, prev: Pixel)
    ensures
        ({
            let l = spec_encode_op(p, cache, prev).len();
            l == 1 || l == 2 || l == 4 || l == 5
        }),
{
}

/// The facts a run opcode leaves at the head of an encoded pixel sequence.
proof fn lemma_run_setup(bs: Seq<u8>, i: int, ps: Seq<Pixel>, cache: Seq<Pixel>, prev: Pixel)
    requires
        cache.len() == 64,
        0 <= i,
        ps.len() > 0,
        ps[0] == prev,
        i + spec_encode_pixels(ps, cache, prev).len() <= bs.len(),
        bs.subrange(i, i + spec_encode_pixels(ps, cache, prev).len() as int) == spec_encode_pixels(
            ps,
            cache,
            prev,
        ),
    ensures
        ({
            let rl = spec_run_len(ps, prev) as int;
            let rest = spec_encode_pixels(
                ps.skip(rl),
                cache.update(hash_of(prev), prev),
                prev,
            );
            &&& 1 <= rl <= 62
            &&& rl <= ps.len()
            &&& forall|q: int| 0 <= q < rl ==> ps[q] == prev
            &&& spec_encode_pixels(ps, cache, prev).len() == 1 + rest.len()
            &&& i + 1 + rest.len() <= bs.len()
            &&& bs.subrange(i + 1, i + 1 + rest.len() as int) == rest
            &&& spec_decode_op(bs, i, cache, prev) == (OpStep::Op {
                px: prev,
                more: (rl - 1) as nat,
                consumed: 1,
            })
        }),
{
    let rl = spec_run_len(ps, prev) as int;
    lemma_run_ext_props(ps, prev, 62);
    let rest = spec_encode_pixels(ps.skip(rl), cache.update(hash_of(prev), prev), prev);
    let b0 = seq![(192 + rl - 1) as u8];
    assert(spec_encode_pixels(ps, cache, prev) == b0 + rest);
    lemma_subrange_split(bs, i, b0, rest);
    assert(bs.subrange(i, i + 1)[0] == bs[i]);
    assert(bs[i] as int == 192 + rl - 1);
    lemma_decode_op_run(bs, i, cache, prev);
}

/// Closing a run step: the run's copies followed by the rest are the whole
/// sequence.
proof fn lemma_run_finish(
    bs: Seq<u8>,
    i: int,
    ps: Seq<Pixel>,
    cache: Seq<Pixel>,
    prev: Pixel,
    end: int,
)
    requires
        ps.len() > 0,
        0 <= i < bs.len(),
        ({
            let rl = spec_run_len(ps, prev) as int;
            &&& 1 <= rl <= ps.len()
            &&& forall|q: int| 0 <= q < rl ==> ps[q] == prev
            &&& spec_decode_op(bs, i, cache, prev) == (OpStep::Op {
                px: prev,
                more: (rl - 1) as nat,
                consumed: 1,
            })
            &&& spec_decode_pixels(
                bs,
                i + 1,
                (ps.len() - rl) as nat,
                cache.update(hash_of(prev), prev),
                prev,
            ) == Ok::<(Seq<Pixel>, int), ImageDecodeError>((ps.skip(rl), end))
        }),
    ensures
        spec_decode_pixels(bs, i, ps.len(), cache, prev) == Ok::<(Seq<Pixel>, int),
            ImageDecodeError,
        >((ps, end)),
{
    let rl = spec_run_len(ps, prev) as int;
    lemma_decode_unfold(bs, i, ps.len() as nat, cache, prev, prev, (rl - 1) as nat, 1);
    assert(Seq::new(rl as nat, |q: int| prev) + ps.skip(rl) =~= ps);
}

/// The facts one non-run opcode leaves at the head of an encoded sequence.
proof fn lemma_op_setup(bs: Seq<u8>, i: int, ps: Seq<Pixel>, cache: Seq<Pixel>, prev: Pixel)
    requires
        cache.len() == 64,
        0 <= i,
        ps.len() > 0,
        ps[0] != prev,
        i + spec_encode_pixels(ps, cache, prev).len() <= bs.len(),
        bs.subrange(i, i + spec_encode_pixels(ps, cache, prev).len() as int) == spec_encode_pixels(
            ps,
            cache,
            prev,
        ),
    ensures
        ({
            let chunk = spec_encode_op(ps[0], cache, prev);
            let rest = spec_encode_pixels(
                ps.skip(1),
                cache.update(hash_of(ps[0]), ps[0]),
                ps[0],
            );
            &&& 1 <= chunk.len() <= 5
            &&& spec_encode_pixels(ps, cache, prev).len() == chunk.len() + rest.len()
            &&& i + chunk.len() + rest.len() <= bs.len()
            &&& bs.subrange(
                i + chunk.len(),
                i + chunk.len() + rest.len(),
            ) == rest
            &&& spec_decode_op(bs, i, cache, prev) == (OpStep::Op {
                px: ps[0],
                more: 0,
                consumed: chunk.len(),
            })
        }),
{
    let p = ps[0];
    let chunk = spec_encode_op(p, cache, prev);
    let rest = spec_encode_pixels(ps.skip(1), cache.update(hash_of(p), p), p);
    assert(spec_encode_pixels(ps, cache, prev) == chunk + rest);
    lemma_encode_op_len(p, cache, prev);
    lemma_subrange_split(bs, i, chunk, rest);
    lemma_decode_encode_op(bs, i, p, cache, prev);
}

/// Closing a non-run step: the one pixel followed by the rest is the whole
/// sequence.
proof fn lemma_op_finish(
    bs: Seq<u8>,
    i: int,
    ps: Seq<Pixel>,
    cache: Seq<Pixel>,
    prev: Pixel,
    consumed: nat,
    end: int,
)
    requires
        ps.len() > 0,
        0 <= i < bs.len(),
        spec_decode_op(bs, i, cache, prev) == (OpStep::Op { px: ps[0], more: 0, consumed }),
        spec_decode_pixels(
            bs,
            i + consumed,
            (ps.len() - 1) as nat,
            cache.update(hash_of(ps[0]), ps[0]),
            ps[0],
        ) == Ok::<(Seq<Pixel>, int), ImageDecodeError>((ps.skip(1), end)),
    ensures
        spec_decode_pixels(bs, i, ps.len(), cache, prev) == Ok::<(Seq<Pixel>, int),
            ImageDecodeError,
        >((ps, end)),
{
    lemma_decode_unfold(bs, i, ps.len() as nat, cache, prev, ps[0], 0, consumed);
    assert(Seq::new(1, |q: int| ps[0]) + ps.skip(1) =~= ps);
}

/// Decoding, from matching cache and previous-pixel state, the bytes the
/// encoder emits for a pixel sequence yields exactly that sequence and stops
/// right after its last opcode.
pub proof fn lemma_decode_encode_pixels(
    bs: Seq<u8>,
    i: int,
    ps: Seq<Pixel>,
    cache: Seq<Pixel>,
    prev: Pixel,
)
    requires
        cache.len() == 64,
        0 <= i,
        i + spec_encode_pixels(ps, cache, prev).len() <= bs.len(),
        bs.subrange(i, i + spec_encode_pixels(ps, cache, prev).len() as int) == spec_encode_pixels(
            ps,
            cache,
            prev,
        ),
    ensures
        spec_decode_pixels(bs, i, ps.len(), cache, prev) == Ok::<(Seq<Pixel>, int),
            ImageDecodeError,
        >((ps, i + spec_encode_pixels(ps, cache, prev).len())),
    decreases ps.len(),
{
    if ps.len() == 0 {
        assert(Seq::<Pixel>::empty() =~= ps);
    } else if ps[0] == prev {
        lemma_run_setup(bs, i, ps, cache, prev);
        let rl = spec_run_len(ps, prev) as int;
        let cache2 = cache.update(hash_of(prev), prev);
        let rest = spec_encode_pixels(ps.skip(rl), cache2, prev);
        lemma_decode_encode_pixels(bs, i + 1, ps.skip(rl), cache2, prev);
        lemma_run_finish(bs, i, ps, cache, prev, i + 1 + rest.len());
    } else {
        lemma_op_setup(bs, i, ps, cache, prev);
        let p = ps[0];
        let cache2 = cache.update(hash_of(p), p);
        let chunk = spec_encode_op(p, cache, prev);
        let rest = spec_encode_pixels(ps.skip(1), cache2, p);
        lemma_decode_encode_pixels(bs, i + chunk.len(), ps.skip(1), cache2, p);
        lemma_op_finish(bs, i, ps, cache, prev, chunk.len(), i + chunk.len() + rest.len());
    }
}

/// Reading four big-endian bytes back gives the encoded value.
proof fn lemma_be32_fields(v: u32)
    ensures
        ((v as int / 0x1000000) % 256) * 0x1000000 + ((v as int / 0x10000) % 256) * 0x10000 + ((
        v as int / 0x100) % 256) * 0x100 + (v as int % 256) == v as int,
{
    assert(((v / 0x1000000) % 256) * 0x1000000 + ((v / 0x10000) % 256) * 0x10000 + ((v / 0x100)
        % 256) * 0x100 + (v % 256) == v) by (bit_vector);
}

/// Round trip: decoding what the encoder produced gives back the header
/// fields and every pixel.
#[verifier::rlimit(100)]
pub proof fn lemma_round_trip(w: int, h: int, ch: int, cs: u8, ps: Seq<Pixel>)
    requires
        0 < w <= 0xFFFFFFFF,
        0 < h <= 0xFFFFFFFF,
        ch == 3 || ch == 4,
        ps.len() == w * h,
    ensures
        spec_decode(spec_encode(w, h, ch, cs, ps)) == Ok::<DecodedImage, ImageDecodeError>(
            DecodedImage { width: w, height: h, channels: ch, pixels: ps },
        ),
{
    let hdr = spec_header(w, h, ch, cs);
    let mid = spec_encode_pixels(ps, init_cache(), init_prev());
    let bs = spec_encode(w, h, ch, cs, ps);
    assert(hdr.len() == 14);
    assert(bs.len() == 14 + mid.len() + 8);
    assert(bs =~= hdr + (mid + end_marker()));
    assert(bs.subrange(0, bs.len() as int) =~= bs);
    lemma_subrange_split(bs, 0, hdr, mid + end_marker());
    assert forall|j: int| 0 <= j < 14 implies bs[j] == hdr[j] by {
        assert(bs.subrange(0, 14)[j] == bs[j]);
    }
    assert(hdr[0] == magic()[0] && hdr[1] == magic()[1] && hdr[2] == magic()[2] && hdr[3]
        == magic()[3]);
    assert(bs.subrange(0, 4) =~= magic());
    assert(hdr[4] == be32(w)[0] && hdr[5] == be32(w)[1] && hdr[6] == be32(w)[2] && hdr[7] == be32(
        w,
    )[3]);
    assert(hdr[8] == be32(h)[0] && hdr[9] == be32(h)[1] && hdr[10] == be32(h)[2] && hdr[11]
        == be32(h)[3]);
    lemma_be32_fields(w as u32);
    lemma_be32_fields(h as u32);
    assert(read_be32(bs, 4) == w);
    assert(read_be32(bs, 8) == h);
    assert(hdr[12] == ch as u8);
    assert(bs[12] as int == ch);
    lemma_subrange_split(bs, 14, mid, end_marker());
    lemma_decode_encode_pixels(bs, 14, ps, init_cache(), init_prev());
    assert((w * h) as nat == ps.len());
    assert(spec_decode_pixels(bs, 14, (w * h) as nat, init_cache(), init_prev()) == Ok::<
        (Seq<Pixel>, int),
        ImageDecodeError,
    >((ps, 14 + mid.len() as int)));
    let end = 14 + mid.len() as int;
    assert(bs.subrange(end, end + 8) == end_marker());
    assert(!(end + 8 > bs.len()));
}

/// Reading pixels out of a raw buffer and writing them back yields the
/// original bytes; a three-channel buffer's implicit alpha is dropped again.
pub proof fn lemma_pixel_bytes_of_buffer(bs: Seq<u8>, s: int, n: int)
    requires
        s == 3 || s == 4,
        0 <= n,
        n * s <= bs.len(),
    ensures
        pixel_bytes(bytes_to_pixels(bs, s, n), s) == bs.subrange(0, n * s),
    decreases n,
{
    if n == 0 {
        assert(bytes_to_pixels(bs, s, 0) =~= Seq::<Pixel>::empty());
        assert(bs.subrange(0, 0) =~= Seq::<u8>::empty());
    } else {
        assert((n - 1) * s + s == n * s) by (nonlinear_arith);
        assert(0 <= (n - 1) * s) by (nonlinear_arith)
            requires
                1 <= n,
                0 < s,
        ;
        lemma_pixel_bytes_of_buffer(bs, s, n - 1);
        let front = bytes_to_pixels(bs, s, n - 1);
        let last = pixel_of_bytes(bs, s, n - 1);
        assert(bytes_to_pixels(bs, s, n) =~= front.push(last));
        lemma_pixel_bytes_push(front, last, s);
        assert(pixel_bytes(front, s) + pixel_bytes_one(last, s) =~= bs.subrange(0, n * s));
    }
}

/// Round trip at the image level: a well-formed image decodes back from its
/// own encoding with the same dimensions, channel count, and stored bytes.
pub proof fn lemma_round_trip_image(img: &crate::my_image::Image, cs: u8)
    requires
        img.wf(),
        img.width <= 0xFFFFFFFF,
        img.height <= 0xFFFFFFFF,
    ensures
        ({
            let r = spec_decode(
                spec_encode(
                    img.width as int,
                    img.height as int,
                    img.stride as int,
                    cs,
                    img_pixels(img),
                ),
            );
            &&& r is Ok
            &&& r->Ok_0.width == img.width
            &&& r->Ok_0.height == img.height
            &&& r->Ok_0.channels == img.stride
            &&& pixel_bytes(r->Ok_0.pixels, img.stride as int) == img.pixels@
        }),
{
    lemma_round_trip(
        img.width as int,
        img.height as int,
        img.stride as int,
        cs,
        img_pixels(img),
    );
    lemma_pixel_bytes_of_buffer(
        img.pixels@,
        img.stride as int,
        (img.width * img.height) as int,
    );
    assert(img.pixels@.subrange(0, (img.width * img.height) as int * img.stride) =~= img.pixels@);
}

/// A stream whose first four bytes are not the magic is rejected as
/// InvalidMagic at offset 0, whatever its length and remaining content.
pub proof fn lemma_invalid_magic(bs: Seq<u8>)
    requires
        bs.len() < 4 || bs.subrange(0, 4) != magic(),
    ensures
        spec_decode(bs) == Err::<DecodedImage, ImageDecodeError>(
            ImageDecodeError { position: 0, kind: DecodeErrorKind::InvalidMagic },
        ),
{
}

/// A run of exactly 62 pixels equal to the previous one is a single run
/// opcode with length field 61 (byte 0xfd); 63 such pixels take two run
/// opcodes, one of 62 and one of 1 (byte 0xc0).
pub proof fn lemma_run_boundary(p: Pixel, cache: Seq<Pixel>, n: nat)
    requires
        cache.len() == 64,
        n == 62 || n == 63,
    ensures
        n == 62 ==> spec_encode_pixels(Seq::new(n, |q: int| p), cache, p) == seq![0xfdu8],
        n == 63 ==> spec_encode_pixels(Seq::new(n, |q: int| p), cache, p) == seq![0xfdu8, 0xc0u8],
{
    let ps = Seq::new(n, |q: int| p);
    assert(ps[0] == p);
    lemma_run_ext_char(ps, p, 62, 62);
    assert(spec_run_len(ps, p) == 62);
    let cache2 = cache.update(hash_of(p), p);
    let tail = ps.skip(62);
    if n == 62 {
        assert(tail =~= Seq::<Pixel>::empty());
        assert(spec_encode_pixels(tail, cache2, p) == Seq::<u8>::empty());
        assert(seq![(192 + 62 - 1) as u8] + Seq::<u8>::empty() =~= seq![0xfdu8]);
    } else {
        assert(tail.len() == 1 && tail[0] == p);
        lemma_run_ext_char(tail, p, 62, 1);
        assert(spec_run_len(tail, p) == 1);
        let cache3 = cache2.update(hash_of(p), p);
        assert(tail.skip(1) =~= Seq::<Pixel>::empty());
        assert(spec_encode_pixels(tail.skip(1), cache3, p) == Seq::<u8>::empty());
        assert(spec_encode_pixels(tail, cache2, p) == seq![(192 + 1 - 1) as u8]
            + spec_encode_pixels(tail.skip(1), cache3, p));
        assert(seq![(192 + 62 - 1) as u8] + (seq![(192 + 1 - 1) as u8] + Seq::<u8>::empty())
            =~= seq![0xfdu8, 0xc0u8]);
    }
}

/// A pixel within the small-diff window of its predecessor (alpha unchanged,
/// every channel within [-2, 1] modulo 256) that does not extend a run and
/// misses the cache is encoded as the one-byte small-diff opcode, never as a
/// literal.
pub proof fn lemma_small_diff_opcode(p: Pixel, cache: Seq<Pixel>, prev: Pixel)
    requires
        cache.len() == 64,
        cache[hash_of(p)] != p,
        small_diff_ok(p, prev),
    ensures
        spec_encode_op(p, cache, prev).len() == 1,
        spec_encode_op(p, cache, prev) == seq![
            (64 + bias(wsub(p.r, prev.r), 2) * 16 + bias(wsub(p.g, prev.g), 2) * 4 + bias(
                wsub(p.b, prev.b),
                2,
            )) as u8,
        ],
{
}

} // verus!
