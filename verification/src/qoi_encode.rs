use crate::my_image::{lemma_pixel_index_bound, Image};
use crate::pixel::{byte_sub, hash_of, pixel_hash, Pixel};
use crate::qoi_spec::{
    bias, img_pixels, init_cache, init_prev, lemma_run_ext_char, spec_encode, spec_encode_op,
    spec_encode_pixels, spec_header, spec_run_len,
};
use vstd::prelude::*;

verus! {

/// Pixel number `k` of a well-formed image, as an RGBA value.
pub fn px_at(img: &Image, k: usize) -> (p: Pixel)
    requires
        img.wf(),
        k < img.width * img.height,
    ensures
        p == img_pixels(img)[k as int],
{
    let n = img.pixels.len();
    proof {
        lemma_pixel_index_bound(
            (img.width * img.height) as int,
            1,
            img.stride as int,
            k as int,
            0,
        );
    }
    let idx = k * img.stride;
    let r = img.pixels[idx];
    let g = img.pixels[idx + 1];
    let b = img.pixels[idx + 2];
    let a = if img.stride == 4 {
        img.pixels[idx + 3]
    } else {
        255
    };
    Pixel { r, g, b, a }
}

/// Append the four big-endian bytes of `v`.
fn push_be32(out: &mut Vec<u8>, v: u32)
    ensures
        final(out)@ == old(out)@ + crate::qoi_spec::be32(v as int),
{
    out.push((v / 0x1000000) as u8);
    out.push(((v / 0x10000) % 256) as u8);
    out.push(((v / 0x100) % 256) as u8);
    out.push((v % 256) as u8);
    proof {
        assert(v / 0x1000000 < 256) by (nonlinear_arith);
        assert(v as int / 0x1000000 % 256 == v as int / 0x1000000);
        assert(final(out)@ =~= old(out)@ + crate::qoi_spec::be32(v as int));
    }
}

/// Append the opcode for one pixel that does not extend a run, choosing the
/// first applicable rule: cache hit, small diff, luma diff, literal.
fn push_op(out: &mut Vec<u8>, p: Pixel, cache: &Vec<Pixel>, prev: Pixel)
    requires
        cache@.len() == 64,
    ensures
        final(out)@ == old(out)@ + spec_encode_op(p, cache@, prev),
{
    proof {
        crate::pixel::lemma_hash_bound(p);
    }
    let h = pixel_hash(&p);
    let ch = cache[h];
    if ch.r == p.r && ch.g == p.g && ch.b == p.b && ch.a == p.a {
        proof {
            assert(cache@[hash_of(p)] == p);
            assert(spec_encode_op(p, cache@, prev) == seq![hash_of(p) as u8]);
        }
        out.push(h as u8);
        proof {
            assert(out@ =~= old(out)@ + spec_encode_op(p, cache@, prev));
        }
    } else {
        proof {
            assert(cache@[hash_of(p)] != p);
        }
        push_op_miss(out, p, cache, prev);
    }
}

/// The non-cache-hit opcodes: small diff, luma diff, or a literal.
fn push_op_miss(out: &mut Vec<u8>, p: Pixel, cache: &Vec<Pixel>, prev: Pixel)
    requires
        cache@.len() == 64,
        cache@[hash_of(p)] != p,
    ensures
        final(out)@ == old(out)@ + spec_encode_op(p, cache@, prev),
{
    let dr = byte_sub(p.r, prev.r);
    let dg = byte_sub(p.g, prev.g);
    let db = byte_sub(p.b, prev.b);
    let drg = byte_sub(dr, dg);
    let dbg = byte_sub(db, dg);
    let alpha_same = p.a == prev.a;
    let small = alpha_same && (dr < 2 || dr >= 254) && (dg < 2 || dg >= 254) && (db < 2 || db
        >= 254);
    let luma = alpha_same && (dg < 32 || dg >= 224) && (drg < 8 || drg >= 248) && (dbg < 8 || dbg
        >= 248);
    proof {
        assert(small == crate::qoi_spec::small_diff_ok(p, prev));
        assert(luma == crate::qoi_spec::luma_ok(p, prev));
    }
    if small {
        push_op_small(out, p, cache, prev);
    } else if luma {
        push_op_luma(out, p, cache, prev);
    } else {
        push_op_literal(out, p, cache, prev);
    }
}

/// The one-byte small-diff opcode.
fn push_op_small(out: &mut Vec<u8>, p: Pixel, cache: &Vec<Pixel>, prev: Pixel)
    requires
        cache@.len() == 64,
        cache@[hash_of(p)] != p,
        crate::qoi_spec::small_diff_ok(p, prev),
    ensures
        final(out)@ == old(out)@ + spec_encode_op(p, cache@, prev),
{
    let dr = byte_sub(p.r, prev.r);
    let dg = byte_sub(p.g, prev.g);
    let db = byte_sub(p.b, prev.b);
    let fr = ((dr as u16 + 2) % 256) as u8;
    let fg = ((dg as u16 + 2) % 256) as u8;
    let fb = ((db as u16 + 2) % 256) as u8;
    assert(fr == bias(dr, 2) && fr <= 3);
    assert(fg == bias(dg, 2) && fg <= 3);
    assert(fb == bias(db, 2) && fb <= 3);
    let byte = 64 + fr * 16 + fg * 4 + fb;
    out.push(byte);
    proof {
        assert(spec_encode_op(p, cache@, prev) == seq![
            (64 + bias(dr, 2) * 16 + bias(dg, 2) * 4 + bias(db, 2)) as u8,
        ]);
        assert(out@ =~= old(out)@ + spec_encode_op(p, cache@, prev));
    }
}

/// The bytes of the luma opcode, written out.
proof fn lemma_luma_bytes(p: Pixel, cache: Seq<Pixel>, prev: Pixel)
    requires
        cache.len() == 64,
        cache[hash_of(p)] != p,
        !crate::qoi_spec::small_diff_ok(p, prev),
        crate::qoi_spec::luma_ok(p, prev),
    ensures
        spec_encode_op(p, cache, prev) == seq![
            (128 + bias(crate::pixel::wsub(p.g, prev.g), 32)) as u8,
            (bias(
                crate::pixel::wsub(crate::pixel::wsub(p.r, prev.r), crate::pixel::wsub(p.g, prev.g)),
                8,
            ) * 16 + bias(
                crate::pixel::wsub(crate::pixel::wsub(p.b, prev.b), crate::pixel::wsub(p.g, prev.g)),
                8,
            )) as u8,
        ],
{
}

/// The two-byte luma-diff opcode.
#[verifier::rlimit(100)]
fn push_op_luma(out: &mut Vec<u8>, p: Pixel, cache: &Vec<Pixel>, prev: Pixel)
    requires
        cache@.len() == 64,
        cache@[hash_of(p)] != p,
        !crate::qoi_spec::small_diff_ok(p, prev),
        crate::qoi_spec::luma_ok(p, prev),
    ensures
        final(out)@ == old(out)@ + spec_encode_op(p, cache@, prev),
{
    let dr = byte_sub(p.r, prev.r);
    let dg = byte_sub(p.g, prev.g);
    let db = byte_sub(p.b, prev.b);
    let drg = byte_sub(dr, dg);
    let dbg = byte_sub(db, dg);
    let t = ((dg as u16 + 32) % 256) as u8;
    let f1 = ((drg as u16 + 8) % 256) as u8;
    let f2 = ((dbg as u16 + 8) % 256) as u8;
    assert(t == bias(dg, 32) && t <= 63);
    assert(f1 == bias(drg, 8) && f1 <= 15);
    assert(f2 == bias(dbg, 8) && f2 <= 15);
    let b1 = 128 + t;
    let b2 = f1 * 16 + f2;
    proof {
        lemma_luma_bytes(p, cache@, prev);
        assert(spec_encode_op(p, cache@, prev) == seq![b1, b2]);
    }
    out.push(b1);
    out.push(b2);
    proof {
        assert(out@ =~= old(out)@ + spec_encode_op(p, cache@, prev));
    }
}

/// An RGB or RGBA literal opcode.
fn push_op_literal(out: &mut Vec<u8>, p: Pixel, cache: &Vec<Pixel>, prev: Pixel)
    requires
        cache@.len() == 64,
        cache@[hash_of(p)] != p,
        !crate::qoi_spec::small_diff_ok(p, prev),
        !crate::qoi_spec::luma_ok(p, prev),
    ensures
        final(out)@ == old(out)@ + spec_encode_op(p, cache@, prev),
{
    if p.a == prev.a {
        proof {
            assert(spec_encode_op(p, cache@, prev) == seq![254u8, p.r, p.g, p.b]);
        }
        out.push(254);
        out.push(p.r);
        out.push(p.g);
        out.push(p.b);
        proof {
            assert(out@ =~= old(out)@ + spec_encode_op(p, cache@, prev));
        }
    } else {
        proof {
            assert(spec_encode_op(p, cache@, prev) == seq![255u8, p.r, p.g, p.b, p.a]);
        }
        out.push(255);
        out.push(p.r);
        out.push(p.g);
        out.push(p.b);
        out.push(p.a);
        proof {
            assert(out@ =~= old(out)@ + spec_encode_op(p, cache@, prev));
        }
    }
}

impl Image {
    /// Encodes the image as a byte stream of the wire format: 14-byte header,
    /// one opcode stream choosing for every pixel the shortest applicable
    /// rule, and the 8-byte end marker. The colorspace byte is passed through
    /// unchanged. The result is pinned down, byte for byte, by `spec_encode`.
    pub fn encode_qoi(&self, colorspace: u8) -> (out: Vec<u8>)
        requires
            self.wf(),
            self.width <= u32::MAX,
            self.height <= u32::MAX,
        ensures
            out@ == spec_encode(
                self.width as int,
                self.height as int,
                self.stride as int,
                colorspace,
                img_pixels(self),
            ),
    {
        let n_bytes = self.pixels.len();
        proof {
            lemma_pixel_index_bound(
                self.width as int,
                self.height as int,
                self.stride as int,
                0,
                0,
            );
        }
        let n = self.width * self.height;
        let ghost ps = img_pixels(self);
        let ghost hdr = spec_header(
            self.width as int,
            self.height as int,
            self.stride as int,
            colorspace,
        );
        let ghost goal = spec_encode_pixels(ps, init_cache(), init_prev());

        let mut out: Vec<u8> = Vec::new();
        out.push(0x71);
        out.push(0x6f);
        out.push(0x69);
        out.push(0x66);
        push_be32(&mut out, self.width as u32);
        push_be32(&mut out, self.height as u32);
        out.push(self.stride as u8);
        out.push(colorspace);
        proof {
            assert(out@ =~= hdr);
        }

        let mut cache: Vec<Pixel> = Vec::new();
        let mut ci: usize = 0;
        while ci < 64
            invariant
                cache@.len() == ci,
                ci <= 64,
                forall|i: int| 0 <= i < ci ==> cache@[i] == (Pixel { r: 0, g: 0, b: 0, a: 0 }),
            decreases 64 - ci,
        {
            cache.push(Pixel { r: 0, g: 0, b: 0, a: 0 });
            ci = ci + 1;
        }
        proof {
            assert(cache@ =~= init_cache());
        }
        let mut prev = Pixel { r: 0, g: 0, b: 0, a: 255 };
        proof {
            assert(ps.skip(0) =~= ps);
        }

        let mut k: usize = 0;
        while k < n
            invariant
                self.wf(),
                self.width <= u32::MAX,
                self.height <= u32::MAX,
                n == self.width * self.height,
                ps == img_pixels(self),
                ps.len() == n,
                hdr == spec_header(
                    self.width as int,
                    self.height as int,
                    self.stride as int,
                    colorspace,
                ),
                goal == spec_encode_pixels(ps, init_cache(), init_prev()),
                cache@.len() == 64,
                k <= n,
                out@ + spec_encode_pixels(ps.skip(k as int), cache@, prev) == hdr + goal,
            decreases n - k,
        {
            let ghost out0 = out@;
            let ghost cache0 = cache@;
            let ghost tail = ps.skip(k as int);
            let p = px_at(self, k);
            proof {
                assert(tail[0] == ps[k as int]);
                crate::pixel::lemma_hash_bound(p);
            }
            if p == prev {
                // A run: scan ahead, at most 62 pixels in all.
                let mut rl: usize = 1;
                let mut go = true;
                while go && rl < 62 && k + rl < n
                    invariant
                        self.wf(),
                        n == self.width * self.height,
                        ps == img_pixels(self),
                        ps.len() == n,
                        k < n,
                        1 <= rl <= 62,
                        k + rl <= n,
                        p == ps[k as int],
                        forall|i: int| k <= i < k + rl ==> ps[i] == p,
                        !go ==> k + rl < n && ps[k + rl] != p,
                    decreases n - k - rl + if go {
                        1int
                    } else {
                        0int
                    },
                {
                    let q = px_at(self, k + rl);
                    if q.r == p.r && q.g == p.g && q.b == p.b && q.a == p.a {
                        rl = rl + 1;
                    } else {
                        go = false;
                    }
                }
                proof {
                    assert forall|i: int| 0 <= i < rl implies tail[i] == p by {
                        assert(tail[i] == ps[k + i]);
                        assert(ps[k + i] == p);
                    }
                    if rl < 62 && rl < tail.len() {
                        assert(tail[rl as int] == ps[k + rl]);
                    }
                    lemma_run_ext_char(tail, p, 62, rl as nat);
                    assert(spec_run_len(tail, prev) == rl);
                }
                out.push((191 + rl) as u8);
                let h = pixel_hash(&p);
                cache[h] = p;
                k = k + rl;
                proof {
                    assert(cache@ == cache0.update(hash_of(prev), prev));
                    assert(ps.skip(k as int) =~= tail.skip(rl as int));
                    assert(spec_encode_pixels(tail, cache0, prev) == seq![(191 + rl) as u8]
                        + spec_encode_pixels(ps.skip(k as int), cache@, prev));
                    assert(out@ =~= out0 + seq![(191 + rl) as u8]);
                    assert(out@ + spec_encode_pixels(ps.skip(k as int), cache@, prev) =~= out0
                        + spec_encode_pixels(tail, cache0, prev));
                }
            } else {
                let ghost prev0 = prev;
                push_op(&mut out, p, &cache, prev);
                let h = pixel_hash(&p);
                cache[h] = p;
                prev = p;
                k = k + 1;
                proof {
                    assert(cache@ == cache0.update(hash_of(p), p));
                    assert(ps.skip(k as int) =~= tail.skip(1));
                    assert(spec_encode_pixels(tail, cache0, prev0) == spec_encode_op(
                        p,
                        cache0,
                        prev0,
                    ) + spec_encode_pixels(ps.skip(k as int), cache@, prev));
                    assert(out@ + spec_encode_pixels(ps.skip(k as int), cache@, prev) =~= out0
                        + spec_encode_pixels(tail, cache0, prev0));
                }
            }
        }
        proof {
            assert(ps.skip(n as int) =~= Seq::<Pixel>::empty());
            assert(out@ + Seq::<u8>::empty() =~= out@);
        }
        out.push(0);
        out.push(0);
        out.push(0);
        out.push(0);
        out.push(0);
        out.push(0);
        out.push(0);
        out.push(1);
        proof {
            assert(out@ =~= spec_encode(
                self.width as int,
                self.height as int,
                self.stride as int,
                colorspace,
                ps,
            ));
        }
        out
    }
}

} // verus!
