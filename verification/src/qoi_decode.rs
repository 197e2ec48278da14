use crate::my_image::{DecodeErrorKind, Image, ImageDecodeError};
use crate::pixel::{hash_of, pixel_hash, wrap8, Pixel};
use crate::qoi_spec::{
    decode_cont, end_marker, init_cache, init_prev, lemma_decode_cont_assoc,
    lemma_decode_cont_empty, lemma_pixel_bytes_len, lemma_pixel_bytes_push, magic, pixel_bytes,
    pixel_bytes_one, read_be32, spec_decode, spec_decode_op, spec_decode_pixels, DecodedImage,
    OpStep,
};
use vstd::prelude::*;

verus! {

/// `(x + add - sub)` modulo 256, as executable code.
fn wrap_add(x: u8, add: u16, sub: u16) -> (r: u8)
    requires
        sub <= 256,
    ensures
        r == wrap8(x + add - sub),
{
    proof {
        vstd::arithmetic::div_mod::lemma_mod_add_multiples_vanish(x + add - sub, 256);
    }
    (((x as u32) + (add as u32) + 256 - (sub as u32)) % 256) as u8
}

/// The value of the four big-endian bytes at `off`.
fn read_be32_exec(data: &[u8], off: usize) -> (v: u32)
    requires
        off + 4 <= data@.len(),
    ensures
        v == read_be32(data@, off as int),
{
    (data[off] as u32) * 0x1000000 + (data[off + 1] as u32) * 0x10000 + (data[off + 2] as u32)
        * 0x100 + (data[off + 3] as u32)
}

/// Decode the opcode at offset `i`: the pixel it yields, how many extra
/// copies a run asks for, and the bytes consumed; or the offset of an opcode
/// the stream ends inside of.
fn decode_op_exec(data: &[u8], i: usize, cache: &Vec<Pixel>, prev: Pixel) -> (r: Result<
    (Pixel, u8, usize),
    ImageDecodeError,
>)
    requires
        i < data@.len(),
        cache@.len() == 64,
    ensures
        match r {
            Ok(t) => spec_decode_op(data@, i as int, cache@, prev) == (OpStep::Op {
                px: t.0,
                more: t.1 as nat,
                consumed: t.2 as nat,
            }),
            Err(e) => spec_decode_op(data@, i as int, cache@, prev) == (OpStep::Fail {
                pos: i as int,
            }) && e == (ImageDecodeError { position: i, kind: DecodeErrorKind::UnexpectedEof }),
        },
{
    let n = data.len();
    let b = data[i];
    if b == 254 {
        if n - i < 4 {
            return Err(ImageDecodeError { position: i, kind: DecodeErrorKind::UnexpectedEof });
        }
        Ok((Pixel { r: data[i + 1], g: data[i + 2], b: data[i + 3], a: prev.a }, 0, 4))
    } else if b == 255 {
        if n - i < 5 {
            return Err(ImageDecodeError { position: i, kind: DecodeErrorKind::UnexpectedEof });
        }
        Ok((Pixel { r: data[i + 1], g: data[i + 2], b: data[i + 3], a: data[i + 4] }, 0, 5))
    } else if b < 64 {
        Ok((cache[b as usize], 0, 1))
    } else if b < 128 {
        let fr = (b / 16) % 4;
        let fg = (b / 4) % 4;
        let fb = b % 4;
        let px = Pixel {
            r: wrap_add(prev.r, fr as u16, 2),
            g: wrap_add(prev.g, fg as u16, 2),
            b: wrap_add(prev.b, fb as u16, 2),
            a: prev.a,
        };
        Ok((px, 0, 1))
    } else if b < 192 {
        if n - i < 2 {
            return Err(ImageDecodeError { position: i, kind: DecodeErrorKind::UnexpectedEof });
        }
        let t = b % 64;
        let b2 = data[i + 1];
        let hi = b2 / 16;
        let lo = b2 % 16;
        let px = Pixel {
            r: wrap_add(prev.r, t as u16 + hi as u16, 40),
            g: wrap_add(prev.g, t as u16, 32),
            b: wrap_add(prev.b, t as u16 + lo as u16, 40),
            a: prev.a,
        };
        proof {
            assert(prev.r + (t + hi) - 40 == prev.r + ((b as int) % 64 - 32) + ((b2 as int) / 16
                - 8));
            assert(prev.g + t - 32 == prev.g + ((b as int) % 64 - 32));
            assert(prev.b + (t + lo) - 40 == prev.b + ((b as int) % 64 - 32) + ((b2 as int) % 16
                - 8));
        }
        Ok((px, 0, 2))
    } else {
        Ok((prev, b - 192, 1))
    }
}

impl Image {
    /// Decodes a byte stream of the wire format into an image. The outcome,
    /// success and failure alike, is pinned down by `spec_decode`: the magic
    /// and header are validated, exactly width * height pixels are rebuilt
    /// through the cache and previous-pixel state machine, and the end marker
    /// must follow; every rejection carries the offset where it was detected.
    pub fn decode_qoi(data: &[u8]) -> (r: Result<Image, ImageDecodeError>)
        ensures
            match r {
                Ok(img) => {
                    &&& spec_decode(data@) is Ok
                    &&& img.wf()
                    &&& img.width == spec_decode(data@)->Ok_0.width
                    &&& img.height == spec_decode(data@)->Ok_0.height
                    &&& img.stride == spec_decode(data@)->Ok_0.channels
                    &&& img.pixels@ == pixel_bytes(
                        spec_decode(data@)->Ok_0.pixels,
                        img.stride as int,
                    )
                },
                Err(e) => spec_decode(data@) == Err::<DecodedImage, ImageDecodeError>(e),
            },
    {
        let n = data.len();
        if n < 4 || data[0] != 0x71 || data[1] != 0x6f || data[2] != 0x69 || data[3] != 0x66 {
            proof {
                if n >= 4 {
                    assert(data@.subrange(0, 4)[0] == data@[0]);
                    assert(data@.subrange(0, 4)[1] == data@[1]);
                    assert(data@.subrange(0, 4)[2] == data@[2]);
                    assert(data@.subrange(0, 4)[3] == data@[3]);
                    assert(data@.subrange(0, 4) != magic());
                }
            }
            return Err(ImageDecodeError { position: 0, kind: DecodeErrorKind::InvalidMagic });
        }
        proof {
            assert(data@.subrange(0, 4) =~= magic());
        }
        if n < 14 {
            return Err(ImageDecodeError { position: n, kind: DecodeErrorKind::UnexpectedEof });
        }
        let w = read_be32_exec(data, 4);
        let h = read_be32_exec(data, 8);
        let ch = data[12];
        if ch != 3 && ch != 4 {
            return Err(ImageDecodeError { position: 12, kind: DecodeErrorKind::InvalidHeader });
        }
        if w == 0 {
            return Err(ImageDecodeError { position: 4, kind: DecodeErrorKind::InvalidHeader });
        }
        if h == 0 {
            return Err(ImageDecodeError { position: 8, kind: DecodeErrorKind::InvalidHeader });
        }
        proof {
            assert((w as int) * (h as int) < 0x10000000000000000) by (nonlinear_arith)
                requires
                    w <= 0xFFFFFFFFu32,
                    h <= 0xFFFFFFFFu32,
            ;
        }
        let total: u64 = (w as u64) * (h as u64);
        let stride: usize = ch as usize;

        let mut pixels: Vec<u8> = Vec::new();
        let mut cache: Vec<Pixel> = Vec::new();
        let mut ci: usize = 0;
        while ci < 64
            invariant
                cache@.len() == ci,
                ci <= 64,
                forall|q: int| 0 <= q < ci ==> cache@[q] == (Pixel { r: 0, g: 0, b: 0, a: 0 }),
            decreases 64 - ci,
        {
            cache.push(Pixel { r: 0, g: 0, b: 0, a: 0 });
            ci = ci + 1;
        }
        proof {
            assert(cache@ =~= init_cache());
        }
        let mut prev = Pixel { r: 0, g: 0, b: 0, a: 255 };
        let mut i: usize = 14;
        let mut produced: u64 = 0;
        let ghost mut done: Seq<Pixel> = Seq::empty();
        proof {
            lemma_decode_cont_empty(
                spec_decode_pixels(data@, 14, total as nat, init_cache(), init_prev()),
            );
        }

        while produced < total
            invariant
                n == data@.len(),
                14 <= n,
                data@.subrange(0, 4) == magic(),
                w == read_be32(data@, 4),
                h == read_be32(data@, 8),
                ch == data@[12],
                ch == 3 || ch == 4,
                w > 0,
                h > 0,
                total == w * h,
                stride == ch,
                cache@.len() == 64,
                14 <= i <= n,
                produced <= total,
                done.len() == produced,
                pixels@ == pixel_bytes(done, stride as int),
                spec_decode_pixels(data@, 14, total as nat, init_cache(), init_prev())
                    == decode_cont(
                    done,
                    spec_decode_pixels(
                        data@,
                        i as int,
                        (total - produced) as nat,
                        cache@,
                        prev,
                    ),
                ),
            decreases total - produced,
        {
            let ghost rem = (total - produced) as nat;
            let ghost cur = spec_decode_pixels(data@, i as int, rem, cache@, prev);
            let ghost i0 = i as int;
            let ghost cache0 = cache@;
            let ghost prev0 = prev;
            let ghost done0 = done;
            if i >= n {
                proof {
                    assert(cur == Err::<(Seq<Pixel>, int), ImageDecodeError>(
                        ImageDecodeError {
                            position: n,
                            kind: DecodeErrorKind::TruncatedStream,
                        },
                    ));
                }
                return Err(ImageDecodeError { position: n, kind: DecodeErrorKind::TruncatedStream });
            }
            match decode_op_exec(data, i, &cache, prev) {
                Err(e) => {
                    proof {
                        assert(cur == Err::<(Seq<Pixel>, int), ImageDecodeError>(e));
                    }
                    return Err(e);
                },
                Ok((px, more, consumed)) => {
                    proof {
                        crate::pixel::lemma_hash_bound(px);
                        assert(i as int + consumed as int <= n as int);
                    }
                    let more64 = more as u64;
                    let take64: u64 = if more64 + 1 <= total - produced {
                        more64 + 1
                    } else {
                        total - produced
                    };
                    let take: usize = take64 as usize;
                    let ghost reps = Seq::new(take64 as nat, |q: int| px);
                    let ghost pix0 = pixels@;
                    let mut j: usize = 0;
                    while j < take
                        invariant
                            j <= take,
                            take == take64,
                            stride == 3 || stride == 4,
                            pixels@ == pix0 + pixel_bytes(
                                Seq::new(j as nat, |q: int| px),
                                stride as int,
                            ),
                        decreases take - j,
                    {
                        let ghost before = pixels@;
                        proof {
                            assert(pixel_bytes(Seq::new(0, |q: int| px), stride as int)
                                == Seq::<u8>::empty());
                        }
                        pixels.push(px.r);
                        pixels.push(px.g);
                        pixels.push(px.b);
                        if stride == 4 {
                            pixels.push(px.a);
                        }
                        j = j + 1;
                        proof {
                            assert(Seq::new(j as nat, |q: int| px) =~= Seq::new(
                                (j - 1) as nat,
                                |q: int| px,
                            ).push(px));
                            lemma_pixel_bytes_push(
                                Seq::new((j - 1) as nat, |q: int| px),
                                px,
                                stride as int,
                            );
                            assert(pixels@ =~= before + pixel_bytes_one(px, stride as int));
                            assert(pixels@ =~= pix0 + pixel_bytes(
                                Seq::new(j as nat, |q: int| px),
                                stride as int,
                            ));
                        }
                    }
                    let hpx = pixel_hash(&px);
                    cache[hpx] = px;
                    prev = px;
                    i = i + consumed;
                    produced = produced + take64;
                    proof {
                        done = done0 + reps;
                        crate::qoi_spec::lemma_pixel_bytes_concat(done0, reps, stride as int);
                        assert(pixels@ == pixel_bytes(done, stride as int));
                        let taken = (1 + if more as nat <= rem - 1 {
                            more as nat
                        } else {
                            (rem - 1) as nat
                        }) as nat;
                        assert(take64 as nat == taken);
                        let rec = spec_decode_pixels(
                            data@,
                            i0 + consumed,
                            (rem - taken) as nat,
                            cache0.update(hash_of(px), px),
                            px,
                        );
                        assert(cur == (match rec {
                            Ok((ps, end)) => Ok::<(Seq<Pixel>, int), ImageDecodeError>(
                                (Seq::new(taken, |q: int| px) + ps, end),
                            ),
                            Err(e) => Err(e),
                        }));
                        assert(reps =~= Seq::new(taken, |q: int| px));
                        lemma_decode_cont_assoc(done0, reps, rec);
                        assert(decode_cont(done0, cur) == decode_cont(done, rec));
                        assert(cache@ == cache0.update(hash_of(px), px));
                        assert(spec_decode_pixels(
                            data@,
                            i as int,
                            (total - produced) as nat,
                            cache@,
                            prev,
                        ) == rec);
                    }
                },
            }
        }
        proof {
            assert(spec_decode_pixels(data@, i as int, (total - produced) as nat, cache@, prev)
                == Ok::<(Seq<Pixel>, int), ImageDecodeError>((Seq::empty(), i as int)));
            assert(done + Seq::<Pixel>::empty() =~= done);
            assert(spec_decode_pixels(data@, 14, total as nat, init_cache(), init_prev())
                == Ok::<(Seq<Pixel>, int), ImageDecodeError>((done, i as int)));
        }
        if n - i < 8 {
            return Err(ImageDecodeError { position: n, kind: DecodeErrorKind::TruncatedStream });
        }
        if data[i] != 0 || data[i + 1] != 0 || data[i + 2] != 0 || data[i + 3] != 0 || data[i + 4]
            != 0 || data[i + 5] != 0 || data[i + 6] != 0 || data[i + 7] != 1 {
            proof {
                assert(data@.subrange(i as int, i as int + 8)[0] == data@[i as int]);
                assert(data@.subrange(i as int, i as int + 8)[1] == data@[i as int + 1]);
                assert(data@.subrange(i as int, i as int + 8)[2] == data@[i as int + 2]);
                assert(data@.subrange(i as int, i as int + 8)[3] == data@[i as int + 3]);
                assert(data@.subrange(i as int, i as int + 8)[4] == data@[i as int + 4]);
                assert(data@.subrange(i as int, i as int + 8)[5] == data@[i as int + 5]);
                assert(data@.subrange(i as int, i as int + 8)[6] == data@[i as int + 6]);
                assert(data@.subrange(i as int, i as int + 8)[7] == data@[i as int + 7]);
                assert(data@.subrange(i as int, i as int + 8) != end_marker());
            }
            return Err(ImageDecodeError { position: i, kind: DecodeErrorKind::MissingEndMarker });
        }
        proof {
            assert(data@.subrange(i as int, i as int + 8) =~= end_marker());
        }
        let img = Image { width: w as usize, height: h as usize, stride, pixels };
        proof {
            lemma_pixel_bytes_len(done, stride as int);
            assert(img.pixels@.len() == (w * h) as int * stride);
            assert(img.wf());
        }
        Ok(img)
    }
}

} // verus!
