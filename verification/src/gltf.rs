//! glTF image pixels widened to 8-bit RGBA.
use vstd::prelude::*;

verus! {

/// The pixel layouts a decoded glTF image can have.
#[derive(Clone, Copy, Debug, PartialEq, Eq, Structural)]
pub enum PixelFormat {
    /// One 8-bit channel.
    R8,
    /// Two 8-bit channels.
    R8G8,
    /// Three 8-bit channels.
    R8G8B8,
    /// Four 8-bit channels.
    R8G8B8A8,
    /// One 16-bit little-endian channel.
    R16,
    /// Two 16-bit channels.
    R16G16,
    /// Three 16-bit channels.
    R16G16B16,
    /// Four 16-bit channels.
    R16G16B16A16,
    /// Three 32-bit float channels.
    R32G32B32FLOAT,
    /// Four 32-bit float channels.
    R32G32B32A32FLOAT,
}

/// Whether a format holds float channels.
pub open spec fn is_float_format(f: PixelFormat) -> bool {
    f == PixelFormat::R32G32B32FLOAT || f == PixelFormat::R32G32B32A32FLOAT
}

/// The byte at `k`, or 0 past the end.
pub open spec fn byte_or_zero(p: Seq<u8>, k: int) -> u8 {
    if 0 <= k < p.len() {
        p[k]
    } else {
        0
    }
}

/// The number of 16-bit channels of a 16-bit format.
pub open spec fn wide_channels(f: PixelFormat) -> nat {
    if f == PixelFormat::R16 {
        1
    } else if f == PixelFormat::R16G16 {
        2
    } else if f == PixelFormat::R16G16B16 {
        3
    } else {
        4
    }
}

/// The RGBA bytes of pixel `i` of a 16-bit image with `n` channels: each channel keeps the
/// high byte of its little-endian value (missing bytes read as 0); one channel is spread to
/// grey, two leave blue 0, and alpha is 255 unless given.
pub open spec fn wide_pixel(p: Seq<u8>, n: nat, i: int) -> Seq<u8> {
    let base = i * (n as int) * 2;
    let c0 = byte_or_zero(p, base + 1);
    let c1 = byte_or_zero(p, base + 3);
    let c2 = byte_or_zero(p, base + 5);
    let c3 = byte_or_zero(p, base + 7);
    if n == 1 {
        seq![c0, c0, c0, 255]
    } else if n == 2 {
        seq![c0, c1, 0, 255]
    } else if n == 3 {
        seq![c0, c1, c2, 255]
    } else {
        seq![c0, c1, c2, c3]
    }
}

/// The RGBA bytes of the first `k` pixels, `f(i)` giving pixel `i`.
pub open spec fn pixels(f: spec_fn(int) -> Seq<u8>, k: nat) -> Seq<u8>
    decreases k,
{
    if k == 0 {
        Seq::empty()
    } else {
        pixels(f, (k - 1) as nat) + f(k - 1)
    }
}

/// The 8-bit RGBA form of a non-float image: 8-bit images are widened per pixel over their
/// whole pixels (missing channels 0, alpha 255; one channel spread to grey); 16-bit images
/// take `width * height` pixels (see [`wide_pixel`]).
pub open spec fn rgba8(f: PixelFormat, width: u32, height: u32, p: Seq<u8>) -> Seq<u8> {
    match f {
        PixelFormat::R8G8B8A8 => p,
        PixelFormat::R8G8B8 => pixels(|i: int| seq![p[3 * i], p[3 * i + 1], p[3 * i + 2], 255u8], p.len() / 3),
        PixelFormat::R8 => pixels(|i: int| seq![p[i], p[i], p[i], 255u8], p.len()),
        PixelFormat::R8G8 => pixels(|i: int| seq![p[2 * i], p[2 * i + 1], 0u8, 255u8], p.len() / 2),
        _ => pixels(|i: int| wide_pixel(p, wide_channels(f), i), (width * height) as nat),
    }
}

fn byte_at(p: &[u8], k: usize) -> (r: u8)
    ensures
        r == byte_or_zero(p@, k as int),
{
    if k < p.len() {
        p[k]
    } else {
        0
    }
}

/// The 8-bit RGBA bytes of an image with integer channels (see [`rgba8`]).
pub fn to_rgba8(format: PixelFormat, width: u32, height: u32, pixels_in: &[u8]) -> (r: Vec<u8>)
    requires
        !is_float_format(format),
        width * height <= u32::MAX,
        width * height * 8 <= usize::MAX,
    ensures
        r@ == rgba8(format, width, height, pixels_in@),
{
    let p = pixels_in;
    let mut out: Vec<u8> = Vec::new();
    match format {
        PixelFormat::R8G8B8A8 => {
            let mut k: usize = 0;
            while k < p.len()
                invariant
                    k <= p@.len(),
                    out@ == p@.subrange(0, k as int),
                decreases p@.len() - k,
            {
                out.push(p[k]);
                assert(p@.subrange(0, k + 1) =~= p@.subrange(0, k as int).push(p@[k as int]));
                k = k + 1;
            }
            assert(p@.subrange(0, p@.len() as int) =~= p@);
        },
        PixelFormat::R8G8B8 => {
            let ghost f = |i: int| seq![p@[3 * i], p@[3 * i + 1], p@[3 * i + 2], 255u8];
            let len = p.len();
            let n = len / 3;
            let mut i: usize = 0;
            while i < n
                invariant
                    i <= n,
                    len == p@.len(),
                    n == len / 3,
                    f == (|i: int| seq![p@[3 * i], p@[3 * i + 1], p@[3 * i + 2], 255u8]),
                    out@ == pixels(f, i as nat),
                decreases n - i,
            {
                assert(3 * i + 3 <= len) by (nonlinear_arith)
                    requires
                        i < n,
                        n == len / 3,
                ;
                let b = 3 * i;
                out.push(p[b]);
                out.push(p[b + 1]);
                out.push(p[b + 2]);
                out.push(255);
                assert(out@ =~= pixels(f, (i + 1) as nat));
                i = i + 1;
            }
        },
        PixelFormat::R8 => {
            let ghost f = |i: int| seq![p@[i], p@[i], p@[i], 255u8];
            let mut i: usize = 0;
            while i < p.len()
                invariant
                    i <= p@.len(),
                    f == (|i: int| seq![p@[i], p@[i], p@[i], 255u8]),
                    out@ == pixels(f, i as nat),
                decreases p@.len() - i,
            {
                let r = p[i];
                out.push(r);
                out.push(r);
                out.push(r);
                out.push(255);
                assert(out@ =~= pixels(f, (i + 1) as nat));
                i = i + 1;
            }
        },
        PixelFormat::R8G8 => {
            let ghost f = |i: int| seq![p@[2 * i], p@[2 * i + 1], 0u8, 255u8];
            let len = p.len();
            let n = len / 2;
            let mut i: usize = 0;
            while i < n
                invariant
                    i <= n,
                    len == p@.len(),
                    n == len / 2,
                    f == (|i: int| seq![p@[2 * i], p@[2 * i + 1], 0u8, 255u8]),
                    out@ == pixels(f, i as nat),
                decreases n - i,
            {
                assert(2 * i + 2 <= len) by (nonlinear_arith)
                    requires
                        i < n,
                        n == len / 2,
                ;
                let b = 2 * i;
                out.push(p[b]);
                out.push(p[b + 1]);
                out.push(0);
                out.push(255);
                assert(out@ =~= pixels(f, (i + 1) as nat));
                i = i + 1;
            }
        },
        _ => {
            let n: usize = match format {
                PixelFormat::R16 => 1,
                PixelFormat::R16G16 => 2,
                PixelFormat::R16G16B16 => 3,
                _ => 4,
            };
            assert(n == wide_channels(format));
            let ghost f = |i: int| wide_pixel(p@, n as nat, i);
            let count = (width * height) as usize;
            let mut i: usize = 0;
            while i < count
                invariant
                    i <= count,
                    count * 8 <= usize::MAX,
                    1 <= n <= 4,
                    f == (|i: int| wide_pixel(p@, n as nat, i)),
                    out@ == pixels(f, i as nat),
                decreases count - i,
            {
                assert(i * n * 2 + 8 <= usize::MAX && i * n <= usize::MAX) by (nonlinear_arith)
                    requires
                        i < count,
                        count * 8 <= usize::MAX,
                        1 <= n <= 4,
                ;
                let base: usize = i * n * 2;
                let c0 = byte_at(p, base + 1);
                let c1 = byte_at(p, base + 3);
                let c2 = byte_at(p, base + 5);
                let c3 = byte_at(p, base + 7);
                let ghost w = wide_pixel(p@, n as nat, i as int);
                if n == 1 {
                    out.push(c0);
                    out.push(c0);
                    out.push(c0);
                    out.push(255);
                } else if n == 2 {
                    out.push(c0);
                    out.push(c1);
                    out.push(0);
                    out.push(255);
                } else if n == 3 {
                    out.push(c0);
                    out.push(c1);
                    out.push(c2);
                    out.push(255);
                } else {
                    out.push(c0);
                    out.push(c1);
                    out.push(c2);
                    out.push(c3);
                }
                assert(out@ =~= pixels(f, (i + 1) as nat));
                i = i + 1;
            }
        },
    }
    out
}

/// The number of bytes one pixel of a format takes.
pub open spec fn bytes_per_pixel(f: PixelFormat) -> nat {
    match f {
        PixelFormat::R8 => 1,
        PixelFormat::R8G8 => 2,
        PixelFormat::R8G8B8 => 3,
        PixelFormat::R8G8B8A8 => 4,
        PixelFormat::R16 => 2,
        PixelFormat::R16G16 => 4,
        PixelFormat::R16G16B16 => 6,
        PixelFormat::R16G16B16A16 => 8,
        PixelFormat::R32G32B32FLOAT => 12,
        PixelFormat::R32G32B32A32FLOAT => 16,
    }
}

proof fn lemma_pixels_len(f: spec_fn(int) -> Seq<u8>, k: nat)
    requires
        forall|i: int| 0 <= i < k ==> (#[trigger] f(i)).len() == 4,
    ensures
        pixels(f, k).len() == 4 * k,
    decreases k,
{
    if k > 0 {
        lemma_pixels_len(f, (k - 1) as nat);
    }
}

/// An image whose pixel bytes are exactly `width * height` pixels of its format widens to
/// exactly `4 * width * height` RGBA bytes.
pub proof fn lemma_rgba8_len(f: PixelFormat, width: u32, height: u32, p: Seq<u8>)
    requires
        !is_float_format(f),
        p.len() == width * height * bytes_per_pixel(f),
    ensures
        rgba8(f, width, height, p).len() == 4 * width * height,
{
    let n: nat = (width * height) as nat;
    assert(p.len() == n * bytes_per_pixel(f) && 4 * width * height == 4 * n) by (nonlinear_arith)
        requires
            p.len() == width * height * bytes_per_pixel(f),
            n == width * height,
    ;
    match f {
        PixelFormat::R8G8B8A8 => {},
        PixelFormat::R8G8B8 => {
            assert(p.len() / 3 == n) by (nonlinear_arith)
                requires
                    p.len() == n * 3,
            ;
            lemma_pixels_len(|i: int| seq![p[3 * i], p[3 * i + 1], p[3 * i + 2], 255u8], p.len() / 3);
        },
        PixelFormat::R8 => {
            lemma_pixels_len(|i: int| seq![p[i], p[i], p[i], 255u8], p.len());
        },
        PixelFormat::R8G8 => {
            assert(p.len() / 2 == n) by (nonlinear_arith)
                requires
                    p.len() == n * 2,
            ;
            lemma_pixels_len(|i: int| seq![p[2 * i], p[2 * i + 1], 0u8, 255u8], p.len() / 2);
        },
        _ => {
            let g = |i: int| wide_pixel(p, wide_channels(f), i);
            assert forall|i: int| 0 <= i < n implies (#[trigger] g(i)).len() == 4 by {}
            lemma_pixels_len(g, n);
        },
    }
}

/// The number of channels a format stores per pixel.
pub open spec fn format_channels(f: PixelFormat) -> nat {
    match f {
        PixelFormat::R8 | PixelFormat::R16 => 1,
        PixelFormat::R8G8 | PixelFormat::R16G16 => 2,
        PixelFormat::R8G8B8 | PixelFormat::R16G16B16 | PixelFormat::R32G32B32FLOAT => 3,
        _ => 4,
    }
}

/// Whether a format stores each channel in 16 bits.
pub open spec fn is_wide_format(f: PixelFormat) -> bool {
    f == PixelFormat::R16 || f == PixelFormat::R16G16 || f == PixelFormat::R16G16B16 || f == PixelFormat::R16G16B16A16
}

/// The 8-bit value of channel `c` of pixel `i` as stored: the byte itself in an 8-bit format;
/// in a 16-bit format the high (second, little-endian) byte of the channel's two, 0 past the
/// end of the data.
pub open spec fn stored_channel(f: PixelFormat, p: Seq<u8>, i: int, c: int) -> u8 {
    let n = format_channels(f) as int;
    if is_wide_format(f) {
        let j = 2 * (n * i + c) + 1;
        if 0 <= j < p.len() {
            p[j]
        } else {
            0
        }
    } else {
        p[n * i + c]
    }
}

/// The number of whole pixels an image's RGBA form holds: `width * height` for a 16-bit
/// format, the whole pixels of the data for an 8-bit one.
pub open spec fn rgba_pixel_count(f: PixelFormat, width: u32, height: u32, p: Seq<u8>) -> nat {
    if is_wide_format(f) {
        (width * height) as nat
    } else {
        p.len() / format_channels(f)
    }
}

proof fn lemma_pixels_index(g: spec_fn(int) -> Seq<u8>, k: nat)
    requires
        forall|i: int| 0 <= i < k ==> (#[trigger] g(i)).len() == 4,
    ensures
        pixels(g, k).len() == 4 * k,
        forall|i: int, c: int| 0 <= i < k && 0 <= c < 4 ==> #[trigger] pixels(g, k)[4 * i + c] == g(i)[c],
    decreases k,
{
    if k > 0 {
        lemma_pixels_index(g, (k - 1) as nat);
        let prev = pixels(g, (k - 1) as nat);
        assert forall|i: int, c: int| 0 <= i < k && 0 <= c < 4 implies #[trigger] pixels(g, k)[4 * i + c] == g(i)[c] by {
            if i < k - 1 {
                assert(pixels(g, k)[4 * i + c] == prev[4 * i + c]);
            } else {
                assert(pixels(g, k)[4 * i + c] == g(k - 1)[4 * i + c - prev.len()]);
            }
        }
    }
}

/// Each pixel of an image with integer channels widens to four bytes: its stored channels
/// in order (a 16-bit channel keeping its high byte), then the channels it lacks: a single
/// channel is spread to grey, other missing colour channels are 0, and missing alpha is 255.
/// Only an 8-bit RGBA image is taken whole, trailing bytes included.
pub proof fn lemma_rgba8_channels(f: PixelFormat, width: u32, height: u32, p: Seq<u8>)
    requires
        !is_float_format(f),
    ensures
        f != PixelFormat::R8G8B8A8 ==> rgba8(f, width, height, p).len() == 4 * rgba_pixel_count(f, width, height, p),
        f == PixelFormat::R8G8B8A8 ==> rgba8(f, width, height, p) == p,
        forall|i: int, c: int|
            0 <= i < rgba_pixel_count(f, width, height, p) && 0 <= c < 4 ==> #[trigger] rgba8(f, width, height, p)[4 * i
                + c] == if c < format_channels(f) {
                stored_channel(f, p, i, c)
            } else if c == 3 {
                255u8
            } else if format_channels(f) == 1 {
                stored_channel(f, p, i, 0)
            } else {
                0u8
            },
{
    let k = rgba_pixel_count(f, width, height, p);
    let n = format_channels(f) as int;
    match f {
        PixelFormat::R8G8B8A8 => {},
        PixelFormat::R8G8B8 => {
            let g = |i: int| seq![p[3 * i], p[3 * i + 1], p[3 * i + 2], 255u8];
            lemma_pixels_index(g, k);
        },
        PixelFormat::R8 => {
            let g = |i: int| seq![p[i], p[i], p[i], 255u8];
            lemma_pixels_index(g, k);
        },
        PixelFormat::R8G8 => {
            let g = |i: int| seq![p[2 * i], p[2 * i + 1], 0u8, 255u8];
            lemma_pixels_index(g, k);
        },
        _ => {
            let g = |i: int| wide_pixel(p, wide_channels(f), i);
            assert forall|i: int| 0 <= i < k implies (#[trigger] g(i)).len() == 4 by {}
            lemma_pixels_index(g, k);
            assert forall|i: int, c: int| 0 <= i < k && 0 <= c < 4 && c < n implies #[trigger] g(i)[c] == stored_channel(
                f,
                p,
                i,
                c,
            ) by {
                assert(i * n * 2 + 2 * c + 1 == 2 * (n * i + c) + 1) by (nonlinear_arith);
            }
            assert forall|i: int| 0 <= i < k implies #[trigger] g(i)[0] == stored_channel(f, p, i, 0) by {
                assert(i * n * 2 + 1 == 2 * (n * i) + 1) by (nonlinear_arith);
            }
        },
    }
}

} // verus!
