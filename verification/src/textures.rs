//! Textures: decoding to four bytes per pixel, shrinking, and mip chains.

use vstd::prelude::*;

verus! {

/// An image of four bytes per pixel, row by row.
#[derive(Debug)]
pub struct TexData {
    pub width: u32,
    pub height: u32,
    pub rgba: Vec<u8>,
}

/// What a `TexData` holds.
#[verifier::ext_equal]
pub ghost struct TexSpec {
    pub width: int,
    pub height: int,
    pub rgba: Seq<u8>,
}

impl View for TexData {
    type V = TexSpec;

    open spec fn view(&self) -> TexSpec {
        TexSpec { width: self.width as int, height: self.height as int, rgba: self.rgba@ }
    }
}

/// The image has pixels, all of them are there, and they can be counted in 32
/// bits.
pub open spec fn whole(t: TexSpec) -> bool {
    &&& t.width >= 1
    &&& t.height >= 1
    &&& t.width * t.height * 4 <= u32::MAX
    &&& t.rgba.len() >= t.width * t.height * 4
}

pub open spec fn at_most(a: int, b: int) -> int {
    if a <= b {
        a
    } else {
        b
    }
}

/// Half of an edge, but at least one pixel.
pub open spec fn half_edge(n: int) -> int {
    if n / 2 >= 1 {
        n / 2
    } else {
        1
    }
}

/// Channel `c` of the pixel at `x` and `y`; beyond the edges the last pixel
/// counts.
pub open spec fn texel(t: TexSpec, x: int, y: int, c: int) -> int {
    t.rgba[(at_most(y, t.height - 1) * t.width + at_most(x, t.width - 1)) * 4 + c] as int
}

/// Channel `c` of the average of the two by two pixels that start at twice `x`
/// and `y`, where `bias` is added before the division.
pub open spec fn average(t: TexSpec, x: int, y: int, c: int, bias: int) -> int {
    (texel(t, 2 * x, 2 * y, c) + texel(t, 2 * x + 1, 2 * y, c) + texel(t, 2 * x, 2 * y + 1, c)
        + texel(t, 2 * x + 1, 2 * y + 1, c) + bias) / 4
}

/// The image at half its size.
pub open spec fn half_of(t: TexSpec, bias: int) -> TexSpec {
    let w = half_edge(t.width);
    let h = half_edge(t.height);
    TexSpec {
        width: w,
        height: h,
        rgba: Seq::new(
            (w * h * 4) as nat,
            |i: int| average(t, i / 4 % w, i / 4 / w, i % 4, bias) as u8,
        ),
    }
}

proof fn lemma_pixel_in_range(x: int, y: int, w: int, h: int, c: int)
    requires
        0 <= x < w,
        0 <= y < h,
        0 <= c < 4,
    ensures
        0 <= (y * w + x) * 4 + c < w * h * 4,
        0 <= y * w,
        y * w + x < w * h,
{
    assert(y * w + x < w * h) by (nonlinear_arith)
        requires
            0 <= x < w,
            0 <= y < h,
    ;
    assert(0 <= y * w) by (nonlinear_arith)
        requires
            0 <= y,
            0 <= x < w,
    ;
}

fn read_texel(t: &TexData, x: u32, y: u32, c: u32) -> (r: u32)
    requires
        whole(t@),
        c < 4,
    ensures
        r == texel(t@, x as int, y as int, c as int),
        r <= 255,
{
    let px: u32 = if x <= t.width - 1 {
        x
    } else {
        t.width - 1
    };
    let py: u32 = if y <= t.height - 1 {
        y
    } else {
        t.height - 1
    };
    proof {
        lemma_pixel_in_range(px as int, py as int, t.width as int, t.height as int, c as int);
    }
    let at: u32 = (py * t.width + px) * 4 + c;
    t.rgba[at as usize] as u32
}

fn half(t: &TexData, bias: u32) -> (r: TexData)
    requires
        whole(t@),
        bias <= 3,
    ensures
        r@ == half_of(t@, bias as int),
        whole(r@),
{
    let w: u32 = if t.width / 2 >= 1 {
        t.width / 2
    } else {
        1
    };
    let h: u32 = if t.height / 2 >= 1 {
        t.height / 2
    } else {
        1
    };
    let ghost full = half_of(t@, bias as int);
    assert(1 <= w <= t.width && 1 <= h <= t.height);
    assert(w * h * 4 <= t.width * t.height * 4 && w * h >= 1) by (nonlinear_arith)
        requires
            1 <= w <= t.width,
            1 <= h <= t.height,
    ;
    let total: u32 = w * h * 4;
    let mut rgba: Vec<u8> = Vec::new();
    let mut i: u32 = 0;
    while i < total
        invariant
            whole(t@),
            bias <= 3,
            full == half_of(t@, bias as int),
            w == half_edge(t.width as int),
            h == half_edge(t.height as int),
            1 <= w <= t.width,
            1 <= h <= t.height,
            total == w * h * 4,
            i <= total,
            rgba@ == full.rgba.take(i as int),
        decreases total - i,
    {
        let p: u32 = i / 4;
        let x: u32 = p % w;
        let y: u32 = p / w;
        let c: u32 = i % 4;
        assert(y < h) by (nonlinear_arith)
            requires
                p < w * h,
                y == p / w,
                w >= 1,
        ;
        let sum: u32 = read_texel(t, 2 * x, 2 * y, c) + read_texel(t, 2 * x + 1, 2 * y, c)
            + read_texel(t, 2 * x, 2 * y + 1, c) + read_texel(t, 2 * x + 1, 2 * y + 1, c) + bias;
        rgba.push((sum / 4) as u8);
        assert(full.rgba[i as int] == (sum / 4) as u8);
        assert(full.rgba.take(i + 1) =~= full.rgba.take(i as int).push(full.rgba[i as int]));
        i = i + 1;
    }
    assert(full.rgba.take(total as int) =~= full.rgba);
    TexData { width: w, height: h, rgba }
}

/// Shrinks an image to half its size by averaging, rounding down.
pub fn halve(t: &TexData) -> (r: TexData)
    requires
        whole(t@),
    ensures
        r@ == half_of(t@, 0),
        whole(r@),
{
    half(t, 0)
}

/// The longest edge that a texture keeps.
pub const MAX_TEX: u32 = 1024;

/// The image halved until no edge is longer than `MAX_TEX`.
pub open spec fn shrunk(t: TexSpec) -> TexSpec
    decreases t.width + t.height,
    when t.width >= 1 && t.height >= 1
{
    if t.width > MAX_TEX || t.height > MAX_TEX {
        shrunk(half_of(t, 0))
    } else {
        t
    }
}

/// The pixel formats that images come in.
#[derive(Clone, Copy, PartialEq, Eq, Structural, Debug)]
pub enum PixelFormat {
    R8G8B8A8,
    R8G8B8,
    R8,
    Other,
}

/// An image as the file holds it.
#[derive(Debug)]
pub struct Image {
    pub width: u32,
    pub height: u32,
    pub format: PixelFormat,
    pub pixels: Vec<u8>,
}

/// Three channels per pixel, made opaque.
pub open spec fn from_rgb(p: Seq<u8>) -> Seq<u8> {
    Seq::new(
        (p.len() / 3 * 4) as nat,
        |i: int| if i % 4 == 3 {
            255u8
        } else {
            p[i / 4 * 3 + i % 4]
        },
    )
}

/// One channel per pixel, as an opaque grey.
pub open spec fn from_grey(p: Seq<u8>) -> Seq<u8> {
    Seq::new(
        (p.len() * 4) as nat,
        |i: int| if i % 4 == 3 {
            255u8
        } else {
            p[i / 4]
        },
    )
}

/// The image with four bytes per pixel, before it is shrunk.
pub open spec fn expanded(img: Image) -> TexSpec {
    TexSpec {
        width: img.width as int,
        height: img.height as int,
        rgba: match img.format {
            PixelFormat::R8G8B8A8 => img.pixels@,
            PixelFormat::R8G8B8 => from_rgb(img.pixels@),
            _ => from_grey(img.pixels@),
        },
    }
}

fn expand_rgb(p: &Vec<u8>) -> (r: Vec<u8>)
    ensures
        r@ == from_rgb(p@),
{
    let mut out: Vec<u8> = Vec::new();
    let n: usize = p.len() / 3;
    let mut i: usize = 0;
    assert(out@ =~= from_rgb(p@).take(0));
    while i < n
        invariant
            i <= n,
            n == p.len() / 3,
            out@ == from_rgb(p@).take(4 * i),
        decreases n - i,
    {
        let ghost before = out@;
        out.push(p[i * 3]);
        out.push(p[i * 3 + 1]);
        out.push(p[i * 3 + 2]);
        out.push(255);
        assert forall|k: int| 0 <= k < 4 * i + 4 implies out@[k] == from_rgb(p@)[k] by {
            if k < 4 * i {
                assert(before[k] == from_rgb(p@)[k]);
            }
        }
        assert(out@ =~= from_rgb(p@).take(4 * (i + 1)));
        i = i + 1;
    }
    assert(from_rgb(p@).take(4 * n) =~= from_rgb(p@));
    out
}

fn expand_grey(p: &Vec<u8>) -> (r: Vec<u8>)
    ensures
        r@ == from_grey(p@),
{
    let mut out: Vec<u8> = Vec::new();
    let mut i: usize = 0;
    assert(out@ =~= from_grey(p@).take(0));
    while i < p.len()
        invariant
            i <= p.len(),
            out@ == from_grey(p@).take(4 * i),
        decreases p.len() - i,
    {
        let ghost before = out@;
        out.push(p[i]);
        out.push(p[i]);
        out.push(p[i]);
        out.push(255);
        assert forall|k: int| 0 <= k < 4 * i + 4 implies out@[k] == from_grey(p@)[k] by {
            if k < 4 * i {
                assert(before[k] == from_grey(p@)[k]);
            }
        }
        assert(out@ =~= from_grey(p@).take(4 * (i + 1)));
        i = i + 1;
    }
    assert(from_grey(p@).take((4 * p@.len()) as int) =~= from_grey(p@));
    out
}

/// Decodes an image to four bytes per pixel and shrinks it to at most `MAX_TEX`
/// pixels per edge. Images of another format have no texture.
pub fn to_rgba(img: Image) -> (r: Option<TexData>)
    requires
        img.format != PixelFormat::Other ==> whole(expanded(img)),
    ensures
        r is Some <==> img.format != PixelFormat::Other,
        r matches Some(t) ==> t@ == shrunk(expanded(img)) && whole(t@) && t.width <= MAX_TEX
            && t.height <= MAX_TEX,
{
    let ghost want = expanded(img);
    let rgba: Vec<u8> = match img.format {
        PixelFormat::R8G8B8A8 => img.pixels,
        PixelFormat::R8G8B8 => expand_rgb(&img.pixels),
        PixelFormat::R8 => expand_grey(&img.pixels),
        PixelFormat::Other => {
            return None;
        },
    };
    let mut t = TexData { width: img.width, height: img.height, rgba };
    assert(t@ =~= want);
    while t.width > MAX_TEX || t.height > MAX_TEX
        invariant
            whole(t@),
            shrunk(t@) == shrunk(want),
        decreases t.width + t.height,
    {
        t = halve(&t);
    }
    Some(t)
}

/// A level of a mip chain: its width and its pixels.
pub type Level = (u32, Vec<u8>);

/// The levels of a mip chain, from the image down to a single pixel.
pub open spec fn mips(t: TexSpec) -> Seq<TexSpec>
    decreases t.width + t.height,
    when t.width >= 1 && t.height >= 1
{
    if t.width > 1 || t.height > 1 {
        seq![t] + mips(half_of(t, 2))
    } else {
        seq![t]
    }
}

/// The levels of an image, each half the size of the one before, rounded to the
/// nearest, down to a single pixel.
pub fn mip_chain(base: TexData) -> (r: Vec<Level>)
    requires
        whole(base@),
    ensures
        r.len() == mips(base@).len(),
        forall|i: int| 0 <= i < r.len() ==> (#[trigger] r@[i]).0 == mips(base@)[i].width,
        forall|i: int| 0 <= i < r.len() ==> (#[trigger] r@[i]).1@ == mips(base@)[i].rgba,
{
    let ghost all = mips(base@);
    let mut t: TexData = base;
    let mut levels: Vec<Level> = Vec::new();
    assert(all.skip(0) =~= all);
    while t.width > 1 || t.height > 1
        invariant
            whole(t@),
            levels.len() < all.len(),
            all.skip(levels.len() as int) == mips(t@),
            forall|i: int| 0 <= i < levels.len() ==> (#[trigger] levels@[i]).0 == all[i].width,
            forall|i: int| 0 <= i < levels.len() ==> (#[trigger] levels@[i]).1@ == all[i].rgba,
        decreases t.width + t.height,
    {
        let ghost n = levels@.len() as int;
        let next: TexData = half(&t, 2);
        assert(all.skip(n)[0] == t@);
        assert(all.skip(n + 1) =~= mips(next@)) by {
            assert(mips(t@) == seq![t@] + mips(next@));
            assert((seq![t@] + mips(next@)).skip(1) =~= mips(next@));
            assert(all.skip(n).skip(1) =~= all.skip(n + 1));
        }
        proof {
            lemma_mips_nonempty(next@);
        }
        levels.push((t.width, t.rgba));
        t = next;
    }
    let ghost n = levels@.len() as int;
    assert(all.skip(n)[0] == t@);
    assert(all.skip(n).len() == 1);
    levels.push((t.width, t.rgba));
    levels
}

proof fn lemma_mips_nonempty(t: TexSpec)
    requires
        t.width >= 1,
        t.height >= 1,
    ensures
        mips(t).len() > 0,
{
}

/// A mip chain ends in a single pixel, and every level is half the size of the
/// level before it.
pub proof fn lemma_mips_end_in_one_pixel(t: TexSpec)
    requires
        t.width >= 1,
        t.height >= 1,
    ensures
        mips(t).last().width == 1,
        mips(t).last().height == 1,
        mips(t)[0] == t,
        forall|i: int|
            0 <= i < mips(t).len() - 1 ==> #[trigger] mips(t)[i + 1] == half_of(mips(t)[i], 2),
    decreases t.width + t.height,
{
    if t.width > 1 || t.height > 1 {
        let h = half_of(t, 2);
        lemma_mips_end_in_one_pixel(h);
        let m = mips(t);
        assert(m == seq![t] + mips(h));
        assert forall|i: int| 0 <= i < m.len() - 1 implies #[trigger] m[i + 1] == half_of(m[i], 2) by {
            if i > 0 {
                assert(m[i + 1] == mips(h)[(i - 1) + 1]);
                assert(m[i] == mips(h)[i - 1]);
            }
        }
    }
}

/// Averaging stays within the range of the averaged pixels.
pub proof fn lemma_average_in_range(t: TexSpec, x: int, y: int, c: int, bias: int, lo: int, hi: int)
    requires
        0 <= bias <= 3,
        lo <= texel(t, 2 * x, 2 * y, c) <= hi,
        lo <= texel(t, 2 * x + 1, 2 * y, c) <= hi,
        lo <= texel(t, 2 * x, 2 * y + 1, c) <= hi,
        lo <= texel(t, 2 * x + 1, 2 * y + 1, c) <= hi,
    ensures
        lo <= average(t, x, y, c, bias) <= hi,
{
}

/// A shrunk image has no edge longer than `MAX_TEX`, and an image that had none
/// stays as it is.
pub proof fn lemma_shrunk_fits(t: TexSpec)
    requires
        t.width >= 1,
        t.height >= 1,
    ensures
        shrunk(t).width <= MAX_TEX,
        shrunk(t).height <= MAX_TEX,
        t.width <= MAX_TEX && t.height <= MAX_TEX ==> shrunk(t) == t,
    decreases t.width + t.height,
{
    if t.width > MAX_TEX || t.height > MAX_TEX {
        lemma_shrunk_fits(half_of(t, 0));
    }
}

proof fn lemma_pixel_index(x: int, y: int, w: int, c: int)
    requires
        0 <= x < w,
        0 <= y,
        0 <= c < 4,
    ensures
        ((y * w + x) * 4 + c) % 4 == c,
        ((y * w + x) * 4 + c) / 4 == y * w + x,
        (y * w + x) % w == x,
        (y * w + x) / w == y,
{
    vstd::arithmetic::div_mod::lemma_fundamental_div_mod_converse(y * w + x, w, y, x);
}

/// Each pixel of a halved image is the average of the four that it stands for, channel
/// by channel, with what is added before the division by four.
pub proof fn lemma_average_of_four(t: TexSpec, bias: int, x: int, y: int, c: int)
    requires
        whole(t),
        0 <= bias <= 3,
        0 <= x < t.width / 2,
        0 <= y < t.height / 2,
        0 <= c < 4,
    ensures
        ({
            let h = half_of(t, bias);
            let at = |i: int, j: int| t.rgba[(j * t.width + i) * 4 + c] as int;
            &&& h.width == t.width / 2
            &&& h.height == t.height / 2
            &&& h.rgba.len() == h.width * h.height * 4
            &&& h.rgba[(y * h.width + x) * 4 + c] == (at(2 * x, 2 * y) + at(2 * x + 1, 2 * y) + at(2 * x, 2 * y + 1)
                + at(2 * x + 1, 2 * y + 1) + bias) / 4
        }),
{
    let h = half_of(t, bias);
    let w = t.width / 2;
    lemma_pixel_in_range(x, y, w, t.height / 2, c);
    lemma_pixel_index(x, y, w, c);
    let i = (y * w + x) * 4 + c;
    assert(h.rgba[i] == average(t, i / 4 % w, i / 4 / w, i % 4, bias) as u8);
    assert(texel(t, 2 * x, 2 * y, c) <= 255);
    lemma_average_in_range(t, x, y, c, bias, 0, 255);
}

/// An image in three channels becomes opaque, pixel by pixel; one in a single channel
/// becomes grey; one in four stays as it is. An image of another sort has no texture.
pub proof fn lemma_pixels_of_an_image(img: Image, r: Option<TexData>, p: int, c: int)
    requires
        img.format != PixelFormat::Other ==> whole(expanded(img)),
        call_ensures(to_rgba, (img,), r),
        img.width <= 1024,
        img.height <= 1024,
        0 <= p < img.width * img.height,
        0 <= c < 3,
    ensures
        r is None <==> img.format == PixelFormat::Other,
        r matches Some(t) ==> {
            &&& t.width == img.width && t.height == img.height
            &&& img.format == PixelFormat::R8G8B8A8 ==> t.rgba@ == img.pixels@
            &&& img.format == PixelFormat::R8G8B8 ==> t.rgba@[4 * p + c] == img.pixels@[3 * p + c] && t.rgba@[4 * p
                + 3] == 255
            &&& img.format == PixelFormat::R8 ==> t.rgba@[4 * p + c] == img.pixels@[p] && t.rgba@[4 * p + 3] == 255
        },
{
    if r is Some {
        let e = expanded(img);
        lemma_shrunk_fits(e);
        assert(e.rgba.len() >= e.width * e.height * 4);
        assert(4 * p + 3 < img.width * img.height * 4);
        assert((4 * p + c) / 4 == p && (4 * p + c) % 4 == c);
        assert((4 * p + 3) / 4 == p && (4 * p + 3) % 4 == 3);
    }
}

/// The levels of an image begin with itself, each is half the one before, rounded to the
/// nearest, and the last is a single pixel.
pub proof fn lemma_levels(base: TexData, r: Vec<Level>, i: int)
    requires
        whole(base@),
        call_ensures(mip_chain, (base,), r),
        0 <= i < r@.len() - 1,
    ensures
        ({
            let (w, pixels) = r@[0];
            w == base.width && pixels@ == base.rgba@
        }),
        ({
            let (a, x) = r@[i];
            let (b, y) = r@[i + 1];
            b == (if a / 2 >= 1 {
                a / 2
            } else {
                1
            })
        }),
        ({
            let (w, pixels) = r@[r@.len() - 1];
            w == 1 && mips(base@).last().rgba == pixels@
        }),
{
    lemma_mips_end_in_one_pixel(base@);
    assert(mips(base@)[i + 1] == half_of(mips(base@)[i], 2));
    assert(r.len() == r@.len());
}

} // verus!
