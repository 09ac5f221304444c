//! An RGBA picture held as plain bytes.

use vstd::prelude::*;

verus! {

/// One pixel, channel by channel.
#[derive(Clone, Copy, PartialEq, Eq, Debug, Structural)]
pub struct Rgba {
    pub r: u8,
    pub g: u8,
    pub b: u8,
    pub a: u8,
}

/// A picture: four bytes a pixel, row by row from the top.
pub struct Pixels {
    pub width: u32,
    pub height: u32,
    pub data: Vec<u8>,
}

/// Longest side that a picture can be resampled to.
pub const LONGEST: u32 = 0x10_0000;

/// Can a picture `from_w` wide be resampled to `w` by `h`? There has to be
/// room for a row of the old picture, for the new picture, and for one of the
/// old width and the new height, which is where the filter keeps its
/// single-precision sums.
pub open spec fn resizable(from_w: u32, w: u32, h: u32) -> bool {
    &&& w <= LONGEST
    &&& h <= LONGEST
    &&& 4 * from_w <= usize::MAX
    &&& 4 * (w * h) <= usize::MAX
    &&& 32 * (from_w * h) <= usize::MAX
}

/// An opaque grey.
pub open spec fn grey(level: u8) -> Rgba {
    Rgba { r: level, g: level, b: level, a: 255 }
}

/// The `i`th pixel of a run of bytes.
pub open spec fn pixel_of(data: Seq<u8>, i: int) -> Rgba {
    Rgba { r: data[4 * i], g: data[4 * i + 1], b: data[4 * i + 2], a: data[4 * i + 3] }
}

impl Pixels {
    /// Four bytes for every pixel, and no more.
    pub open spec fn wf(self) -> bool {
        self.data@.len() == 4 * (self.width * self.height)
    }

    /// The `i`th pixel.
    pub open spec fn nth(self, i: int) -> Rgba {
        pixel_of(self.data@, i)
    }

    /// The pixel at `(x, y)`.
    pub open spec fn at(self, x: int, y: int) -> Rgba {
        self.nth(crate::grid::texel(self.width as int, x, y))
    }

    /// The same size and the same pixels.
    pub open spec fn same(self, other: Pixels) -> bool {
        self.width == other.width && self.height == other.height && self.data@ == other.data@
    }

    /// A picture of one colour.
    pub fn from_pixel(width: u32, height: u32, px: Rgba) -> (out: Pixels)
        requires
            4 * (width * height) <= usize::MAX,
        ensures
            out.wf(),
            out.width == width,
            out.height == height,
            forall|i: int| 0 <= i < width * height ==> #[trigger] out.nth(i) == px,
    {
        assert(width * height >= 0) by (nonlinear_arith);
        let n: usize = width as usize * height as usize;
        let mut data: Vec<u8> = Vec::new();
        let mut i: usize = 0;
        while i < n
            invariant
                i <= n,
                n == width * height,
                data@.len() == 4 * i,
                forall|j: int| 0 <= j < i ==> #[trigger] pixel_of(data@, j) == px,
            decreases n - i,
        {
            let ghost before = data@;
            data.push(px.r);
            data.push(px.g);
            data.push(px.b);
            data.push(px.a);
            assert forall|j: int| 0 <= j < i + 1 implies #[trigger] pixel_of(data@, j) == px by {
                if j < i {
                    assert(pixel_of(before, j) == px);
                }
            }
            i += 1;
        }
        Pixels { width, height, data }
    }

    /// A picture in greys, opaque throughout.
    pub fn from_grey(width: u32, height: u32, levels: &[u8]) -> (out: Pixels)
        requires
            levels@.len() == width * height,
            4 * (width * height) <= usize::MAX,
        ensures
            out.wf(),
            out.width == width,
            out.height == height,
            forall|i: int|
                0 <= i < width * height ==> #[trigger] out.nth(i) == grey(levels@[i]),
    {
        let n: usize = levels.len();
        let mut data: Vec<u8> = Vec::new();
        let mut i: usize = 0;
        while i < n
            invariant
                i <= n,
                n == levels@.len(),
                data@.len() == 4 * i,
                forall|j: int| 0 <= j < i ==> #[trigger] pixel_of(data@, j) == grey(levels@[j]),
            decreases n - i,
        {
            let ghost before = data@;
            let v: u8 = levels[i];
            data.push(v);
            data.push(v);
            data.push(v);
            data.push(255);
            assert forall|j: int| 0 <= j < i + 1 implies #[trigger] pixel_of(data@, j) == grey(
                levels@[j],
            ) by {
                if j < i {
                    assert(pixel_of(before, j) == grey(levels@[j]));
                }
            }
            i += 1;
        }
        Pixels { width, height, data }
    }

    /// The pixel at `(x, y)`.
    pub fn get_pixel(&self, x: u32, y: u32) -> (px: Rgba)
        requires
            self.wf(),
            x < self.width,
            y < self.height,
        ensures
            px == self.at(x as int, y as int),
    {
        proof {
            lemma_offset(self.width, self.height, x, y, self.data.len());
        }
        let i: usize = y as usize * self.width as usize + x as usize;
        Rgba {
            r: self.data[4 * i],
            g: self.data[4 * i + 1],
            b: self.data[4 * i + 2],
            a: self.data[4 * i + 3],
        }
    }

    /// Replace the pixel at `(x, y)`.
    pub fn put_pixel(&mut self, x: u32, y: u32, px: Rgba)
        requires
            old(self).wf(),
            x < old(self).width,
            y < old(self).height,
        ensures
            final(self).wf(),
            final(self).width == old(self).width,
            final(self).height == old(self).height,
            final(self).at(x as int, y as int) == px,
            forall|i: int|
                0 <= i < old(self).width * old(self).height && i != crate::grid::texel(
                    old(self).width as int,
                    x as int,
                    y as int,
                ) ==> #[trigger] final(self).nth(i) == old(self).nth(i),
    {
        proof {
            lemma_offset(self.width, self.height, x, y, self.data.len());
        }
        let i: usize = y as usize * self.width as usize + x as usize;
        self.data[4 * i] = px.r;
        self.data[4 * i + 1] = px.g;
        self.data[4 * i + 2] = px.b;
        self.data[4 * i + 3] = px.a;
    }

    /// A copy.
    pub fn duplicate(&self) -> (out: Pixels)
        ensures
            out.same(*self),
    {
        let mut data: Vec<u8> = Vec::new();
        let mut i: usize = 0;
        while i < self.data.len()
            invariant
                i <= self.data@.len(),
                data@ == self.data@.take(i as int),
            decreases self.data@.len() - i,
        {
            data.push(self.data[i]);
            i += 1;
            assert(data@ =~= self.data@.take(i as int));
        }
        assert(self.data@.take(i as int) =~= self.data@);
        Pixels { width: self.width, height: self.height, data }
    }

    /// The picture at another size: a copy where the size already fits, else
    /// resampled.
    pub fn resize_to(&self, w: u32, h: u32) -> (out: Pixels)
        requires
            self.wf(),
            (w == self.width && h == self.height) || resizable(self.width, w, h),
        ensures
            out.wf(),
            out.width == w,
            out.height == h,
            out.data@ == resized_to(self.data@, self.width, self.height, w, h),
            self.width == w && self.height == h ==> out.data@ == self.data@,
            self.width != w || self.height != h ==> out.data@ == triangle_resized(
                self.data@,
                self.width,
                self.height,
                w,
                h,
            ),
    {
        if self.width == w && self.height == h {
            self.duplicate()
        } else {
            Pixels {
                width: w,
                height: h,
                data: triangle_resize(self.data.as_slice(), self.width, self.height, w, h),
            }
        }
    }
}

proof fn lemma_offset(w: u32, h: u32, x: u32, y: u32, len: usize)
    requires
        x < w,
        y < h,
        len == 4 * (w * h),
    ensures
        0 <= y * w <= y * w + x,
        4 * (y * w + x) + 3 < len,
        crate::grid::texel(w as int, x as int, y as int) == y * w + x,
{
    crate::grid::lemma_texel(w as int, h as int, x as int, y as int);
    assert(0 <= y * w) by (nonlinear_arith);
}

/// The bytes of a picture at another size.
pub open spec fn resized_to(data: Seq<u8>, w: u32, h: u32, new_w: u32, new_h: u32) -> Seq<u8> {
    if w == new_w && h == new_h {
        data
    } else {
        triangle_resized(data, w, h, new_w, new_h)
    }
}

/// What `image::imageops::resize` makes of a picture with its triangle filter.
pub uninterp spec fn triangle_resized(
    data: Seq<u8>,
    w: u32,
    h: u32,
    new_w: u32,
    new_h: u32,
) -> Seq<u8>;

/// `image::imageops::resize` with `FilterType::Triangle`, on an RGBA picture
/// of eight bits a channel. Its result depends on nothing but the pixels and
/// the two sizes, and has four bytes for every pixel of the new size. The new
/// size is bounded so that the filter's weights, which are single-precision,
/// cannot all come out zero.
#[verifier::external_body]
fn triangle_resize(data: &[u8], w: u32, h: u32, new_w: u32, new_h: u32) -> (out: Vec<u8>)
    requires
        data@.len() == 4 * (w * h),
        resizable(w, new_w, new_h),
    ensures
        out@ == triangle_resized(data@, w, h, new_w, new_h),
        out@.len() == 4 * (new_w * new_h),
{
    let src: image::ImageBuffer<image::Rgba<u8>, &[u8]> =
        image::ImageBuffer::from_raw(w, h, data).unwrap();
    image::imageops::resize(&src, new_w, new_h, image::imageops::FilterType::Triangle).into_raw()
}

// ------------------------------------------------------------------ the laws

/// A pixel is four bytes, red, green, blue and alpha, row by row from the top.
pub proof fn law_pixels_are_four_bytes(img: Pixels, x: int, y: int)
    ensures
        img.at(x, y).r == img.data@[4 * (y * img.width + x)],
        img.at(x, y).g == img.data@[4 * (y * img.width + x) + 1],
        img.at(x, y).b == img.data@[4 * (y * img.width + x) + 2],
        img.at(x, y).a == img.data@[4 * (y * img.width + x) + 3],
{
}

/// A grey has no colour and nothing shows through it.
pub proof fn law_grey_is_opaque(level: u8)
    ensures
        grey(level).r == level,
        grey(level).g == level,
        grey(level).b == level,
        grey(level).a == 255,
{
}

/// Two whole pictures of one size that agree in every pixel agree in every
/// byte.
pub proof fn law_pictures_are_their_pixels(a: Pixels, b: Pixels)
    requires
        a.wf(),
        b.wf(),
        a.width == b.width,
        a.height == b.height,
        forall|x: int, y: int|
            0 <= x < a.width && 0 <= y < a.height ==> #[trigger] a.at(x, y) == b.at(x, y),
    ensures
        a.data@ == b.data@,
        a.same(b),
{
    let w = a.width as int;
    let h = a.height as int;
    assert forall|j: int| 0 <= j < a.data@.len() implies #[trigger] a.data@[j] == b.data@[j] by {
        let i = j / 4;
        if w == 0 {
            assert(w * h == 0) by (nonlinear_arith)
                requires
                    w == 0,
            ;
        }
        crate::grid::lemma_texel_onto(w, h, i);
        assert(a.at(i % w, i / w) == b.at(i % w, i / w));
        assert(pixel_of(a.data@, i) == pixel_of(b.data@, i));
        assert(j == 4 * i || j == 4 * i + 1 || j == 4 * i + 2 || j == 4 * i + 3);
    }
    assert(a.data@ =~= b.data@);
}

/// A picture that has the size asked for already is not resampled; any other
/// is, from its own size to the one asked for.
pub proof fn law_only_another_size_is_resampled(data: Seq<u8>, w: u32, h: u32, nw: u32, nh: u32)
    ensures
        resized_to(data, w, h, w, h) == data,
        w != nw || h != nh ==> resized_to(data, w, h, nw, nh) == triangle_resized(
            data,
            w,
            h,
            nw,
            nh,
        ),
{
}

} // verus!
