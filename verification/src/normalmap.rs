//! What a set of texture maps is made of: where height comes from, which
//! texels a slope is taken over, and which maps there are.

use vstd::prelude::*;

use crate::grid::texel;
use crate::pixels::Pixels;

verus! {

/// Which part of the source image is treated as height information.
#[derive(Clone, Copy, PartialEq, Eq, Debug, Structural)]
pub enum HeightSource {
    Luminance,
    Average,
    Red,
    Green,
    Blue,
    Alpha,
}

impl HeightSource {
    pub const ALL: [HeightSource; 6] = [
        HeightSource::Luminance,
        HeightSource::Average,
        HeightSource::Red,
        HeightSource::Green,
        HeightSource::Blue,
        HeightSource::Alpha,
    ];

    pub fn label(self) -> (s: &'static str)
        ensures
            s@ == match self {
                HeightSource::Luminance => "Luminance"@,
                HeightSource::Average => "Average RGB"@,
                HeightSource::Red => "Red channel"@,
                HeightSource::Green => "Green channel"@,
                HeightSource::Blue => "Blue channel"@,
                HeightSource::Alpha => "Alpha channel"@,
            },
    {
        match self {
            HeightSource::Luminance => "Luminance",
            HeightSource::Average => "Average RGB",
            HeightSource::Red => "Red channel",
            HeightSource::Green => "Green channel",
            HeightSource::Blue => "Blue channel",
            HeightSource::Alpha => "Alpha channel",
        }
    }
}

/// Edge-detection kernel used to differentiate the height field.
#[derive(Clone, Copy, PartialEq, Eq, Debug, Structural)]
pub enum Kernel {
    Sobel,
    Scharr,
    Prewitt,
    /// Central difference over a single texel, with no cross-row smoothing.
    Pixel,
}

impl Kernel {
    pub const ALL: [Kernel; 4] = [
        Kernel::Sobel,
        Kernel::Scharr,
        Kernel::Prewitt,
        Kernel::Pixel,
    ];

    pub fn label(self) -> (s: &'static str)
        ensures
            s@ == match self {
                Kernel::Sobel => "Sobel"@,
                Kernel::Scharr => "Scharr"@,
                Kernel::Prewitt => "Prewitt"@,
                Kernel::Pixel => "1 px (pixel art)"@,
            },
    {
        match self {
            Kernel::Sobel => "Sobel",
            Kernel::Scharr => "Scharr",
            Kernel::Prewitt => "Prewitt",
            Kernel::Pixel => "1 px (pixel art)",
        }
    }

    /// How much the outer rows of the kernel weigh, and the middle one.
    pub open spec fn rows(self) -> (int, int) {
        match self {
            Kernel::Sobel => (1, 2),
            Kernel::Scharr => (3, 10),
            Kernel::Prewitt => (1, 1),
            // Only the centre row: a hard edge stays one pixel wide.
            Kernel::Pixel => (0, 1),
        }
    }

    /// The weight of column `i` of row `j`: a difference of the columns to
    /// either side, row by row.
    pub open spec fn weight(self, i: int, j: int) -> int {
        let row = if j == 1 {
            self.rows().1
        } else {
            self.rows().0
        };
        row * (i - 1)
    }

    /// Horizontal 3x3 weights, row-major. The vertical kernel is its transpose.
    pub fn weights(self) -> (k: [i32; 9])
        ensures
            forall|i: int, j: int|
                0 <= i < 3 && 0 <= j < 3 ==> #[trigger] k@[j * 3 + i] == self.weight(i, j),
            self == Kernel::Sobel ==> k@ == seq![-1i32, 0, 1, -2i32, 0, 2, -1i32, 0, 1],
            self == Kernel::Scharr ==> k@ == seq![-3i32, 0, 3, -10i32, 0, 10, -3i32, 0, 3],
            self == Kernel::Prewitt ==> k@ == seq![-1i32, 0, 1, -1i32, 0, 1, -1i32, 0, 1],
            self == Kernel::Pixel ==> k@ == seq![0i32, 0, 0, -1i32, 0, 1, 0, 0, 0],
    {
        let k: [i32; 9] = match self {
            Kernel::Sobel => [-1, 0, 1, -2, 0, 2, -1, 0, 1],
            Kernel::Scharr => [-3, 0, 3, -10, 0, 10, -3, 0, 3],
            Kernel::Prewitt => [-1, 0, 1, -1, 0, 1, -1, 0, 1],
            Kernel::Pixel => [0, 0, 0, -1, 0, 1, 0, 0, 0],
        };
        assert forall|i: int, j: int| 0 <= i < 3 && 0 <= j < 3 implies #[trigger] k@[j * 3 + i]
            == self.weight(i, j) by {
            assert(j == 0 || j == 1 || j == 2);
            assert(i == 0 || i == 1 || i == 2);
        }
        assert(self == Kernel::Sobel ==> k@ =~= seq![-1i32, 0, 1, -2i32, 0, 2, -1i32, 0, 1]);
        assert(self == Kernel::Scharr ==> k@ =~= seq![-3i32, 0, 3, -10i32, 0, 10, -3i32, 0, 3]);
        assert(self == Kernel::Prewitt ==> k@ =~= seq![-1i32, 0, 1, -1i32, 0, 1, -1i32, 0, 1]);
        assert(self == Kernel::Pixel ==> k@ =~= seq![0i32, 0, 0, -1i32, 0, 1, 0, 0, 0]);
        k
    }

    /// What the weighted sum is divided by, so that equal strengths give
    /// comparable depth.
    pub fn divisor(self) -> (d: i32)
        ensures
            d == match self {
                Kernel::Sobel => 4int,
                Kernel::Scharr => 16,
                Kernel::Prewitt => 3,
                Kernel::Pixel => 2,
            },
            self != Kernel::Pixel ==> d == self.weight(2, 0) + self.weight(2, 1) + self.weight(
                2,
                2,
            ),
            self == Kernel::Pixel ==> d == 2 * self.weight(2, 1),
    {
        match self {
            Kernel::Sobel => 4,
            Kernel::Scharr => 16,
            Kernel::Prewitt => 3,
            Kernel::Pixel => 2,
        }
    }
}

/// A kernel is odd about its middle column, so over a flat height the slope is
/// nothing.
pub proof fn law_kernels_are_odd(kernel: Kernel, i: int, j: int)
    ensures
        kernel.weight(2 - i, j) == -kernel.weight(i, j),
        kernel.weight(1, j) == 0,
{
    let row = if j == 1 {
        kernel.rows().1
    } else {
        kernel.rows().0
    };
    assert(row * (2 - i - 1) == -(row * (i - 1))) by (nonlinear_arith);
}

/// The one-texel kernel looks at one row only.
pub proof fn law_pixel_kernel_keeps_to_its_row(i: int, j: int)
    ensures
        j != 1 ==> Kernel::Pixel.weight(i, j) == 0,
        Kernel::Pixel.weight(i, 1) == i - 1,
{
    assert(0 * (i - 1) == 0 && 1 * (i - 1) == i - 1);
}

/// Every knob the generator exposes to the UI. `T` is what the sliders count
/// in.
#[derive(Clone, Copy, PartialEq, Debug)]
pub struct Settings<T> {
    pub source: HeightSource,
    pub kernel: Kernel,
    /// Bump depth multiplier.
    pub strength: T,
    /// Gaussian pre-blur radius in pixels; 0 disables it.
    pub blur: T,
    /// Contrast applied to the height field around its middle.
    pub contrast: T,
    pub invert_height: bool,
    /// Give see-through texels the height of the nearest opaque one.
    pub ignore_transparent: bool,
    pub flip_x: bool,
    /// Off = OpenGL (+Y up), on = DirectX (+Y down).
    pub flip_y: bool,
    /// Sample across the borders so the result tiles seamlessly.
    pub tileable: bool,
    /// Horizon search radius in pixels for ambient occlusion; 0 disables it.
    pub ao_radius: T,
    /// How much of the computed occlusion to keep.
    pub ao_strength: T,
    /// Roughness value for perfectly smooth areas.
    pub roughness_base: T,
    /// How strongly fine height detail pushes roughness up.
    pub roughness_detail: T,
    pub roughness_invert: bool,
}

/// What is left of the knobs once there is a height field, and how deep it is.
#[derive(Clone, Copy, PartialEq, Debug)]
pub struct Surface<T> {
    pub depth: T,
    pub flip_x: bool,
    pub flip_y: bool,
    pub tileable: bool,
    pub ao_radius: T,
    pub ao_strength: T,
    pub roughness_base: T,
    pub roughness_detail: T,
    pub roughness_invert: bool,
}

impl<T> Settings<T> {
    pub open spec fn surface_of(self, depth: T) -> Surface<T> {
        Surface {
            depth,
            flip_x: self.flip_x,
            flip_y: self.flip_y,
            tileable: self.tileable,
            ao_radius: self.ao_radius,
            ao_strength: self.ao_strength,
            roughness_base: self.roughness_base,
            roughness_detail: self.roughness_detail,
            roughness_invert: self.roughness_invert,
        }
    }
}

impl<T: Copy> Settings<T> {
    /// The knobs that a height field of this depth is rendered with. The depth
    /// of an image is its strength; a relief keeps its own.
    pub fn surface(&self, depth: T) -> (s: Surface<T>)
        ensures
            s == self.surface_of(depth),
            s.depth == depth,
            s.flip_x == self.flip_x,
            s.flip_y == self.flip_y,
            s.tileable == self.tileable,
            s.ao_radius == self.ao_radius,
            s.ao_strength == self.ao_strength,
            s.roughness_base == self.roughness_base,
            s.roughness_detail == self.roughness_detail,
            s.roughness_invert == self.roughness_invert,
    {
        Surface {
            depth,
            flip_x: self.flip_x,
            flip_y: self.flip_y,
            tileable: self.tileable,
            ao_radius: self.ao_radius,
            ao_strength: self.ao_strength,
            roughness_base: self.roughness_base,
            roughness_detail: self.roughness_detail,
            roughness_invert: self.roughness_invert,
        }
    }
}

/// Do two sets of knobs differ only in how an image is turned into heights?
pub open spec fn same_but_for_the_image<T>(a: Settings<T>, b: Settings<T>) -> bool {
    b == (Settings {
        source: b.source,
        kernel: b.kernel,
        strength: b.strength,
        blur: b.blur,
        contrast: b.contrast,
        invert_height: b.invert_height,
        ignore_transparent: b.ignore_transparent,
        ..a
    })
}

/// One of the texture maps the generator can produce.
#[derive(Clone, Copy, PartialEq, Eq, Debug, Structural)]
pub enum MapKind {
    Height,
    Normal,
    Ao,
    Roughness,
}

impl MapKind {
    pub const ALL: [MapKind; 4] = [
        MapKind::Height,
        MapKind::Normal,
        MapKind::Ao,
        MapKind::Roughness,
    ];

    pub fn label(self) -> (s: &'static str)
        ensures
            s@ == match self {
                MapKind::Height => "Height"@,
                MapKind::Normal => "Normal"@,
                MapKind::Ao => "AO"@,
                MapKind::Roughness => "Roughness"@,
            },
    {
        match self {
            MapKind::Height => "Height",
            MapKind::Normal => "Normal",
            MapKind::Ao => "AO",
            MapKind::Roughness => "Roughness",
        }
    }

    pub open spec fn named(self) -> Seq<char> {
        match self {
            MapKind::Height => "height"@,
            MapKind::Normal => "normal"@,
            MapKind::Ao => "ao"@,
            MapKind::Roughness => "roughness"@,
        }
    }

    /// Filename suffix used by the exporters, e.g. `brick_normal.png`.
    pub fn suffix(self) -> (s: &'static str)
        ensures
            s@ == self.named(),
    {
        match self {
            MapKind::Height => "height",
            MapKind::Normal => "normal",
            MapKind::Ao => "ao",
            MapKind::Roughness => "roughness",
        }
    }
}

/// Render every requested map, in the order they were asked for.
pub fn generate<R: Fn(MapKind) -> Pixels>(kinds: &[MapKind], render: R) -> (maps: Vec<
    (MapKind, Pixels),
>)
    requires
        forall|i: int| 0 <= i < kinds@.len() ==> #[trigger] render.requires((kinds@[i],)),
    ensures
        maps@.len() == kinds@.len(),
        forall|i: int|
            0 <= i < kinds@.len() ==> (#[trigger] maps@[i]).0 == kinds@[i] && render.ensures(
                (kinds@[i],),
                maps@[i].1,
            ),
{
    let mut maps: Vec<(MapKind, Pixels)> = Vec::new();
    let mut i: usize = 0;
    while i < kinds.len()
        invariant
            i <= kinds@.len(),
            maps@.len() == i,
            forall|j: int| 0 <= j < kinds@.len() ==> #[trigger] render.requires((kinds@[j],)),
            forall|j: int|
                0 <= j < i ==> (#[trigger] maps@[j]).0 == kinds@[j] && render.ensures(
                    (kinds@[j],),
                    maps@[j].1,
                ),
        decreases kinds@.len() - i,
    {
        let kind: MapKind = kinds[i];
        maps.push((kind, render(kind)));
        i += 1;
    }
    maps
}

// --------------------------------------------------------------- the borders

/// Where a coordinate off the edge is read: round the other side of a picture
/// that tiles, else at the border.
pub open spec fn bordered(c: int, side: int, tileable: bool) -> int {
    if tileable {
        c % side
    } else if c < 0 {
        0
    } else if c > side - 1 {
        side - 1
    } else {
        c
    }
}

fn border(c: i32, side: u32, tileable: bool) -> (r: u32)
    requires
        1 <= side <= i32::MAX,
    ensures
        r == bordered(c as int, side as int, tileable),
        r < side,
{
    if c >= 0 {
        if (c as u32) < side {
            proof {
                vstd::arithmetic::div_mod::lemma_small_mod(c as nat, side as nat);
            }
            c as u32
        } else if tileable {
            c as u32 % side
        } else {
            side - 1
        }
    } else if tileable {
        let past: u32 = (-1 - c) as u32 % side;
        proof {
            let q = (-1 - c) / side as int;
            vstd::arithmetic::div_mod::lemma_fundamental_div_mod(-1 - c, side as int);
            assert(c == (-1 - q) * side + (side - 1 - past)) by (nonlinear_arith)
                requires
                    -1 - c == side * q + past,
            ;
            vstd::arithmetic::div_mod::lemma_fundamental_div_mod_converse(
                c as int,
                side as int,
                -1 - q,
                side - 1 - past,
            );
        }
        side - 1 - past
    } else {
        0
    }
}

/// Where the height at `(x, y)` is kept, on the picture or off it.
pub fn sample_index(x: i32, y: i32, w: u32, h: u32, tileable: bool) -> (i: usize)
    requires
        1 <= w <= i32::MAX,
        1 <= h <= i32::MAX,
        w * h <= usize::MAX,
    ensures
        i == texel(
            w as int,
            bordered(x as int, w as int, tileable),
            bordered(y as int, h as int, tileable),
        ),
        i < w * h,
{
    let sx: u32 = border(x, w, tileable);
    let sy: u32 = border(y, h, tileable);
    proof {
        crate::grid::lemma_texel(w as int, h as int, sx as int, sy as int);
        assert(0 <= sy * w) by (nonlinear_arith);
    }
    sy as usize * w as usize + sx as usize
}

/// Where the nine heights are kept that the slope at `(x, y)` is taken over,
/// row by row.
pub fn window(x: u32, y: u32, w: u32, h: u32, tileable: bool) -> (at: [usize; 9])
    requires
        x < w <= i32::MAX,
        y < h <= i32::MAX,
        w * h <= usize::MAX,
    ensures
        forall|i: int, j: int|
            0 <= i < 3 && 0 <= j < 3 ==> #[trigger] at@[j * 3 + i] == texel(
                w as int,
                bordered(x + i - 1, w as int, tileable),
                bordered(y + j - 1, h as int, tileable),
            ),
        forall|k: int| 0 <= k < 9 ==> #[trigger] at@[k] < w * h,
{
    let cx: i32 = x as i32;
    let cy: i32 = y as i32;
    let at: [usize; 9] = [
        sample_index(cx - 1, cy - 1, w, h, tileable),
        sample_index(cx, cy - 1, w, h, tileable),
        sample_index(cx + 1, cy - 1, w, h, tileable),
        sample_index(cx - 1, cy, w, h, tileable),
        sample_index(cx, cy, w, h, tileable),
        sample_index(cx + 1, cy, w, h, tileable),
        sample_index(cx - 1, cy + 1, w, h, tileable),
        sample_index(cx, cy + 1, w, h, tileable),
        sample_index(cx + 1, cy + 1, w, h, tileable),
    ];
    assert forall|i: int, j: int| 0 <= i < 3 && 0 <= j < 3 implies #[trigger] at@[j * 3 + i]
        == texel(
        w as int,
        bordered(x + i - 1, w as int, tileable),
        bordered(y + j - 1, h as int, tileable),
    ) by {
        assert(j == 0 || j == 1 || j == 2);
        assert(i == 0 || i == 1 || i == 2);
    }
    at
}

/// A tiling picture is read the same a whole picture further along.
pub proof fn law_tiling_repeats(c: int, side: int, k: int)
    requires
        side > 0,
    ensures
        bordered(c + k * side, side, true) == bordered(c, side, true),
{
    vstd::arithmetic::div_mod::lemma_mod_multiples_vanish(k, c, side);
    assert(side * k == k * side) by (nonlinear_arith);
    assert(side * k + c == c + k * side);
}

/// On the picture, every texel is read where it is.
pub proof fn law_inside_is_itself(c: int, side: int, tileable: bool)
    requires
        0 <= c < side,
    ensures
        bordered(c, side, tileable) == c,
{
    vstd::arithmetic::div_mod::lemma_small_mod(c as nat, side as nat);
}

// ------------------------------------------------------------- the lit preview

/// The maps a lit preview needs, all at the same resolution.
pub struct Shading {
    pub width: u32,
    pub height: u32,
    pub albedo: Pixels,
    pub normal: Pixels,
    pub ao: Pixels,
    pub roughness: Pixels,
}

impl Shading {
    /// Four whole pictures of one size.
    pub open spec fn wf(self) -> bool {
        &&& self.fitting(self.albedo)
        &&& self.fitting(self.normal)
        &&& self.fitting(self.ao)
        &&& self.fitting(self.roughness)
    }

    pub open spec fn fitting(self, map: Pixels) -> bool {
        map.wf() && map.width == self.width && map.height == self.height
    }
}

// ------------------------------------------------------------------ the laws

/// What the horizontal kernel makes of a window of heights, and what the
/// vertical one, its transpose, does.
pub open spec fn differences(kernel: Kernel, heights: spec_fn(int, int) -> int) -> (int, int) {
    (
        kernel.weight(0, 0) * heights(0, 0) + kernel.weight(1, 0) * heights(1, 0) + kernel.weight(
            2,
            0,
        ) * heights(2, 0) + kernel.weight(0, 1) * heights(0, 1) + kernel.weight(1, 1) * heights(
            1,
            1,
        ) + kernel.weight(2, 1) * heights(2, 1) + kernel.weight(0, 2) * heights(0, 2)
            + kernel.weight(1, 2) * heights(1, 2) + kernel.weight(2, 2) * heights(2, 2),
        kernel.weight(0, 0) * heights(0, 0) + kernel.weight(0, 1) * heights(1, 0) + kernel.weight(
            0,
            2,
        ) * heights(2, 0) + kernel.weight(1, 0) * heights(0, 1) + kernel.weight(1, 1) * heights(
            1,
            1,
        ) + kernel.weight(1, 2) * heights(2, 1) + kernel.weight(2, 0) * heights(0, 2)
            + kernel.weight(2, 1) * heights(1, 2) + kernel.weight(2, 2) * heights(2, 2),
    )
}

/// A kernel measures slope. On a plane that rises by `a` a column and by `b` a
/// row it gives `a` across and `b` down, times twice what the sum is divided
/// by, or for the one-texel kernel times that alone. So a height that rises to
/// the right is never taken for one that falls.
pub proof fn law_kernels_measure_slope(kernel: Kernel, a: int, b: int, c: int)
    ensures
        ({
            let d = differences(kernel, |i: int, j: int| a * i + b * j + c);
            let times = match kernel {
                Kernel::Sobel => 2 * 4int,
                Kernel::Scharr => 2 * 16int,
                Kernel::Prewitt => 2 * 3int,
                Kernel::Pixel => 2int,
            };
            d.0 == times * a && d.1 == times * b
        }),
{
    let f = |i: int, j: int| a * i + b * j + c;
    assert(a * 0 == 0 && a * 1 == a && a * 2 == 2 * a && b * 0 == 0 && b * 1 == b && b * 2 == 2
        * b) by (nonlinear_arith);
    assert(f(0, 0) == c && f(1, 0) == a + c && f(2, 0) == 2 * a + c);
    assert(f(0, 1) == b + c && f(1, 1) == a + b + c && f(2, 1) == 2 * a + b + c);
    assert(f(0, 2) == 2 * b + c && f(1, 2) == a + 2 * b + c && f(2, 2) == 2 * a + 2 * b + c);
    let u = kernel.rows().0;
    let m = kernel.rows().1;
    assert(u * (0 - 1) == -u && u * (1 - 1) == 0 && u * (2 - 1) == u) by (nonlinear_arith);
    assert(m * (0 - 1) == -m && m * (1 - 1) == 0 && m * (2 - 1) == m) by (nonlinear_arith);
    let d = differences(kernel, f);
    let slope = 4 * u + 2 * m;
    lemma_times_plane(u, a, b, c);
    lemma_times_plane(m, a, b, c);
    lemma_term(kernel.weight(0, 0), -1, u, (c), f(0, 0));
    lemma_term(kernel.weight(1, 0), 0, u, (a + c), f(1, 0));
    lemma_term(kernel.weight(2, 0), 1, u, (2 * a + c), f(2, 0));
    lemma_term(kernel.weight(0, 1), -1, m, (b + c), f(0, 1));
    lemma_term(kernel.weight(1, 1), 0, m, (a + b + c), f(1, 1));
    lemma_term(kernel.weight(2, 1), 1, m, (2 * a + b + c), f(2, 1));
    lemma_term(kernel.weight(0, 2), -1, u, (2 * b + c), f(0, 2));
    lemma_term(kernel.weight(1, 2), 0, u, (a + 2 * b + c), f(1, 2));
    lemma_term(kernel.weight(2, 2), 1, u, (2 * a + 2 * b + c), f(2, 2));
    lemma_term(kernel.weight(0, 0), -1, u, (c), f(0, 0));
    lemma_term(kernel.weight(0, 1), -1, m, (a + c), f(1, 0));
    lemma_term(kernel.weight(0, 2), -1, u, (2 * a + c), f(2, 0));
    lemma_term(kernel.weight(1, 0), 0, u, (b + c), f(0, 1));
    lemma_term(kernel.weight(1, 1), 0, m, (a + b + c), f(1, 1));
    lemma_term(kernel.weight(1, 2), 0, u, (2 * a + b + c), f(2, 1));
    lemma_term(kernel.weight(2, 0), 1, u, (2 * b + c), f(0, 2));
    lemma_term(kernel.weight(2, 1), 1, m, (a + 2 * b + c), f(1, 2));
    lemma_term(kernel.weight(2, 2), 1, u, (2 * a + 2 * b + c), f(2, 2));
    assert(slope * a == 4 * (u * a) + 2 * (m * a) && slope * b == 4 * (u * b) + 2 * (m * b))
        by (nonlinear_arith)
        requires
            slope == 4 * u + 2 * m,
    ;
    assert(d.0 == slope * a);
    assert(d.1 == slope * b);
}

/// One term of a weighted sum.
proof fn lemma_term(weight: int, sign: int, u: int, height: int, value: int)
    requires
        weight == sign * u,
        value == height,
        sign == -1 || sign == 0 || sign == 1,
    ensures
        weight * value == (if sign == 0 {
            0
        } else if sign > 0 {
            u * height
        } else {
            -(u * height)
        }),
{
    assert(weight * value == sign * (u * height)) by (nonlinear_arith)
        requires
            weight == sign * u,
            value == height,
    ;
    let p = u * height;
    assert(0 * p == 0 && 1 * p == p && (-1) * p == -p);
}

/// A weight times the heights of a plane, taken apart.
proof fn lemma_times_plane(u: int, a: int, b: int, c: int)
    ensures
        u * (a + c) == u * a + u * c,
        u * (b + c) == u * b + u * c,
        u * (2 * a + c) == 2 * (u * a) + u * c,
        u * (2 * b + c) == 2 * (u * b) + u * c,
        u * (2 * a + b + c) == 2 * (u * a) + u * b + u * c,
        u * (a + 2 * b + c) == u * a + 2 * (u * b) + u * c,
        u * (2 * a + 2 * b + c) == 2 * (u * a) + 2 * (u * b) + u * c,
{
    assert(u * (a + c) == u * a + u * c) by (nonlinear_arith);
    assert(u * (b + c) == u * b + u * c) by (nonlinear_arith);
    assert(u * (2 * a + c) == 2 * (u * a) + u * c) by (nonlinear_arith);
    assert(u * (2 * b + c) == 2 * (u * b) + u * c) by (nonlinear_arith);
    assert(u * (2 * a + b + c) == 2 * (u * a) + u * b + u * c) by (nonlinear_arith);
    assert(u * (a + 2 * b + c) == u * a + 2 * (u * b) + u * c) by (nonlinear_arith);
    assert(u * (2 * a + 2 * b + c) == 2 * (u * a) + 2 * (u * b) + u * c) by (nonlinear_arith);
}

/// How the kernels weigh the rows beside the middle one: Sobel half as much,
/// Scharr three tenths, Prewitt the same, and the one-texel kernel not at all.
/// All of them look right minus left.
pub proof fn law_kernels_weigh_rows(i: int, j: int)
    requires
        0 <= i < 3,
        j == 0 || j == 2,
    ensures
        2 * Kernel::Sobel.weight(i, j) == Kernel::Sobel.weight(i, 1),
        10 * Kernel::Scharr.weight(i, j) == 3 * Kernel::Scharr.weight(i, 1),
        Kernel::Prewitt.weight(i, j) == Kernel::Prewitt.weight(i, 1),
        Kernel::Pixel.weight(i, j) == 0,
        forall|kernel: Kernel|
            #![trigger kernel.weight(2, 1)]
            kernel.weight(2, 1) > 0 && kernel.weight(0, 1) < 0 && kernel.weight(1, 1) == 0,
{
    assert(i == 0 || i == 1 || i == 2);
    assert forall|kernel: Kernel|
        #![trigger kernel.weight(2, 1)]
        kernel.weight(2, 1) > 0 && kernel.weight(0, 1) < 0 && kernel.weight(1, 1) == 0 by {
        match kernel {
            Kernel::Sobel => {},
            Kernel::Scharr => {},
            Kernel::Prewitt => {},
            Kernel::Pixel => {},
        }
    }
}

/// A surface carries every knob that a height field is rendered with: settings
/// with the same surface agree in all of them, and its depth is the one given.
pub proof fn law_a_surface_carries_its_knobs<T>(
    a: Settings<T>,
    b: Settings<T>,
    depth: T,
    other: T,
)
    ensures
        a.surface_of(depth).depth == depth,
        a.surface_of(depth).flip_x == a.flip_x,
        a.surface_of(depth).flip_y == a.flip_y,
        a.surface_of(depth).tileable == a.tileable,
        a.surface_of(depth).ao_radius == a.ao_radius,
        a.surface_of(depth).ao_strength == a.ao_strength,
        a.surface_of(depth).roughness_base == a.roughness_base,
        a.surface_of(depth).roughness_detail == a.roughness_detail,
        a.surface_of(depth).roughness_invert == a.roughness_invert,
        a.surface_of(depth) == b.surface_of(other) <==> {
            &&& depth == other
            &&& a.flip_x == b.flip_x
            &&& a.flip_y == b.flip_y
            &&& a.tileable == b.tileable
            &&& a.ao_radius == b.ao_radius
            &&& a.ao_strength == b.ao_strength
            &&& a.roughness_base == b.roughness_base
            &&& a.roughness_detail == b.roughness_detail
            &&& a.roughness_invert == b.roughness_invert
        },
{
}

/// Off the edge of a picture that does not tile, the texel read is the nearest
/// there is; of one that does, it is the one a whole number of pictures away.
pub proof fn law_borders_read_the_nearest_or_wrap(c: int, side: int, k: int)
    requires
        side > 0,
        0 <= k < side,
    ensures
        0 <= bordered(c, side, false) < side,
        0 <= bordered(c, side, true) < side,
        c <= bordered(c, side, false) ==> bordered(c, side, false) - c <= k - c || k < c,
        bordered(c, side, false) <= c ==> c - bordered(c, side, false) <= c - k || k > c,
        c < 0 ==> bordered(c, side, false) == 0,
        c >= side ==> bordered(c, side, false) == side - 1,
        (c - bordered(c, side, true)) % side == 0,
{
    vstd::arithmetic::div_mod::lemma_fundamental_div_mod(c, side);
    vstd::arithmetic::div_mod::lemma_mod_bound(c, side);
    let q = c / side;
    assert(c - c % side == side * q);
    vstd::arithmetic::div_mod::lemma_mod_multiples_basic(q, side);
    assert(side * q == q * side) by (nonlinear_arith);
}

/// The maps are exported under four different names.
pub proof fn law_maps_have_their_own_names(a: MapKind, b: MapKind)
    ensures
        a.named() == b.named() <==> a == b,
{
    reveal_strlit("height");
    reveal_strlit("normal");
    reveal_strlit("ao");
    reveal_strlit("roughness");
    assert("height"@[0] == 'h' && "normal"@[0] == 'n' && "ao"@[0] == 'a' && "roughness"@[0] == 'r');
}

/// Every source, kernel and map is on offer, and the maps in the order they are
/// written in.
pub proof fn law_everything_is_listed(source: HeightSource, kernel: Kernel)
    ensures
        exists|k: int| 0 <= k < 6 && #[trigger] HeightSource::ALL@[k] == source,
        exists|k: int| 0 <= k < 4 && #[trigger] Kernel::ALL@[k] == kernel,
        MapKind::ALL@[0] == MapKind::Height,
        MapKind::ALL@[1] == MapKind::Normal,
        MapKind::ALL@[2] == MapKind::Ao,
        MapKind::ALL@[3] == MapKind::Roughness,
{
    let i: int = match source {
        HeightSource::Luminance => 0,
        HeightSource::Average => 1,
        HeightSource::Red => 2,
        HeightSource::Green => 3,
        HeightSource::Blue => 4,
        HeightSource::Alpha => 5,
    };
    assert(HeightSource::ALL@[i] == source);
    let j: int = match kernel {
        Kernel::Sobel => 0,
        Kernel::Scharr => 1,
        Kernel::Prewitt => 2,
        Kernel::Pixel => 3,
    };
    assert(Kernel::ALL@[j] == kernel);
}

} // verus!
