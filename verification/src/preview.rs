//! The small copies that the live preview and the lit preview work from.

use vstd::prelude::*;

use crate::binary32::{scale, scaled};
use crate::normalmap::{MapKind, Shading};
use crate::pixels::{resizable, resized_to, Pixels, LONGEST};

verus! {

/// Longest side of the copy the live preview is generated from, in pixels.
pub const PREVIEW_MAX: u32 = 1024;

/// Longest side of the images the lit preview shades, in pixels.
pub const LIGHT_MAX: u32 = 512;

/// One side of a picture shrunk so that the longest is at most `max`.
pub open spec fn fit(side: u32, w: u32, h: u32, max: u32) -> int {
    let longest = if w > h {
        w
    } else {
        h
    };
    if longest <= max {
        side as int
    } else {
        let s = scaled(side as nat, longest as nat, max as nat);
        if s < 1 {
            1
        } else if s > u32::MAX {
            u32::MAX as int
        } else {
            s as int
        }
    }
}

/// Dimensions of `w`x`h` shrunk so its longest side is at most `max`.
pub fn fit_dims(w: u32, h: u32, max: u32) -> (d: (u32, u32))
    ensures
        d.0 == fit(w, w, h, max),
        d.1 == fit(h, w, h, max),
        0 < max <= 0x1_0000 && w > max && w >= h ==> d.0 == max,
        0 < max <= 0x1_0000 && h > max && h >= w ==> d.1 == max,
{
    proof {
        if 0 < max <= 0x1_0000 {
            law_fit_dims_only_shrinks(w, w, h, max);
            law_fit_dims_only_shrinks(h, w, h, max);
        }
    }
    if w <= max && h <= max {
        return (w, h);
    }
    let longest: u32 = if w > h {
        w
    } else {
        h
    };
    let fw: u32 = scale(w, longest, max);
    let fh: u32 = scale(h, longest, max);
    (
        if fw < 1 {
            1
        } else {
            fw
        },
        if fh < 1 {
            1
        } else {
            fh
        },
    )
}

/// Fitting only ever shrinks: no side comes out longer than the limit, and none
/// longer than it was, unless it had no length at all. The longest side of a
/// picture that was too long comes out at the limit itself.
pub proof fn law_fit_dims_only_shrinks(side: u32, w: u32, h: u32, max: u32)
    requires
        side == w || side == h,
        0 < max <= LONGEST,
    ensures
        0 <= fit(side, w, h, max) <= max,
        side > 0 ==> 0 < fit(side, w, h, max) <= side,
        w <= max && h <= max ==> fit(side, w, h, max) == side,
        max <= 0x1_0000 && side > max && side >= w && side >= h ==> fit(side, w, h, max) == max,
{
    let longest = if w > h {
        w
    } else {
        h
    };
    if longest > max {
        crate::drift::law_scaled_fits(side as nat, longest as nat, max as nat);
        if max <= 0x1_0000 && side == longest {
            crate::drift::law_longest_side_reaches_the_limit(side as nat, max as nat);
        }
    }
}

/// Is there room to shrink this picture to `max` and to hold the sums that go
/// with it?
pub open spec fn shrinkable(img: Pixels, max: u32) -> bool {
    &&& img.wf()
    &&& 0 < max <= LONGEST
    &&& 4 * (max * max) <= usize::MAX
    &&& 32 * (img.width * max) <= usize::MAX
}

proof fn lemma_shrinkable(img: Pixels, max: u32, w: u32, h: u32)
    requires
        shrinkable(img, max),
        w <= max,
        h <= max,
    ensures
        resizable(img.width, w, h),
{
    assert(w * h <= max * max) by (nonlinear_arith)
        requires
            w <= max,
            h <= max,
    ;
    assert(img.width * h <= img.width * max) by (nonlinear_arith)
        requires
            h <= max,
    ;
    assert(img.width <= img.width * max) by (nonlinear_arith)
        requires
            max >= 1,
    ;
}

/// Shrink `img` so its longest side is at most `max` pixels.
pub fn downscale(img: &Pixels, max: u32) -> (out: Pixels)
    requires
        shrinkable(*img, max),
    ensures
        out.wf(),
        out.width == fit(img.width, img.width, img.height, max),
        out.height == fit(img.height, img.width, img.height, max),
        out.data@ == resized_to(img.data@, img.width, img.height, out.width, out.height),
{
    let (w, h) = fit_dims(img.width, img.height, max);
    proof {
        law_fit_dims_only_shrinks(img.width, img.width, img.height, max);
        law_fit_dims_only_shrinks(img.height, img.width, img.height, max);
        lemma_shrinkable(*img, max, w, h);
    }
    img.resize_to(w, h)
}

/// Is this the first map of its kind?
pub open spec fn is_first(maps: Seq<(MapKind, Pixels)>, kind: MapKind, i: int) -> bool {
    &&& 0 <= i < maps.len()
    &&& maps[i].0 == kind
    &&& forall|j: int| 0 <= j < i ==> (#[trigger] maps[j]).0 != kind
}

/// Is there a map of this kind?
pub open spec fn holds_kind(maps: Seq<(MapKind, Pixels)>, kind: MapKind) -> bool {
    exists|i: int| 0 <= i < maps.len() && (#[trigger] maps[i]).0 == kind
}

fn find(maps: &[(MapKind, Pixels)], kind: MapKind) -> (at: Option<usize>)
    ensures
        at.is_some() == holds_kind(maps@, kind),
        at.is_some() ==> is_first(maps@, kind, at.unwrap() as int),
{
    let mut i: usize = 0;
    while i < maps.len()
        invariant
            i <= maps@.len(),
            forall|j: int| 0 <= j < i ==> (#[trigger] maps@[j]).0 != kind,
        decreases maps@.len() - i,
    {
        if maps[i].0 == kind {
            assert(maps@[i as int].0 == kind);
            return Some(i);
        }
        i += 1;
    }
    None
}

/// Is `small` the first map of a kind, at the size of the lit preview?
pub open spec fn is_copy(
    maps: Seq<(MapKind, Pixels)>,
    kind: MapKind,
    small: Pixels,
    w: u32,
    h: u32,
) -> bool {
    exists|i: int| #[trigger]
        is_first(maps, kind, i) && is_resized(maps[i].1, small, w, h)
}

/// Is `small` a copy of `img` at this size?
pub open spec fn is_resized(img: Pixels, small: Pixels, w: u32, h: u32) -> bool {
    &&& small.width == w
    &&& small.height == h
    &&& small.data@ == resized_to(img.data@, img.width, img.height, w, h)
}

/// Small copies of the maps for the lit preview, all at matching dimensions:
/// those of the normal map, shrunk. Without a normal, an occlusion and a
/// roughness map there is nothing to light.
pub fn build_shading(maps: &[(MapKind, Pixels)], albedo: &Pixels) -> (s: Option<Shading>)
    requires
        forall|i: int| 0 <= i < maps@.len() ==> shrinkable((#[trigger] maps@[i]).1, LIGHT_MAX),
        shrinkable(*albedo, LIGHT_MAX),
    ensures
        s.is_some() == (holds_kind(maps@, MapKind::Normal) && holds_kind(maps@, MapKind::Ao)
            && holds_kind(maps@, MapKind::Roughness)),
        s.is_some() ==> {
            let s = s.unwrap();
            &&& s.wf()
            &&& exists|i: int| #[trigger]
                is_first(maps@, MapKind::Normal, i) && {
                    let n = maps@[i].1;
                    &&& s.width == fit(n.width, n.width, n.height, LIGHT_MAX)
                    &&& s.height == fit(n.height, n.width, n.height, LIGHT_MAX)
                }
            &&& is_copy(maps@, MapKind::Normal, s.normal, s.width, s.height)
            &&& is_copy(maps@, MapKind::Ao, s.ao, s.width, s.height)
            &&& is_copy(maps@, MapKind::Roughness, s.roughness, s.width, s.height)
            &&& is_resized(*albedo, s.albedo, s.width, s.height)
        },
{
    let (normal, ao, roughness) = match (
        find(maps, MapKind::Normal),
        find(maps, MapKind::Ao),
        find(maps, MapKind::Roughness),
    ) {
        (Some(n), Some(a), Some(r)) => (n, a, r),
        _ => {
            return None;
        },
    };
    let n: &Pixels = &maps[normal].1;
    let (width, height) = fit_dims(n.width, n.height, LIGHT_MAX);
    proof {
        law_fit_dims_only_shrinks(n.width, n.width, n.height, LIGHT_MAX);
        law_fit_dims_only_shrinks(n.height, n.width, n.height, LIGHT_MAX);
        assert(shrinkable(maps@[normal as int].1, LIGHT_MAX));
        assert(shrinkable(maps@[ao as int].1, LIGHT_MAX));
        assert(shrinkable(maps@[roughness as int].1, LIGHT_MAX));
        lemma_shrinkable(*albedo, LIGHT_MAX, width, height);
        lemma_shrinkable(maps@[normal as int].1, LIGHT_MAX, width, height);
        lemma_shrinkable(maps@[ao as int].1, LIGHT_MAX, width, height);
        lemma_shrinkable(maps@[roughness as int].1, LIGHT_MAX, width, height);
        assert(is_first(maps@, MapKind::Normal, normal as int));
        assert(is_first(maps@, MapKind::Ao, ao as int));
        assert(is_first(maps@, MapKind::Roughness, roughness as int));
    }
    Some(
        Shading {
            width,
            height,
            albedo: albedo.resize_to(width, height),
            normal: maps[normal].1.resize_to(width, height),
            ao: maps[ao].1.resize_to(width, height),
            roughness: maps[roughness].1.resize_to(width, height),
        },
    )
}

// ------------------------------------------------------------------ the laws

/// A picture that fits keeps its size; one that does not is shrunk in
/// proportion, each side within half a pixel, give or take what single precision
/// loses, and at least one.
pub proof fn law_shrinking_keeps_proportions(side: u32, w: u32, h: u32, max: u32)
    requires
        side == w || side == h,
        0 < max <= LONGEST,
    ensures
        w <= max && h <= max ==> fit(side, w, h, max) == side,
        w > max && w >= h ==> crate::relief::is_share(
            fit(side, w, h, max),
            side as int,
            w as int,
            max as int,
        ),
        h > max && h >= w ==> crate::relief::is_share(
            fit(side, w, h, max),
            side as int,
            h as int,
            max as int,
        ),
{
    let longest = if w > h {
        w
    } else {
        h
    };
    if longest > max {
        crate::drift::law_scaled_fits(side as nat, longest as nat, max as nat);
        crate::relief::lemma_share(side as nat, longest as nat, max as nat);
    }
}

/// The live preview is made from a copy of 1024 pixels a side at most, the lit
/// one from one of 512; pictures that are smaller stay as they are.
pub proof fn law_previews_are_small(side: u32, w: u32, h: u32)
    requires
        side == w || side == h,
    ensures
        fit(side, w, h, PREVIEW_MAX) <= 1024,
        side > 1024 && side >= w && side >= h ==> fit(side, w, h, PREVIEW_MAX) == 1024,
        w <= 1024 && h <= 1024 ==> fit(side, w, h, PREVIEW_MAX) == side,
        fit(side, w, h, LIGHT_MAX) <= 512,
        side > 512 && side >= w && side >= h ==> fit(side, w, h, LIGHT_MAX) == 512,
        w <= 512 && h <= 512 ==> fit(side, w, h, LIGHT_MAX) == side,
{
    law_fit_dims_only_shrinks(side, w, h, PREVIEW_MAX);
    law_fit_dims_only_shrinks(side, w, h, LIGHT_MAX);
}

/// The lit preview takes the first map of each kind, and no other.
pub proof fn law_the_first_map_of_a_kind_counts(
    maps: Seq<(MapKind, Pixels)>,
    kind: MapKind,
    small: Pixels,
    w: u32,
    h: u32,
    i: int,
)
    requires
        0 <= i < maps.len(),
        maps[i].0 == kind,
        forall|j: int| 0 <= j < i ==> (#[trigger] maps[j]).0 != kind,
        is_copy(maps, kind, small, w, h),
    ensures
        holds_kind(maps, kind),
        small.width == w,
        small.height == h,
        maps[i].1.width == w && maps[i].1.height == h ==> small.data@ == maps[i].1.data@,
        maps[i].1.width != w || maps[i].1.height != h ==> small.data@
            == crate::pixels::triangle_resized(
            maps[i].1.data@,
            maps[i].1.width,
            maps[i].1.height,
            w,
            h,
        ),
{
    let j = choose|j: int| #[trigger]
        is_first(maps, kind, j) && is_resized(maps[j].1, small, w, h);
    if j < i {
        assert(maps[j].0 != kind);
    } else if i < j {
        assert(maps[i].0 != kind);
    }
}

/// There is a map of a kind exactly when one is in the list.
pub proof fn law_a_kind_is_held_when_it_is_listed(maps: Seq<(MapKind, Pixels)>, kind: MapKind)
    ensures
        maps.len() == 0 ==> !holds_kind(maps, kind),
        forall|map: (MapKind, Pixels)| #[trigger]
            holds_kind(maps.push(map), kind) == (holds_kind(maps, kind) || map.0 == kind),
{
    assert forall|map: (MapKind, Pixels)| #[trigger] holds_kind(maps.push(map), kind) == (
    holds_kind(maps, kind) || map.0 == kind) by {
        let all = maps.push(map);
        if holds_kind(maps, kind) {
            let i = choose|i: int| 0 <= i < maps.len() && (#[trigger] maps[i]).0 == kind;
            assert(all[i].0 == kind);
        }
        if map.0 == kind {
            assert(all[maps.len() as int].0 == kind);
        }
        if holds_kind(all, kind) && map.0 != kind {
            let i = choose|i: int| 0 <= i < all.len() && (#[trigger] all[i]).0 == kind;
            assert(maps[i].0 == kind);
        }
    }
}

} // verus!
