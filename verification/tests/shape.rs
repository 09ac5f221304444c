use normalmapper::distance::{axis_distance, envelope, euclidean_distance};
use normalmapper::pixels::{Pixels, Rgba};
use normalmapper::shape::{
    alike, flood, neighbours, rasterize, select_opaque, select_similar, source_texel, Curve, Cut,
    Shape, Span,
};

fn cut(shape: Shape) -> Cut<f32> {
    Cut {
        shape,
        floor: 0.0,
        peak: 1.0,
        width: 3.0,
        concave: false,
    }
}

fn profile(shape: Shape, t: f32) -> f32 {
    let t = t.clamp(0.0, 1.0);
    match shape {
        Shape::Flat => 1.0,
        Shape::Dome | Shape::TubeX | Shape::TubeY => (1.0 - (1.0 - t) * (1.0 - t)).sqrt(),
        Shape::Cone | Shape::Bevel => t,
        Shape::RoundBevel => t * t * (3.0 - 2.0 * t),
    }
}

fn height(c: Curve<f32>, own: u64, beyond: u64) -> u8 {
    let d = (own as f32).sqrt() * 0.5 + (beyond as f32).sqrt() * 0.5;
    let scale = match c.span {
        Span::Width(width) => 1.0 / width.max(0.5),
        Span::Deepest(deepest) => 1.0 / (deepest as f32).sqrt().max(1e-6),
    };
    let p = profile(c.shape, d * scale);
    let v = if c.concave {
        c.peak - (c.peak - c.floor) * p
    } else {
        c.floor + (c.peak - c.floor) * p
    };
    (v.clamp(0.0, 1.0) * 255.0).round() as u8
}

fn raster(cut: Cut<f32>, selected: &[bool], w: u32, h: u32) -> Vec<Option<[u8; 4]>> {
    rasterize(selected, w, h, &cut, height)
}

/// A filled rectangle in the middle of the canvas.
fn block(w: u32, h: u32, x0: u32, y0: u32, x1: u32, y1: u32) -> Vec<bool> {
    (0..(w * h) as usize)
        .map(|i| {
            let (x, y) = (i as u32 % w, i as u32 / w);
            (x0..x1).contains(&x) && (y0..y1).contains(&y)
        })
        .collect()
}

fn rgba(r: u8, g: u8, b: u8, a: u8) -> Rgba {
    Rgba { r, g, b, a }
}

#[test]
fn distance_grows_towards_the_middle() {
    let sel = block(16, 16, 4, 4, 12, 12);
    let d = euclidean_distance(&sel, 16, 16);
    let at = |x: usize, y: usize| (d[(y + 1) * 18 + (x + 1)] as f32).sqrt();
    assert_eq!(at(0, 0), 0.0, "outside the region is the edge itself");
    assert!((at(4, 8) - 1.0).abs() < 1e-3, "one in is one away");
    assert!((at(7, 8) - 4.0).abs() < 1e-3, "four in is four away");
    assert!(at(7, 7) > at(5, 5), "the middle is furthest in");
}

/// The point of doing this in edge heights rather than one height per texel:
/// the rim of a dome has a slope inside a single texel.
#[test]
fn a_domes_rim_slopes_within_one_texel() {
    let sel = block(16, 16, 4, 4, 12, 12);
    let out = raster(cut(Shape::Dome), &sel, 16, 16);
    let [_, left, right, _] = out[(8 * 16 + 4) as usize].expect("the left rim is selected");
    assert!(
        right > left,
        "the left rim should rise inward: left={left} right={right}"
    );
    // And the far rim leans the other way.
    let [_, left, right, _] = out[(8 * 16 + 11) as usize].expect("the right rim is selected");
    assert!(right < left, "the right rim should fall outward");
    assert!(out[0].is_none(), "nothing outside the selection is touched");
}

#[test]
fn a_flat_shape_has_no_slope_anywhere() {
    let sel = block(16, 16, 4, 4, 12, 12);
    for cell in raster(cut(Shape::Flat), &sel, 16, 16).into_iter().flatten() {
        let [t, l, r, b] = cell;
        assert_eq!((l, b), (r, t), "a plateau is flat by definition");
    }
}

/// A tube is round across its axis and dead flat along it. That is the whole
/// difference between a tube and a dome.
#[test]
fn a_tube_is_flat_along_its_axis() {
    let sel = block(16, 16, 2, 6, 14, 10);
    let out = raster(cut(Shape::TubeX), &sel, 16, 16);
    let a = out[(8 * 16 + 4) as usize].unwrap();
    let b = out[(8 * 16 + 10) as usize].unwrap();
    assert_eq!(a, b, "two texels along the axis are the same height");
    assert_eq!((a[1], a[2]), (a[2], a[1]), "and have no sideways slope");
    // Across the axis it does round over.
    let rim = out[(6 * 16 + 8) as usize].unwrap();
    assert!(rim[3] > rim[0], "the top rim rises inward");
}

#[test]
fn a_standing_tube_is_flat_up_and_down() {
    let sel = block(16, 16, 6, 2, 10, 14);
    let out = raster(cut(Shape::TubeY), &sel, 16, 16);
    let a = out[4 * 16 + 8].unwrap();
    let b = out[10 * 16 + 8].unwrap();
    assert_eq!(a, b);
    assert_eq!(a[0], a[3]);
    let rim = out[8 * 16 + 6].unwrap();
    assert!(rim[2] > rim[1]);
}

#[test]
fn a_bevel_stops_at_its_width() {
    let sel = block(24, 24, 2, 2, 22, 22);
    let bevel = Cut {
        width: 3.0,
        ..cut(Shape::Bevel)
    };
    let out = raster(bevel, &sel, 24, 24);
    let inner = out[(12 * 24 + 12) as usize].unwrap();
    assert_eq!(inner, [255, 255, 255, 255], "past the ramp it is a plateau");
    let ramp = out[(12 * 24 + 3) as usize].unwrap();
    assert!(ramp[2] > ramp[1], "inside the width it still slopes");
}

#[test]
fn concave_turns_the_shape_inside_out() {
    let sel = block(16, 16, 4, 4, 12, 12);
    let out = |concave| {
        let dome = Cut {
            concave,
            ..cut(Shape::Dome)
        };
        raster(dome, &sel, 16, 16)[(8 * 16 + 8) as usize].unwrap()[0]
    };
    assert!(out(true) < out(false), "a pit is lower in the middle");
}

#[test]
fn the_wand_stops_at_a_different_colour() {
    let mut img = Pixels::from_pixel(8, 8, rgba(10, 20, 30, 255));
    for y in 0..8 {
        for x in 4..8 {
            img.put_pixel(x, y, rgba(200, 20, 30, 255));
        }
    }
    let cutoff = (0.05f32.clamp(0.0, 1.0) * 255.0) as i32;
    let sel = select_similar(&img, 8, 8, 1, 1, cutoff);
    assert!(sel[8 + 1], "the seed is selected");
    assert!(!sel[8 + 5], "the other colour is not");
    assert_eq!(sel.iter().filter(|&&s| s).count(), 32);
}

/// Erased pixels keep whatever RGB was under the eraser, so comparing their
/// colour would split one transparent surround into several.
#[test]
fn the_wand_treats_all_transparent_texels_alike() {
    let mut img = Pixels::from_pixel(8, 8, rgba(255, 0, 0, 0));
    for x in 0..8 {
        img.put_pixel(x, 4, rgba(0, 255, 0, 0));
    }
    let sel = select_similar(&img, 8, 8, 0, 0, 0);
    assert!(sel.iter().all(|&s| s), "all of it is equally nothing");
}

#[test]
fn the_wand_does_not_jump_a_wall() {
    let mut img = Pixels::from_pixel(5, 3, rgba(9, 9, 9, 255));
    for y in 0..3 {
        img.put_pixel(2, y, rgba(90, 9, 9, 255));
    }
    let sel = select_similar(&img, 5, 3, 0, 0, 10);
    let want = block(5, 3, 0, 0, 2, 3);
    assert_eq!(sel, want);
    assert_eq!(select_similar(&img, 5, 3, 5, 0, 10), vec![false; 15]);
}

#[test]
fn a_single_texel_is_one_away_all_round() {
    let mut sel = vec![false; 9];
    sel[4] = true;
    let d = euclidean_distance(&sel, 3, 3);
    let mut want = vec![0u64; 25];
    want[12] = 1;
    assert_eq!(d, want);
}

#[test]
fn a_region_at_the_border_has_an_edge_there() {
    let sel = vec![true; 9];
    let d = euclidean_distance(&sel, 3, 3);
    assert_eq!(&d[6..9], &[1, 1, 1]);
    assert_eq!(d[12], 4);
    let down = axis_distance(&sel, 3, 3, true);
    assert_eq!(&down[11..14], &[4, 4, 4]);
    assert_eq!(&down[6..9], &[1, 1, 1]);
    let across = axis_distance(&sel, 3, 3, false);
    assert_eq!(&across[6..9], &[1, 4, 1]);
}

#[test]
fn the_field_agrees_with_looking_everywhere() {
    let (w, h) = (11usize, 7usize);
    let sel: Vec<bool> = (0..w * h).map(|i| (i * 7 + i / 5) % 11 != 0).collect();
    let d = euclidean_distance(&sel, w as u32, h as u32);
    let inside = |x: usize, y: usize| {
        (1..=w).contains(&x) && (1..=h).contains(&y) && sel[(y - 1) * w + x - 1]
    };
    for y in 0..h + 2 {
        for x in 0..w + 2 {
            let mut best = u64::MAX;
            for oy in 0..h + 2 {
                for ox in 0..w + 2 {
                    if !inside(ox, oy) {
                        let (dx, dy) = (x.abs_diff(ox) as u64, y.abs_diff(oy) as u64);
                        best = best.min(dx * dx + dy * dy);
                    }
                }
            }
            assert_eq!(d[y * (w + 2) + x], best, "at {x},{y}");
        }
    }
}

#[test]
fn the_envelope_is_the_lowest_parabola() {
    assert_eq!(envelope(&vec![0, 100, 100, 100, 100]), vec![0, 1, 4, 9, 16]);
    assert_eq!(envelope(&vec![5, 0, 5, 20, 3]), vec![1, 0, 1, 4, 3]);
    assert_eq!(envelope(&vec![7]), vec![7]);
}

#[test]
fn neighbours_come_right_left_down_up() {
    assert_eq!(
        neighbours(1, 1, 3, 3),
        vec![(2, 1), (0, 1), (1, 2), (1, 0)]
    );
    assert_eq!(neighbours(0, 0, 3, 3), vec![(1, 0), (0, 1)]);
    assert_eq!(neighbours(2, 2, 3, 3), vec![(1, 2), (2, 1)]);
    assert_eq!(neighbours(0, 0, 1, 1), vec![]);
}

#[test]
fn alike_goes_channel_by_channel() {
    assert!(alike([10, 20, 30, 255], [15, 15, 30, 1], 5));
    assert!(!alike([10, 20, 30, 255], [16, 20, 30, 255], 5));
    assert!(!alike([10, 20, 30, 255], [10, 20, 30, 0], 255));
    assert!(alike([1, 2, 3, 0], [200, 100, 50, 0], 0));
    assert!(!alike([1, 2, 3, 9], [1, 2, 3, 9], -1));
}

#[test]
fn the_source_is_read_without_blending() {
    let mut img = Pixels::from_pixel(4, 2, rgba(0, 0, 0, 255));
    img.put_pixel(2, 1, rgba(1, 2, 3, 4));
    assert_eq!(source_texel(&img, 1, 1, 2, 2), [1, 2, 3, 4]);
    assert_eq!(source_texel(&img, 0, 1, 2, 2), [0, 0, 0, 255]);
    assert_eq!(source_texel(&img, 5, 3, 8, 4), [1, 2, 3, 4]);
    assert_eq!(source_texel(&img, 9, 9, 0, 0), [0, 0, 0, 255]);
}

#[test]
fn opaque_is_anything_not_erased() {
    let mut img = Pixels::from_pixel(3, 1, rgba(5, 5, 5, 0));
    img.put_pixel(1, 0, rgba(0, 0, 0, 1));
    assert_eq!(select_opaque(&img, 3, 1), vec![false, true, false]);
    assert_eq!(select_opaque(&img, 0, 9), Vec::<bool>::new());
}

#[test]
fn a_flood_keeps_to_its_marks() {
    let marks = vec![true, false, true, true, false, true, true, true, true];
    assert_eq!(flood(&marks, 3, 3, 0, 0), marks);
    let cut = vec![true, false, true, true, false, true, true, false, true];
    assert_eq!(
        flood(&cut, 3, 3, 0, 0),
        vec![true, false, false, true, false, false, true, false, false]
    );
}

#[test]
fn shapes_say_what_they_are() {
    assert_eq!(Shape::ALL.len(), 7);
    assert_eq!(Shape::TubeX.label(), "Tube ↔");
    assert_eq!(Shape::RoundBevel.label(), "Round bevel");
    assert_eq!(Shape::Cone.hint(), "Straight sides rising to the middle");
    assert!(Shape::Bevel.uses_width() && Shape::RoundBevel.uses_width());
    assert!(!Shape::Dome.uses_width() && !Shape::TubeY.uses_width());
}

#[test]
fn nothing_selected_gives_nothing() {
    let out = raster(cut(Shape::Dome), &vec![false; 12], 4, 3);
    assert_eq!(out, vec![None; 12]);
}

#[test]
fn the_width_moves_the_bevels_only() {
    let sel = block(16, 16, 3, 2, 13, 14);
    for shape in Shape::ALL {
        let wide = Cut {
            width: 9.0,
            ..cut(shape)
        };
        let same = raster(wide, &sel, 16, 16) == raster(cut(shape), &sel, 16, 16);
        assert_eq!(same, !shape.uses_width(), "{shape:?}");
        let span = wide.curve(49).span;
        if shape.uses_width() {
            assert_eq!(span, Span::Width(9.0));
        } else {
            assert_eq!(span, Span::Deepest(49));
        }
    }
}

#[test]
fn the_surface_has_no_cracks() {
    let sel = block(12, 10, 1, 1, 11, 8);
    for shape in Shape::ALL {
        let out = raster(cut(shape), &sel, 12, 10);
        for y in 1..7 {
            for x in 1..10 {
                let here = out[y * 12 + x].unwrap();
                let beside = out[y * 12 + x + 1].unwrap();
                let below = out[(y + 1) * 12 + x].unwrap();
                assert_eq!(here[2], beside[1], "{shape:?} at {x},{y}");
                assert_eq!(here[3], below[0], "{shape:?} at {x},{y}");
            }
        }
    }
}
