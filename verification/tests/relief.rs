use normalmapper::normalmap::{HeightSource, Kernel, Settings, Surface};
use normalmapper::pixels::{Pixels, Rgba};
use normalmapper::relief::{
    fitted_dims, nearest_rung, percent, rung_value, Baked, Relief, Side, Tool, FLAT, MAX_SIDE,
    STEPS,
};
use normalmapper::shape::{Curve, Cut, Shape, Span};
use normalmapper::sheet::{Change, Edit};
use normalmapper::theme::Icon;

fn flat_relief() -> Relief {
    let mut r = Relief::default();
    r.resize(4, 4);
    r
}

/// A height between nothing and everything as the brush keeps it.
fn height(v: f32) -> u8 {
    (v.clamp(0.0, 1.0) * 255.0).round() as u8
}

fn encode(v: f32) -> u8 {
    ((v * 0.5 + 0.5).clamp(0.0, 1.0) * 255.0).round() as u8
}

fn settings() -> Settings<f32> {
    Settings {
        source: HeightSource::Luminance,
        kernel: Kernel::Sobel,
        strength: 2.0,
        blur: 0.0,
        contrast: 1.0,
        invert_height: false,
        ignore_transparent: false,
        flip_x: false,
        flip_y: false,
        tileable: false,
        ao_radius: 8.0,
        ao_strength: 1.0,
        roughness_base: 0.4,
        roughness_detail: 8.0,
        roughness_invert: false,
    }
}

fn slope(s: Surface<f32>, t: u8, l: u8, r: u8, b: u8) -> (u8, u8, u8) {
    let at = |v: u8| v as f32 / 255.0;
    let dx = (at(r) - at(l)) * s.depth;
    let dy = (at(b) - at(t)) * s.depth;
    let sx = if s.flip_x { -1.0 } else { 1.0 };
    let sy = if s.flip_y { -1.0 } else { 1.0 };
    let (nx, ny, nz) = (-dx * sx, dy * sy, 1.0f32);
    let len = (nx * nx + ny * ny + nz * nz).sqrt();
    (encode(nx / len), encode(ny / len), encode(nz / len))
}

fn bake(r: &Relief, settings: &Settings<f32>) -> Baked {
    r.bake(
        settings,
        2.0,
        slope,
        |t, l, r, b| ((t as u32 + l as u32 + r as u32 + b as u32) / 4) as u8,
        |_, edges| vec![255; edges.len()],
        |s, edges| vec![height(s.roughness_base); edges.len()],
        None,
    )
}

fn cut(shape: Shape) -> Cut<f32> {
    Cut {
        shape,
        floor: 0.0,
        peak: 1.0,
        width: 3.0,
        concave: false,
    }
}

fn dome(c: Curve<f32>, own: u64, beyond: u64) -> u8 {
    let Span::Deepest(deepest) = c.span else {
        unreachable!("a dome fills its region")
    };
    let d = (own as f32).sqrt() * 0.5 + (beyond as f32).sqrt() * 0.5;
    let t = (d / (deepest as f32).sqrt().max(1e-6)).clamp(0.0, 1.0);
    height((1.0 - (1.0 - t) * (1.0 - t)).sqrt())
}

fn px(p: &Pixels, x: u32, y: u32) -> [u8; 4] {
    let Rgba { r, g, b, a } = p.get_pixel(x, y);
    [r, g, b, a]
}

/// The whole promise: right higher than left tilts the surface, and the
/// normal leans the way the slope says.
#[test]
fn edge_heights_become_the_slope() {
    let mut r = flat_relief();
    r.begin_stroke();
    r.side = Side::Right;
    r.value = height(1.0);
    r.stamp(1, 1);
    r.side = Side::Left;
    r.value = height(0.0);
    r.stamp(1, 1);
    r.end_stroke();

    let baked = bake(&r, &settings());
    let p = px(&baked.normal, 1, 1);
    // right > left means the height rises to the right, so the normal leans
    // left: X below the 128 neutral.
    assert!(p[0] < 128, "expected a left-leaning normal, got {p:?}");
    // Nothing was said about top or bottom, so there is no vertical tilt.
    assert_eq!(p[1], 128);
    // And an untouched texel stays flat.
    assert_eq!(px(&baked.normal, 0, 0)[..3], [128, 128, 255]);
}

/// The vertical half of the same promise, and the axis that is easy to get
/// backwards: a texel whose bottom edge stands higher than its top slopes up
/// as you go down, so its normal leans up the canvas.
#[test]
fn a_high_bottom_edge_leans_the_normal_up() {
    let mut r = flat_relief();
    r.begin_stroke();
    r.side = Side::Bottom;
    r.value = height(1.0);
    r.stamp(1, 1);
    r.side = Side::Top;
    r.value = height(0.0);
    r.stamp(1, 1);
    r.end_stroke();

    let baked = bake(&r, &settings());
    let p = px(&baked.normal, 1, 1);
    assert!(p[1] > 128, "expected an up-leaning normal, got {p:?}");
    assert_eq!(p[0], 128, "and nothing sideways");
    let dx = Settings {
        flip_y: true,
        ..settings()
    };
    assert!(
        px(&bake(&r, &dx).normal, 1, 1)[1] < 128,
        "DirectX is the other way round"
    );
}

/// A shape writes all four canvases, and has to come back off in one press: an
/// artist who has to hit Undo four times will stop trusting it.
#[test]
fn a_shape_applies_and_undoes_as_one_step() {
    let mut r = Relief::default();
    r.resize(16, 16);
    r.select_all();
    assert!(r.apply_shape(&cut(Shape::Dome), dome) > 0);
    assert!(
        Side::ALL.iter().all(|&s| r.drawn(s)),
        "all four are written"
    );

    r.undo();
    assert!(!r.has_content(), "and all four come back off together");
    r.redo();
    assert!(Side::ALL.iter().all(|&s| r.drawn(s)));
}

/// The end of the chain: a dome laid down as edge heights bakes to a normal
/// map whose rims lean outwards, which is what makes it read as round when a
/// light goes past.
#[test]
fn a_domes_rims_lean_apart() {
    let mut r = Relief::default();
    r.resize(16, 16);
    r.select_all();
    r.apply_shape(&cut(Shape::Dome), dome);

    let baked = bake(&r, &settings());
    let left = px(&baked.normal, 0, 8)[0];
    let right = px(&baked.normal, 15, 8)[0];
    let top = px(&baked.normal, 8, 0)[1];
    let bottom = px(&baked.normal, 8, 15)[1];
    assert!(left < 128, "the left rim faces left, got {left}");
    assert!(right > 128, "the right rim faces right, got {right}");
    assert!(top > 128, "the top rim faces up, got {top}");
    assert!(bottom < 128, "the bottom rim faces down, got {bottom}");
}

/// A selection names texels by index, so it cannot outlive a resize.
#[test]
fn resizing_drops_the_selection() {
    let mut r = Relief::default();
    r.resize(16, 16);
    r.select_all();
    assert_eq!(r.selected_count(), 256);
    r.resize(8, 8);
    assert_eq!(r.selected_count(), 0);
}

#[test]
fn unpainted_texels_bake_flat() {
    let r = flat_relief();
    assert!(!r.has_content());
    let baked = bake(&r, &settings());
    for y in 0..4 {
        for x in 0..4 {
            assert_eq!(px(&baked.normal, x, y)[..3], [128, 128, 255]);
        }
    }
}

#[test]
fn a_stroke_undoes_and_redoes_as_one() {
    let mut r = flat_relief();
    r.begin_stroke();
    r.stroke_to(0, 0);
    r.stroke_to(3, 0);
    r.end_stroke();
    assert!(r.drawn(Side::Top));

    r.undo();
    assert!(!r.drawn(Side::Top), "one stroke should undo in one step");
    r.redo();
    assert!(r.drawn(Side::Top));
}

/// A stroke that crosses its own path still undoes to where the canvas
/// started, not to the middle of itself.
#[test]
fn a_texel_painted_twice_undoes_to_the_start() {
    let mut r = flat_relief();
    r.begin_stroke();
    r.value = height(0.25);
    r.stamp(1, 1);
    r.end_stroke();

    r.begin_stroke();
    r.value = height(0.5);
    r.stamp(1, 1);
    r.value = height(1.0);
    r.stamp(1, 1);
    r.end_stroke();
    assert_eq!(r.get(Side::Top, 1, 1), Some(255));

    r.undo();
    assert_eq!(r.get(Side::Top, 1, 1), Some(64));
    r.redo();
    assert_eq!(r.get(Side::Top, 1, 1), Some(255));
}

/// A stroke that puts everything back where it found it is not history.
#[test]
fn a_stroke_that_changes_nothing_is_not_recorded() {
    let mut r = flat_relief();
    r.begin_stroke();
    r.value = height(0.25);
    r.stamp(1, 1);
    r.end_stroke();

    r.begin_stroke();
    r.value = height(1.0);
    r.stamp(1, 1);
    r.value = height(0.25);
    r.stamp(1, 1);
    r.end_stroke();
    assert!(!r.can_redo());

    r.undo();
    assert_eq!(
        r.get(Side::Top, 1, 1),
        None,
        "one undo should reach bare canvas"
    );
}

#[test]
fn a_dragged_stroke_leaves_no_gaps() {
    let mut r = flat_relief();
    r.begin_stroke();
    r.stroke_to(0, 0);
    r.stroke_to(3, 3);
    r.end_stroke();
    for i in 0..4 {
        assert!(r.get(Side::Top, i, i).is_some(), "gap at {i}");
    }
}

#[test]
fn fill_stops_at_a_different_height() {
    let mut r = flat_relief();
    r.begin_stroke();
    r.value = height(1.0);
    for y in 0..4 {
        r.stamp(1, y);
    }
    r.end_stroke();

    r.begin_stroke();
    r.tool = Tool::Bucket;
    r.value = height(0.25);
    r.stamp(0, 0);
    r.end_stroke();

    // The left column is filled, the painted wall is untouched, and the far
    // side never got reached.
    assert_eq!(r.get(Side::Top, 0, 3), Some(64));
    assert_eq!(r.get(Side::Top, 1, 0), Some(255));
    assert_eq!(r.get(Side::Top, 3, 0), None);
}

/// Raise and Lower move by a rung, so a texel nudged from a swatch lands on a
/// swatch.
#[test]
fn nudging_stays_on_the_ramp() {
    let mut r = flat_relief();
    r.begin_stroke();
    r.value = height(0.3);
    r.stamp(0, 0);
    r.tool = Tool::Raise;
    r.stamp(0, 0);
    r.stamp(0, 0);
    r.end_stroke();
    assert_eq!(
        r.get(Side::Top, 0, 0),
        Some(FLAT),
        "0.3 up two rungs is 0.5"
    );

    r.begin_stroke();
    r.tool = Tool::Lower;
    for _ in 0..10 {
        r.stamp(0, 0);
    }
    r.end_stroke();
    assert_eq!(r.get(Side::Top, 0, 0), Some(0), "should stop at the floor");
}

#[test]
fn resize_keeps_what_still_fits() {
    let mut r = flat_relief();
    r.begin_stroke();
    r.value = height(1.0);
    r.stamp(0, 0);
    r.stamp(3, 3);
    r.end_stroke();

    r.resize(2, 2);
    assert_eq!(r.get(Side::Top, 0, 0), Some(255));
    assert_eq!(r.dims(), (2, 2));
}

#[test]
fn fit_to_caps_at_the_maximum() {
    let mut r = Relief::default();
    r.fit_to(4096, 2048);
    assert_eq!(r.dims(), (MAX_SIDE, MAX_SIDE / 2));
}

#[test]
fn the_ramp_is_tenths_rounded() {
    let ramp: Vec<u8> = (0..STEPS as i32).map(rung_value).collect();
    assert_eq!(ramp, [0, 26, 51, 77, 102, 128, 153, 179, 204, 230, 255]);
    for (i, v) in ramp.iter().enumerate() {
        assert_eq!(nearest_rung(*v), i as i32);
        let float = (i as f32).clamp(0.0, 10.0) * 0.1 * 255.0;
        assert_eq!(*v, float.round() as u8);
    }
    assert_eq!(rung_value(-3), 0);
    assert_eq!(rung_value(99), 255);
    for v in 0..=255u8 {
        assert_eq!(nearest_rung(v), (v as f32 / 255.0 / 0.1).round() as i32);
        assert_eq!(format!("{}", percent(v)), format!("{:.0}", v as f32 / 2.55));
    }
}

#[test]
fn fitting_rounds_as_single_precision_does() {
    assert_eq!(fitted_dims(0, 0), (1, 1));
    assert_eq!(fitted_dims(512, 3), (512, 3));
    assert_eq!(fitted_dims(100_000, 1), (512, 1));
    for (w, h) in [(513, 511), (1000, 777), (4_000_000_000, 3), (16_777_217, 9_999_999), (640, 1)] {
        let scale = (512.0 / u32::max(w, h) as f32).min(1.0);
        let want = (
            ((w as f32 * scale).round() as u32).max(1),
            ((h as f32 * scale).round() as u32).max(1),
        );
        assert_eq!(fitted_dims(w, h), want, "{w}x{h}");
    }
}

#[test]
fn a_drag_goes_where_single_precision_says() {
    let (x0, y0, x1, y1) = (3i32, 60i32, 61i32, 17i32);
    let mut r = Relief::default();
    r.resize(64, 64);
    r.begin_stroke();
    r.stroke_to(x0, y0);
    r.stroke_to(x1, y1);
    r.end_stroke();
    let steps = (x1 - x0).abs().max((y1 - y0).abs()).max(1);
    let mut want = vec![None; 64 * 64];
    for s in 0..=steps {
        let t = s as f32 / steps as f32;
        let x = (x0 as f32 + (x1 - x0) as f32 * t).round() as i32;
        let y = (y0 as f32 + (y1 - y0) as f32 * t).round() as i32;
        want[(y * 64 + x) as usize] = Some(179);
    }
    for y in 0..64 {
        for x in 0..64 {
            assert_eq!(r.get(Side::Top, x, y), want[(y * 64 + x) as usize]);
        }
    }
}

#[test]
fn a_drag_far_off_the_canvas_is_harmless() {
    let mut r = flat_relief();
    r.begin_stroke();
    r.stroke_to(-40_000, -40_000);
    r.stroke_to(40_000, 40_000);
    r.end_stroke();
    for i in 0..4 {
        assert_eq!(r.get(Side::Top, i, i), Some(179));
    }
}

#[test]
fn an_even_brush_reaches_up_and_left() {
    let mut r = flat_relief();
    r.brush = 2;
    r.stamp(2, 2);
    let painted: Vec<(i32, i32)> = (0..16)
        .map(|i| (i % 4, i / 4))
        .filter(|&(x, y)| r.get(Side::Top, x, y).is_some())
        .collect();
    assert_eq!(painted, [(1, 1), (2, 1), (1, 2), (2, 2)]);
    let mut r = flat_relief();
    r.brush = 3;
    r.stamp(0, 0);
    assert_eq!(r.get(Side::Top, 1, 1), Some(179));
    assert_eq!(r.get(Side::Top, 2, 0), None);
    let mut r = flat_relief();
    r.brush = u32::MAX;
    r.stamp(0, 0);
    assert!(!r.has_content());
    r.brush = 0;
    r.stamp(0, 0);
    assert!(!r.has_content());
}

#[test]
fn smoothing_reads_before_it_writes() {
    let mut r = flat_relief();
    r.value = 255;
    r.stamp(1, 1);
    r.tool = Tool::Smooth;
    r.brush = 8;
    r.stamp(2, 2);
    // 255 and four times flat.
    assert_eq!(r.get(Side::Top, 1, 1), Some(153));
    // A neighbour sees it once.
    assert_eq!(r.get(Side::Top, 0, 1), Some(153));
    assert_eq!(r.get(Side::Top, 2, 1), Some(153));
    // A corner, clamped at the border, does not.
    assert_eq!(r.get(Side::Top, 3, 3), Some(128));
}

#[test]
fn the_eraser_and_the_picker() {
    let mut r = flat_relief();
    r.value = 10;
    r.stamp(2, 1);
    r.value = 99;
    r.tool = Tool::Picker;
    r.stamp(0, 0);
    assert_eq!(r.value, 99, "nothing there to read");
    r.stamp(-1, 7);
    assert_eq!(r.value, 99);
    r.stamp(2, 1);
    assert_eq!(r.value, 10);
    r.tool = Tool::Eraser;
    r.stamp(2, 1);
    assert_eq!(r.get(Side::Top, 2, 1), None);
}

#[test]
fn filling_over_the_same_height_changes_nothing() {
    let mut r = flat_relief();
    r.tool = Tool::Bucket;
    r.value = 7;
    r.stamp(9, 9);
    assert!(!r.has_content());
    r.stamp(3, 3);
    let before = r.revision();
    r.stamp(0, 0);
    assert_eq!(r.revision(), before);
    assert_eq!(r.get(Side::Top, 0, 0), Some(7));
}

#[test]
fn undo_goes_back_sixty_four_strokes() {
    let mut r = flat_relief();
    for v in 0..70u8 {
        r.begin_stroke();
        r.value = v + 1;
        r.stamp(0, 0);
        r.end_stroke();
    }
    let mut steps = 0;
    while r.can_undo() {
        r.undo();
        steps += 1;
    }
    assert_eq!(steps, 64);
    assert_eq!(r.get(Side::Top, 0, 0), Some(6));
    while r.can_redo() {
        r.redo();
    }
    assert_eq!(r.get(Side::Top, 0, 0), Some(70));
}

#[test]
fn a_new_stroke_drops_what_was_undone() {
    let mut r = flat_relief();
    for x in 0..2 {
        r.begin_stroke();
        r.stamp(x, 0);
        r.end_stroke();
    }
    r.undo();
    assert!(r.can_redo());
    r.begin_stroke();
    r.stamp(3, 3);
    r.end_stroke();
    assert!(!r.can_redo());
}

#[test]
fn undo_shows_the_side_it_was_on() {
    let mut r = flat_relief();
    r.side = Side::Bottom;
    r.begin_stroke();
    r.stamp(0, 0);
    r.end_stroke();
    r.side = Side::Left;
    r.undo();
    assert_eq!(r.side, Side::Bottom);
    r.side = Side::Left;
    r.redo();
    assert_eq!(r.side, Side::Bottom);
    r.undo();
    r.side = Side::Right;
    r.undo();
    assert_eq!(r.side, Side::Right, "nothing left to undo");
}

#[test]
fn clearing_a_side_is_one_step() {
    let mut r = flat_relief();
    r.begin_stroke();
    r.stamp(0, 0);
    r.stamp(2, 3);
    r.side = Side::Left;
    r.stamp(1, 1);
    r.end_stroke();
    r.clear_side(Side::Top);
    assert!(!r.drawn(Side::Top));
    assert!(r.drawn(Side::Left));
    r.undo();
    assert_eq!(r.get(Side::Top, 2, 3), Some(179));
    let before = r.revision();
    r.clear_side(Side::Bottom);
    assert_eq!(r.revision(), before, "a bare side is left alone");
}

#[test]
fn selecting_by_colour_and_adding_to_it() {
    let mut img = Pixels::from_pixel(4, 4, Rgba { r: 1, g: 1, b: 1, a: 255 });
    for y in 0..4 {
        img.put_pixel(2, y, Rgba { r: 200, g: 1, b: 1, a: 255 });
        img.put_pixel(3, y, Rgba { r: 0, g: 0, b: 0, a: 0 });
    }
    let mut r = flat_relief();
    r.select_at(&img, 0, 0, false);
    assert_eq!(r.selected_count(), 8);
    r.select_at(&img, 2, 0, true);
    assert_eq!(r.selected_count(), 12);
    r.select_at(&img, 3, 3, false);
    assert_eq!(r.selected_count(), 4);
    assert!(r.selection()[3] && !r.selection()[0]);
    r.select_at(&img, 4, 0, false);
    assert_eq!(r.selected_count(), 4, "off the canvas nothing happens");
    r.select_opaque(&img);
    assert_eq!(r.selected_count(), 12);
    assert!(r.has_selection());
    r.clear_selection();
    assert!(!r.has_selection());
    let before = r.revision();
    r.clear_selection();
    assert_eq!(r.revision(), before);
    assert_eq!(r.apply_shape(&cut(Shape::Dome), dome), 0, "no region, no shape");
    assert!(!r.has_content() && !r.can_undo());
}

#[test]
fn the_bake_is_lit_on_the_image_at_the_canvas_size() {
    let mut img = Pixels::from_pixel(8, 8, Rgba { r: 0, g: 0, b: 0, a: 255 });
    for y in 0..8 {
        for x in 4..8 {
            img.put_pixel(x, y, Rgba { r: 200, g: 100, b: 50, a: 255 });
        }
    }
    let r = flat_relief();
    let baked = r.bake(
        &settings(),
        2.0,
        |_, _, _, _, _| (1, 2, 3),
        |t, _, _, _| t,
        |_, edges| vec![9; edges.len()],
        |_, edges| vec![8; edges.len()],
        Some(&img),
    );
    let s = &baked.shading;
    assert_eq!((s.width, s.height), (4, 4));
    assert_eq!((s.albedo.width, s.albedo.height), (4, 4));
    assert_eq!(px(&s.albedo, 0, 0), [0, 0, 0, 255]);
    assert_eq!(px(&s.albedo, 3, 3), [200, 100, 50, 255]);
    assert_eq!(px(&s.normal, 2, 2), [1, 2, 3, 255]);
    assert_eq!(px(&s.ao, 2, 2), [9, 9, 9, 255]);
    assert_eq!(px(&s.roughness, 2, 2), [8, 8, 8, 255]);
    assert_eq!(px(&baked.height, 1, 1), [128, 128, 128, 255]);
    let neutral = bake(&r, &settings());
    assert_eq!(px(&neutral.shading.albedo, 1, 2), [204, 204, 204, 255]);
}

fn sync(r: &mut Relief, moved: bool, red: u8) {
    r.sync(
        moved,
        &settings(),
        2.0,
        |_, _, _, _, _| (red, 0, 0),
        |_, _, _, _| 0,
        |_, edges| vec![0; edges.len()],
        |_, edges| vec![0; edges.len()],
        None,
    );
}

#[test]
fn sync_does_nothing_unless_something_changed() {
    let red = |r: &Relief| px(&r.baked().unwrap().normal, 0, 0)[0];
    let mut r = flat_relief();
    assert!(r.baked().is_none());
    assert!(!r.refresh_normal());
    sync(&mut r, false, 1);
    assert_eq!(red(&r), 1);
    sync(&mut r, false, 2);
    assert_eq!(red(&r), 1, "nothing moved");
    sync(&mut r, true, 3);
    assert_eq!(red(&r), 3);
    r.stamp(0, 0);
    sync(&mut r, false, 4);
    assert_eq!(red(&r), 4);
    r.touch();
    sync(&mut r, false, 5);
    assert_eq!(red(&r), 5);

    assert!(r.refresh_canvas());
    assert!(!r.refresh_canvas());
    assert!(r.canvas_shown(Side::Top) && !r.canvas_shown(Side::Left));
    r.side = Side::Left;
    assert!(r.refresh_canvas(), "another side");
    r.stamp(1, 1);
    assert!(r.refresh_canvas(), "another revision");
    assert!(r.refresh_normal());
    assert!(!r.refresh_normal());
}

#[test]
fn canvases_as_images() {
    let mut r = flat_relief();
    r.value = 40;
    r.stamp(1, 0);
    let canvas = r.canvas_image(Side::Top);
    assert_eq!(px(&canvas, 1, 0), [40, 40, 40, 255]);
    assert_eq!(px(&canvas, 0, 0), [0, 0, 0, 0], "nothing here");
    let side = r.side_image(Side::Top);
    assert_eq!(px(&side, 1, 0), [40, 40, 40, 255]);
    assert_eq!(px(&side, 0, 0), [128, 128, 128, 255], "flat");
}

#[test]
fn the_pointer_draws_while_it_is_held() {
    let mut r = flat_relief();
    r.follow(false, Some((0, 0)));
    assert!(!r.stroking() && !r.has_content());
    r.follow(true, Some((0, 0)));
    assert!(r.stroking());
    r.follow(true, None);
    r.follow(true, Some((3, 0)));
    r.follow(false, None);
    assert!(!r.stroking());
    for x in 0..4 {
        assert_eq!(r.get(Side::Top, x, 0), Some(179));
    }
    r.undo();
    assert!(!r.has_content());
}

#[test]
fn an_image_sizes_an_untouched_relief_only() {
    let mut r = Relief::default();
    assert_eq!(r.dims(), (32, 32));
    assert!(r.unlike_image(64, 16));
    r.take_image(64, 16);
    assert_eq!(r.dims(), (64, 16));
    assert_eq!(r.new_size, [64, 16]);
    assert!(!r.unlike_image(64, 16) && !r.size_asked());
    r.stamp(0, 0);
    let before = r.revision();
    r.take_image(8, 8);
    assert_eq!(r.dims(), (64, 16));
    assert_eq!(r.revision(), before + 1);
    r.new_size = [65, 16];
    assert!(r.size_asked());
    r.resize(0, 9999);
    assert_eq!(r.dims(), (1, 512));
}

#[test]
fn sides_and_tools_say_what_they_are() {
    assert_eq!(Side::ALL.map(Side::index), [0, 1, 2, 3]);
    assert_eq!(Side::ALL.map(Side::label), ["Top", "Left", "Right", "Bottom"]);
    assert_eq!(Side::ALL.map(Side::suffix), ["top", "left", "right", "bottom"]);
    assert_eq!(Tool::Bucket.label(), "Fill");
    assert_eq!(Tool::Raise.hint(), "Nudge the texels under the brush up");
    let icons = Tool::ALL.map(Tool::icon);
    assert_eq!(icons[0], Icon::Pencil);
    assert_eq!(icons[6], Icon::Smooth);
}

#[test]
fn an_edit_shows_the_side_of_its_first_change() {
    let change = |side, texel| Change {
        side,
        texel,
        before: None,
        after: Some(1),
    };
    let edit = Edit {
        changes: vec![change(Side::Right, 4), change(Side::Top, 0)],
    };
    assert_eq!(edit.side(), Some(Side::Right));
    assert_eq!(Edit { changes: vec![] }.side(), None);
}

#[test]
fn going_back_and_forth_retraces_the_same_canvases() {
    let mut r = flat_relief();
    let mut seen = vec![];
    let snapshot = |r: &Relief| Side::ALL.map(|s| r.canvas_image(s).data);
    for (i, side) in Side::ALL.iter().enumerate() {
        seen.push(snapshot(&r));
        r.side = *side;
        r.tool = [Tool::Pencil, Tool::Bucket, Tool::Raise, Tool::Smooth][i];
        r.brush = 2;
        r.follow(true, Some((0, 3)));
        r.follow(true, Some((3, 1)));
        r.follow(false, None);
    }
    seen.push(snapshot(&r));
    for want in seen.iter().rev().skip(1) {
        r.undo();
        assert_eq!(&snapshot(&r), want);
    }
    for want in &seen[1..] {
        r.redo();
        assert_eq!(&snapshot(&r), want);
    }
    assert!(!r.can_redo());
}

fn pictures(b: &Baked) -> Vec<Vec<u8>> {
    let s = &b.shading;
    [&b.normal, &b.height, &s.albedo, &s.normal, &s.ao, &s.roughness]
        .map(|p| p.data.clone())
        .to_vec()
}

/// "Nothing here" and "flat, deliberately" look different on the canvas, and
/// bake alike.
#[test]
fn painted_flat_bakes_as_unpainted() {
    let bare = flat_relief();
    let mut flat = flat_relief();
    flat.value = FLAT;
    flat.brush = 8;
    for side in Side::ALL {
        flat.side = side;
        flat.stamp(2, 2);
    }
    assert_eq!(flat.get(Side::Left, 3, 3), Some(FLAT));
    let (a, b) = (bake(&bare, &settings()), bake(&flat, &settings()));
    assert_eq!(pictures(&a), pictures(&b));
}

#[test]
fn the_images_strength_cannot_move_the_relief() {
    let mut r = flat_relief();
    r.side = Side::Left;
    r.value = 255;
    r.stamp(1, 1);
    let steep = Settings {
        strength: 19.0,
        source: HeightSource::Blue,
        kernel: Kernel::Pixel,
        blur: 4.0,
        contrast: 3.0,
        invert_height: true,
        ignore_transparent: true,
        ..settings()
    };
    let plain = pictures(&bake(&r, &settings()));
    assert_eq!(plain, pictures(&bake(&r, &steep)));
    let rough = Settings {
        roughness_base: 1.0,
        ..settings()
    };
    assert_ne!(plain, pictures(&bake(&r, &rough)));
    assert_eq!(steep.surface(2.0), settings().surface(2.0));
    assert_eq!(steep.surface(2.0).depth, 2.0);
}

#[test]
fn a_straight_drag_from_far_off_leaves_no_gaps() {
    let mut r = flat_relief();
    r.begin_stroke();
    r.stroke_to(-1_000_000, 2);
    r.stroke_to(7, 2);
    r.end_stroke();
    for x in 0..4 {
        assert_eq!(r.get(Side::Top, x, 2), Some(179));
        assert_eq!(r.get(Side::Top, x, 1), None);
    }
}

#[test]
fn off_the_canvas_the_wand_does_not_look() {
    let empty = Pixels {
        width: 0,
        height: 0,
        data: vec![],
    };
    let mut r = flat_relief();
    let before = r.revision();
    r.select_at(&empty, -1, 0, false);
    r.select_at(&empty, 0, 4, true);
    assert_eq!(r.revision(), before);
}

/// Strokes come off newest first, the side on show is one that changed, and an
/// undo in the middle does not disturb what is before it.
#[test]
fn a_session_is_a_timeline() {
    let canvases = |r: &Relief| Side::ALL.map(|s| r.canvas_image(s).data);
    let stroke = |r: &mut Relief, side, x: i32| {
        r.side = side;
        r.follow(true, Some((x, 0)));
        r.follow(true, Some((x, 3)));
        r.follow(false, None);
    };
    let mut r = flat_relief();
    let mut past = vec![canvases(&r)];
    stroke(&mut r, Side::Top, 0);
    past.push(canvases(&r));
    stroke(&mut r, Side::Left, 1);
    r.undo();
    assert_eq!(canvases(&r), past[1]);
    stroke(&mut r, Side::Bottom, 2);
    past.push(canvases(&r));
    stroke(&mut r, Side::Bottom, 2);
    assert_eq!(canvases(&r), past[2], "the same again is not history");
    r.side = Side::Right;
    r.undo();
    assert_eq!((canvases(&r), r.side), (past[1].clone(), Side::Bottom));
    r.undo();
    assert_eq!((canvases(&r), r.side), (past[0].clone(), Side::Top));
    r.undo();
    assert_eq!(canvases(&r), past[0]);
    r.redo();
    r.redo();
    r.redo();
    assert_eq!(canvases(&r), past[2]);
}
