use normalmapper::batch::{
    failure, is_image, progress, summary, Batch, IMAGE_EXTENSIONS,
};
use normalmapper::light::Freshness;
use normalmapper::normalmap::MapKind;
use normalmapper::relief::{Relief, Side, Tool};
use normalmapper::session::{
    export_names, file_name, lit_source, Dispatch, Lit, Pipeline, Saving, Screen, Stage, DEBOUNCE,
};
use normalmapper::text::{decimal, join_lines, words_match};
use normalmapper::theme::rgb;
use normalmapper::zoom::{snap, step_up};

const ZOOM_MIN: f32 = 1.0 / 64.0;
const ZOOM_MAX: f32 = 64.0;

fn ladder_snap(zoom: f32) -> f32 {
    2f32.powi(snap(|rung| 2f32.powi(rung) <= zoom * 1.0001))
}

fn ladder_step(zoom: f32, dir: i32) -> f32 {
    2f32.powi(if dir > 0 {
        step_up(|rung| 2f32.powi(rung) > zoom * 1.0001)
    } else {
        snap(|rung| 2f32.powi(rung) < zoom * 0.9999)
    })
}

#[test]
fn ladder_snaps_down_to_a_rung() {
    assert_eq!(ladder_snap(1.0), 1.0);
    assert_eq!(ladder_snap(3.9), 2.0);
    assert_eq!(ladder_snap(0.7), 0.5);
    assert_eq!(ladder_snap(0.001), ZOOM_MIN);
    assert_eq!(ladder_snap(1000.0), 64.0);
}

#[test]
fn ladder_steps_move_exactly_one_rung() {
    assert_eq!(ladder_step(1.0, 1), 2.0);
    assert_eq!(ladder_step(1.0, -1), 0.5);
    // A value between rungs steps to the next one either way.
    assert_eq!(ladder_step(3.0, 1), 4.0);
    assert_eq!(ladder_step(3.0, -1), 2.0);
    // And it saturates rather than running off the end.
    assert_eq!(ladder_step(64.0, 1), ZOOM_MAX);
    assert_eq!(ladder_step(ZOOM_MIN, -1), ZOOM_MIN);
}

#[test]
fn what_is_on_screen_is_what_is_saved() {
    let suffix = |s: Screen, loaded| s.to_save(loaded).suffix();
    let normal = Screen::Kind(MapKind::Normal);
    assert_eq!(suffix(normal, true), Some("normal".to_owned()));
    assert_eq!(normal.to_save(false), Saving::Nothing);
    assert_eq!(suffix(normal, false), None);
    assert_eq!(
        suffix(Screen::Paint(Side::Left), false),
        Some("relief_left".to_owned())
    );
    assert_eq!(
        suffix(Screen::Relief, false),
        Some("relief_normal".to_owned())
    );
    assert_eq!(Screen::Source.to_save(true), Saving::Unclear);
    assert_eq!(suffix(Screen::Source, true), None);
}

#[test]
fn a_normal_map_does_not_survive_jpeg() {
    let normal = Saving::Kind(MapKind::Normal);
    assert!(normal.spoiled_by("jpg") && normal.spoiled_by("JPEG"));
    assert!(Saving::Baked.spoiled_by("Jpg"));
    assert!(!normal.spoiled_by("png"));
    assert!(!Saving::Kind(MapKind::Ao).spoiled_by("jpg"));
}

#[test]
fn files_are_named_after_the_image() {
    assert_eq!(file_name("brick", "normal"), "brick_normal.png");
    assert_eq!(
        export_names("brick", false),
        [
            "brick_height.png",
            "brick_normal.png",
            "brick_ao.png",
            "brick_roughness.png"
        ]
    );
    let with = export_names("é", true);
    assert_eq!(with.len(), 6);
    assert_eq!(with[4], "é_relief_normal.png");
    assert_eq!(with[5], "é_relief_height.png");
}

#[test]
fn relief_views_are_texels_whatever_the_mode() {
    assert!(Screen::Relief.pixel_view(false));
    assert!(Screen::Paint(Side::Top).pixel_view(false));
    assert!(!Screen::Source.pixel_view(false));
    assert!(Screen::Source.pixel_view(true));
    assert_eq!(Screen::Relief.native((3, 4), None), Some((3, 4)));
    assert_eq!(Screen::Source.native((3, 4), None), None);
    assert_eq!(
        Screen::Kind(MapKind::Ao).native((3, 4), Some((9, 8))),
        Some((9, 8))
    );
}

#[test]
fn the_stage_follows_the_relief() {
    let mut stage = Stage::default();
    let mut relief = Relief::default();
    assert!(stage.screen == Screen::Kind(MapKind::Normal) && stage.fit);
    stage.fit = false;
    stage.pick_tool(&mut relief, Tool::Raise);
    assert_eq!(stage.screen, Screen::Paint(Side::Top));
    assert!(stage.fit && relief.tool == Tool::Raise);
    stage.fit = false;
    stage.pick_tool(&mut relief, Tool::Pencil);
    assert!(!stage.fit, "a canvas was open already");
    stage.show_side(&mut relief, Side::Right);
    assert_eq!(relief.side, Side::Right);
    relief.follow(true, Some((0, 0)));
    relief.follow(false, None);
    stage.show_side(&mut relief, Side::Left);
    stage.undo(&mut relief);
    assert_eq!(stage.screen, Screen::Paint(Side::Right));
    stage.show_baked();
    assert_eq!(stage.screen, Screen::Relief);
    stage.redo(&mut relief);
    assert_eq!(stage.screen, Screen::Paint(Side::Right));
}

#[test]
fn a_burst_makes_one_request_and_stale_results_are_dropped() {
    let mut p = Pipeline::default();
    assert_eq!(p.dispatch(None, true), Dispatch::Idle);
    assert_eq!(
        p.dispatch(Some(DEBOUNCE - 1), true),
        Dispatch::Wait(1),
        "still moving"
    );
    assert_eq!(p.dispatch(Some(DEBOUNCE), false), Dispatch::Forget);
    assert!(!p.pending);
    assert_eq!(p.dispatch(Some(DEBOUNCE), true), Dispatch::Request(1));
    assert_eq!(p.dispatch(Some(u64::MAX), true), Dispatch::Request(2));
    assert!(p.pending);
    assert!(!p.accept(1), "outrun");
    assert!(p.pending && p.map_revision == 0);
    assert!(p.accept(2));
    assert!(!p.pending && p.map_revision == 1);
}

#[test]
fn the_light_shows_the_relief_once_there_is_one() {
    let mut lit = Lit::default();
    let mut relief = Relief::default();
    assert!(!lit.feed(&relief, 0));
    assert_eq!(lit.revision, 1);
    assert!(!lit.feed(&relief, 0));
    assert_eq!(lit.revision, 1);
    lit.feed(&relief, 1);
    assert_eq!(lit.revision, 2);
    relief.stamp(0, 0);
    assert!(lit.feed(&relief, 1));
    assert_eq!(lit.revision, 3);
    assert_eq!(lit_source(true), "painted relief");
    assert_eq!(lit_source(false), "image");
}

#[test]
fn the_preview_is_shaded_when_something_moved() {
    let mut f = Freshness::default();
    assert!(f.take(true));
    assert!(!f.take(true));
    assert!(f.take(false), "there is nothing to show yet");
    f.look(3, false);
    assert!(f.take(true));
    f.look(3, false);
    assert!(!f.take(true));
    f.look(3, true);
    assert!(f.take(true));
    f.touch();
    assert!(f.take(true));
}

#[test]
fn batches_write_the_maps_that_are_ticked() {
    let mut b: Batch<String> = Batch::default();
    assert_eq!(b.kinds(), [MapKind::Normal]);
    assert!(!b.ready());
    assert!(!b.begin(3, "in"));
    assert!(b.report.is_none());
    b.pick_input("in".to_owned(), "in".to_owned());
    assert_eq!(b.output.as_deref(), Some("in"), "until another is picked");
    assert!(b.ready());
    b.pick_output("out".to_owned());
    b.pick_input("other".to_owned(), "other".to_owned());
    assert_eq!(b.output.as_deref(), Some("out"));
    b.selected = [true, false, false, true];
    assert_eq!(b.kinds(), [MapKind::Height, MapKind::Roughness]);
    b.selected = [false; 4];
    assert!(!b.ready());
    b.selected = [true; 4];
    assert_eq!(b.kinds(), MapKind::ALL);

    assert!(!b.begin(0, "other"));
    assert_eq!(b.report.as_deref(), Some("No images found in other"));
    assert!(b.begin(2, "other"));
    assert!(b.report.is_none() && b.total == Some(2));
    b.finish("ok".to_owned());
    assert!(b.total.is_none());
    b.finish("again".to_owned());
    assert_eq!(b.report.as_deref(), Some("ok"));
}

#[test]
fn a_run_is_summed_up() {
    assert_eq!(
        summary(12, 3, &vec![]),
        "Done — 12 image(s), 3 map(s) each."
    );
    let errors = vec![failure("a.png", "broken"), failure("b.png", "missing")];
    assert_eq!(
        summary(12, 3, &errors),
        "Finished with 2 error(s):\na.png: broken\nb.png: missing"
    );
    assert_eq!(progress(5, 100), "5 / 100");
}

#[test]
fn images_are_known_by_their_ending() {
    for ext in IMAGE_EXTENSIONS {
        assert!(is_image(Some(ext)));
        assert!(is_image(Some(&ext.to_uppercase())));
    }
    assert!(!is_image(Some("txt")) && !is_image(Some("pngx")) && !is_image(Some("")));
    assert!(!is_image(None));
}

#[test]
fn words_and_numbers() {
    assert_eq!(decimal(0), "0");
    assert_eq!(decimal(907), "907");
    assert_eq!(decimal(u64::MAX), u64::MAX.to_string());
    assert_eq!(join_lines(&vec![]), "");
    assert_eq!(
        join_lines(&vec!["".to_owned(), "x".to_owned()]),
        "\nx"
    );
    assert!(words_match("PnG", "png") && !words_match("É", "é"));
    assert!(!words_match("[", "{"));
    assert_eq!(rgb(0x4b57d6), [0x4b, 0x57, 0xd6]);
}

#[test]
fn a_full_counter_matters_only_when_it_counts() {
    let mut p = Pipeline {
        generation: u64::MAX,
        pending: false,
        map_revision: u64::MAX,
    };
    assert_eq!(p.dispatch(None, true), Dispatch::Idle);
    assert_eq!(p.dispatch(Some(0), true), Dispatch::Wait(DEBOUNCE));
    assert_eq!(p.dispatch(Some(DEBOUNCE), false), Dispatch::Forget);
    assert!(!p.accept(7), "stale");
    let relief = Relief::default();
    let mut lit = Lit {
        key: (false, 4, 0),
        revision: u64::MAX,
    };
    assert!(!lit.feed(&relief, 4));
    assert_eq!(lit.revision, u64::MAX);
}
