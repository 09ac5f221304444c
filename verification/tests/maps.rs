use normalmapper::cutout::nearest_opaque;
use normalmapper::normalmap::{generate, sample_index, window, HeightSource, Kernel, MapKind};
use normalmapper::pixels::{Pixels, Rgba};
use normalmapper::preview::{build_shading, downscale, fit_dims, LIGHT_MAX};

fn solid(w: u32, h: u32, v: u8) -> Pixels {
    Pixels::from_pixel(
        w,
        h,
        Rgba {
            r: v,
            g: v,
            b: v,
            a: 255,
        },
    )
}

#[test]
fn fit_dims_only_shrinks() {
    assert_eq!(fit_dims(32, 32, 512), (32, 32));
    assert_eq!(fit_dims(2048, 1024, 512), (512, 256));
}

#[test]
fn fit_dims_rounds_as_single_precision_does() {
    assert_eq!(fit_dims(0, 5, 512), (0, 5));
    assert_eq!(fit_dims(5000, 1, 512), (512, 1));
    assert_eq!(fit_dims(7, 9, 0), (1, 1));
    for (w, h, max) in [(1023, 1025, 1024), (3840, 2160, 1024), (777, 3, 100), (u32::MAX, 2, 9)] {
        let scale = max as f32 / u32::max(w, h) as f32;
        let want = (
            ((w as f32 * scale).round() as u32).max(1),
            ((h as f32 * scale).round() as u32).max(1),
        );
        assert_eq!(fit_dims(w, h, max), want, "{w}x{h} to {max}");
    }
}

#[test]
fn downscaling_resamples_and_keeps_what_fits() {
    let mut img = solid(4, 4, 0);
    for y in 0..4 {
        for x in 2..4 {
            img.put_pixel(
                x,
                y,
                Rgba {
                    r: 80,
                    g: 80,
                    b: 80,
                    a: 255,
                },
            );
        }
    }
    let same = downscale(&img, 4);
    assert_eq!(same.data, img.data);
    let small = downscale(&img, 2);
    assert_eq!((small.width, small.height), (2, 2));
    assert!(small.get_pixel(0, 0).r < small.get_pixel(1, 0).r);
    let big = image::RgbaImage::from_raw(4, 4, img.data.clone()).unwrap();
    let want = image::imageops::resize(&big, 2, 2, image::imageops::FilterType::Triangle);
    assert_eq!(small.data, want.into_raw());
}

#[test]
fn shading_takes_the_size_of_the_normals() {
    let maps = vec![
        (MapKind::Height, solid(600, 300, 1)),
        (MapKind::Normal, solid(1024, 256, 2)),
        (MapKind::Ao, solid(1024, 256, 3)),
        (MapKind::Normal, solid(8, 8, 9)),
        (MapKind::Roughness, solid(512, 128, 4)),
    ];
    let s = build_shading(&maps, &solid(16, 16, 5)).unwrap();
    assert_eq!((s.width, s.height), (LIGHT_MAX, 128));
    for (map, v) in [(&s.albedo, 5), (&s.normal, 2), (&s.ao, 3), (&s.roughness, 4)] {
        assert_eq!((map.width, map.height), (512, 128));
        assert_eq!(map.get_pixel(511, 127).r, v);
    }
    assert!(build_shading(&maps[..3], &solid(1, 1, 0)).is_none(), "no roughness");
    assert!(build_shading(&maps[2..], &solid(1, 1, 0)).is_some());
    assert!(build_shading(&[], &solid(1, 1, 0)).is_none());
}

#[test]
fn maps_come_in_the_order_asked_for() {
    let maps = generate(&[MapKind::Ao, MapKind::Height], |k| {
        solid(1, 1, if k == MapKind::Ao { 7 } else { 8 })
    });
    assert_eq!(maps.len(), 2);
    assert!(maps[0].0 == MapKind::Ao && maps[0].1.data[0] == 7);
    assert!(maps[1].0 == MapKind::Height && maps[1].1.data[0] == 8);
}

#[test]
fn borders_clamp_or_wrap() {
    assert_eq!(sample_index(-1, -5, 4, 3, false), 0);
    assert_eq!(sample_index(9, 9, 4, 3, false), 11);
    assert_eq!(sample_index(-1, 0, 4, 3, true), 3);
    assert_eq!(sample_index(4, 3, 4, 3, true), 0);
    assert_eq!(sample_index(i32::MIN, i32::MAX, 3, 2, true), {
        let x = i32::MIN.rem_euclid(3);
        let y = i32::MAX.rem_euclid(2);
        (y * 3 + x) as usize
    });
    assert_eq!(window(0, 0, 3, 3, true), [8, 6, 7, 2, 0, 1, 5, 3, 4]);
    assert_eq!(window(0, 0, 3, 3, false), [0, 0, 1, 0, 0, 1, 3, 3, 4]);
    assert_eq!(window(1, 1, 3, 3, false), [0, 1, 2, 3, 4, 5, 6, 7, 8]);
}

#[test]
fn kernels_are_differences() {
    assert_eq!(Kernel::Sobel.weights(), [-1, 0, 1, -2, 0, 2, -1, 0, 1]);
    assert_eq!(Kernel::Scharr.weights(), [-3, 0, 3, -10, 0, 10, -3, 0, 3]);
    assert_eq!(Kernel::Pixel.weights(), [0, 0, 0, -1, 0, 1, 0, 0, 0]);
    assert_eq!(Kernel::ALL.map(Kernel::divisor), [4, 16, 3, 2]);
    for k in Kernel::ALL {
        assert_eq!(k.weights().iter().sum::<i32>(), 0);
    }
    assert_eq!(Kernel::Prewitt.label(), "Prewitt");
}

#[test]
fn maps_and_sources_say_what_they_are() {
    assert_eq!(
        MapKind::ALL.map(MapKind::suffix),
        ["height", "normal", "ao", "roughness"]
    );
    assert_eq!(MapKind::Ao.label(), "AO");
    assert_eq!(HeightSource::ALL.len(), 6);
    assert_eq!(HeightSource::Average.label(), "Average RGB");
}

#[test]
fn transparent_texels_take_the_nearest_opaque() {
    let clear = Rgba {
        r: 1,
        g: 2,
        b: 3,
        a: 0,
    };
    let mut img = Pixels::from_pixel(5, 4, clear);
    assert_eq!(nearest_opaque(&img), (0..20).collect::<Vec<usize>>());
    let ink = Rgba {
        r: 9,
        g: 9,
        b: 9,
        a: 200,
    };
    img.put_pixel(1, 1, ink);
    img.put_pixel(4, 3, ink);
    let near = nearest_opaque(&img);
    let at = |x: usize, y: usize| near[y * 5 + x];
    assert_eq!(at(1, 1), 6);
    assert_eq!(at(4, 3), 19);
    assert_eq!(at(0, 0), 6);
    assert_eq!(at(4, 2), 19);
    for (i, &n) in near.iter().enumerate() {
        let d = |j: usize| {
            let (dx, dy) = ((i % 5).abs_diff(j % 5), (i / 5).abs_diff(j / 5));
            dx * dx + dy * dy
        };
        assert_eq!(d(n), d(6).min(d(19)));
    }
}

#[test]
fn the_longest_side_reaches_the_limit() {
    for (w, h) in [(513, 7), (3, 99_999), (u32::MAX, u32::MAX), (16_777_217, 1)] {
        for max in [1, 7, 512] {
            let (fw, fh) = fit_dims(w, h, max);
            assert_eq!(fw.max(fh), max, "{w}x{h} to {max}");
        }
    }
}
