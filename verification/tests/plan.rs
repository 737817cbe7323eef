use resizer::double::Double;
use resizer::plan::{
    crop_to_ratio, even, filter_chain, fit_within, image_quality_ladder, jpeg_q_from_percent,
    plan_video, EncodePlan, ImageFormat, MediaInfo, RateControl, Ratio, Settings, MIN_VIDEO_KBPS,
};

fn num(x: f64) -> Double {
    Double { bits: x.to_bits() }
}

fn info(w: u32, h: u32, dur: f64) -> MediaInfo {
    MediaInfo {
        width: w,
        height: h,
        rotation: 0,
        orientation: 1,
        duration_s: num(dur),
        fps: num(30.0),
        has_audio: true,
        is_video: true,
        size_bytes: 0,
    }
}

#[test]
fn crop_lands_exactly_on_ratio() {
    // 1920x1080 -> 4:5 must crop the width: 1080 * 4/5 = 864.
    assert_eq!(crop_to_ratio(1920, 1080, 4, 5), (864, 1080));
    // Portrait source taller than 4:5 crops the height instead.
    assert_eq!(crop_to_ratio(1080, 1920, 4, 5), (1080, 1350));
    // Already square stays untouched.
    assert_eq!(crop_to_ratio(500, 500, 1, 1), (500, 500));
}

#[test]
fn crop_never_loses_a_side() {
    assert_eq!(crop_to_ratio(2, 1, 1, 9), (1, 1));
    assert_eq!(crop_to_ratio(1, 1000, 16, 9), (1, 1));
    assert_eq!(crop_to_ratio(4000, 90, 4, 5), (72, 90));
    assert_eq!(crop_to_ratio(u32::MAX, u32::MAX, 1, 1), (u32::MAX, u32::MAX));
}

#[test]
fn fit_never_upscales() {
    assert_eq!(fit_within(640, 480, 1920, 1920), (640, 480));
    assert_eq!(fit_within(3840, 2160, 1920, 1080), (1920, 1080));
    // Height-bound fit.
    assert_eq!(fit_within(1080, 2400, 1080, 1350), (607, 1350));
}

#[test]
fn fit_agrees_with_the_machine() {
    let mut w: u32 = 1;
    while w < 5000 {
        let mut h: u32 = 3;
        while h < 5000 {
            for (mw, mh) in [(1920u32, 1080u32), (607, 1351), (2, 2), (1079, 4999)] {
                if w > mw || h > mh {
                    let s = f64::min(mw as f64 / w as f64, mh as f64 / h as f64);
                    let fw = ((w as f64 * s).floor() as u32).max(1);
                    let fh = ((h as f64 * s).floor() as u32).max(1);
                    assert_eq!(fit_within(w, h, mw, mh), (fw, fh), "{w}x{h} in {mw}x{mh}");
                    assert!(fw <= mw.max(1) && fh <= mh.max(1));
                }
            }
            h += 311;
        }
        w += 257;
    }
}

#[test]
fn dimensions_are_always_even() {
    let s = Settings {
        max_width: 607,
        max_height: 1351,
        ..Settings::default()
    };
    let p = plan_video(&info(607, 1351, 5.0), &s);
    assert_eq!(p.out_w % 2, 0);
    assert_eq!(p.out_h % 2, 0);
    assert!(p.out_w >= 2 && p.out_h >= 2);
}

#[test]
fn even_keeps_at_least_two() {
    assert_eq!(even(0), 2);
    assert_eq!(even(1), 2);
    assert_eq!(even(7), 6);
    assert_eq!(even(u32::MAX), u32::MAX - 1);
}

#[test]
fn hover_preset_crops_landscape_source_to_4_5() {
    let s = Settings::hover();
    let p = plan_video(&info(1920, 1080, 8.0), &s);
    assert_eq!(p.crop, Some((864, 1080)));
    assert_eq!((p.out_w, p.out_h), (864, 1080));
    // Hover strips audio by default.
    assert_eq!(p.audio_kbps, None);
    // Aspect is 4:5.
    assert!((p.out_w as f64 / p.out_h as f64 - 0.8).abs() < 0.01);
}

#[test]
fn rotated_source_uses_display_dimensions() {
    let mut i = info(1920, 1080, 5.0);
    i.rotation = 90; // phone video: displayed as 1080x1920
    assert_eq!(i.display_dims(), (1080, 1920));
    let s = Settings {
        ratio: Ratio::Original,
        max_width: 1080,
        max_height: 1920,
        ..Settings::default()
    };
    let p = plan_video(&i, &s);
    assert_eq!((p.out_w, p.out_h), (1080, 1920));
}

#[test]
fn every_quarter_turn_is_told_apart() {
    let mut i = info(1920, 1080, 5.0);
    for (rotation, turned) in [
        (0, false),
        (-90, true),
        (180, false),
        (-180, false),
        (270, true),
        (-270, true),
        (45, false),
        (i32::MIN, false),
    ] {
        i.rotation = rotation;
        assert_eq!(i.display_dims() == (1080, 1920), turned, "{rotation}");
    }
    // Images go by their orientation where it is known.
    i.is_video = false;
    i.rotation = 90;
    for orientation in 1..=8u8 {
        i.orientation = orientation;
        assert_eq!(i.display_dims() == (1080, 1920), orientation >= 5);
    }
    // Where it is not, by their rotation, and the pixels are turned alike.
    for orientation in [0, 9, 255u8] {
        i.orientation = orientation;
        for (rotation, turned, orient) in [
            (0, false, None),
            (90, true, Some(8)),
            (-90, true, Some(6)),
            (180, false, Some(3)),
            (270, true, Some(6)),
            (-450, true, Some(6)),
            (45, false, None),
        ] {
            i.rotation = rotation;
            assert_eq!(i.display_dims() == (1080, 1920), turned, "{rotation}");
            assert_eq!(plan_video(&i, &Settings::default()).orient, orient, "{rotation}");
        }
    }
    let m = |width, height, rotation| MediaInfo { width, height, rotation, ..Default::default() };
    assert_eq!(m(1920, 1080, 90).display_dims(), (1080, 1920));
    assert_eq!(m(1080, 1920, -90).display_dims(), (1920, 1080));
}

#[test]
fn images_are_turned_upright_by_the_plan() {
    let mut i = info(800, 600, 0.0);
    i.is_video = false;
    i.orientation = 6;
    let p = plan_video(&i, &Settings::default());
    assert_eq!(p.orient, Some(6));
    assert_eq!((p.out_w, p.out_h), (600, 800));
    assert_eq!(filter_chain(&p), "transpose=1,scale=600:800:flags=lanczos,setsar=1");
    i.orientation = 1;
    assert_eq!(plan_video(&i, &Settings::default()).orient, None);
    i.is_video = true;
    i.orientation = 6;
    assert_eq!(plan_video(&i, &Settings::default()).orient, None);
}

#[test]
fn each_orientation_has_its_filter() {
    for (orient, filter) in [
        (2, "hflip"),
        (3, "hflip,vflip"),
        (4, "vflip"),
        (5, "transpose=0"),
        (6, "transpose=1"),
        (7, "transpose=3"),
        (8, "transpose=2"),
    ] {
        let p = EncodePlan {
            crop: None,
            out_w: 2,
            out_h: 4,
            fps: None,
            rate: RateControl::Crf(23),
            audio_kbps: None,
            orient: Some(orient),
        };
        assert_eq!(filter_chain(&p), format!("{filter},scale=2:4:flags=lanczos,setsar=1"));
    }
}

#[test]
fn autotune_hits_the_bitrate_math() {
    // 10 s video, 8 MB budget, audio kept at 96 kbps:
    // bits = 8 * 1024^2 * 8 * 0.96 = 64424509.44 * 0.96...
    let s = Settings {
        max_mb: Some(num(8.0)),
        strip_audio: false,
        ..Settings::default()
    };
    let p = plan_video(&info(1280, 720, 10.0), &s);
    match p.rate {
        RateControl::TwoPass { video_kbps } => {
            let budget: f64 = 8.0 * 1024.0 * 1024.0 * 8.0 * 0.96;
            let from_budget = ((budget - 96_000.0 * 10.0) / 10.0 / 1000.0).floor();
            let ceiling = (1280.0 * 720.0 * 30.0 * 0.15 / 1000.0_f64).ceil();
            assert_eq!(video_kbps as f64, from_budget.min(ceiling));
        }
        other => panic!("expected two-pass, got {other:?}"),
    }
    assert_eq!(p.audio_kbps, Some(96));
}

#[test]
fn autotune_does_not_inflate_short_clips() {
    // A 3 s clip with a 10 MB cap: filling the cap would mean ~28 Mbps,
    // which is absurd. The bits-per-pixel ceiling must kick in.
    let s = Settings {
        max_mb: Some(num(10.0)),
        strip_audio: true,
        max_width: 1080,
        max_height: 1350,
        ..Settings::default()
    };
    let p = plan_video(&info(1080, 1920, 3.0), &s);
    match p.rate {
        RateControl::TwoPass { video_kbps } => {
            let ceiling = (p.out_w as f64 * p.out_h as f64 * 30.0 * 0.15 / 1000.0).ceil() as u32;
            assert!(
                video_kbps <= ceiling,
                "bitrate {video_kbps} should be capped near {ceiling}"
            );
            // Sanity: implied size is far below the 10 MB cap.
            let implied_mb = video_kbps as f64 * 1000.0 * 3.0 / 8.0 / 1024.0 / 1024.0;
            assert!(implied_mb < 5.0, "implied {implied_mb:.1} MB");
        }
        other => panic!("expected two-pass, got {other:?}"),
    }
}

#[test]
fn autotune_downscales_when_budget_is_tiny() {
    // 1 MB for 60 s of 1080p is hopeless: the planner must shrink the frame.
    let s = Settings {
        max_mb: Some(num(1.0)),
        strip_audio: true,
        max_width: 1920,
        max_height: 1920,
        ..Settings::default()
    };
    let p = plan_video(&info(1920, 1080, 60.0), &s);
    assert!(
        p.out_w < 1920 && p.out_h < 1080,
        "should downscale, got {}x{}",
        p.out_w,
        p.out_h
    );
    match p.rate {
        RateControl::TwoPass { video_kbps } => assert!(video_kbps >= MIN_VIDEO_KBPS),
        _ => panic!("expected two-pass"),
    }
}

/// The same plan, reckoned with the machine's own floating point.
fn by_machine(i: &MediaInfo, s: &Settings, mb: f64, dur: f64, fps: f64) -> (u32, u32, u32) {
    let (dw, dh) = i.display_dims();
    let (cw, ch) = match s.ratio.target() {
        Some((aw, ah)) => crop_to_ratio(dw.max(2), dh.max(2), aw, ah),
        None => (dw.max(2), dh.max(2)),
    };
    let (fw, fh) = fit_within(cw, ch, s.max_width.max(2), s.max_height.max(2));
    let (mut ow, mut oh) = (even(fw), even(fh));
    let budget_bits = mb.max(0.1) * 1024.0 * 1024.0 * 8.0 * 0.96;
    let audio = i.has_audio && !s.strip_audio;
    let audio_bits = if audio { 96.0 * 1000.0 * dur } else { 0.0 };
    let mut kbps = ((budget_bits - audio_bits) / dur / 1000.0).floor() as i64;
    kbps = kbps.max(120);
    let needed = (ow as f64 * oh as f64 * fps * 0.045) / 1000.0;
    if (kbps as f64) < needed {
        let shrink = ((kbps as f64) / needed).sqrt();
        ow = even(((ow as f64 * shrink).floor() as u32).max(2));
        oh = even(((oh as f64 * shrink).floor() as u32).max(2));
    }
    let ceiling = ((ow as f64 * oh as f64 * fps * 0.15) / 1000.0).ceil() as i64;
    kbps = kbps.min(ceiling.max(120));
    (ow, oh, kbps as u32)
}

#[test]
fn plans_agree_with_the_machine() {
    for (w, h) in [(1920u32, 1080u32), (1080, 1920), (641, 479), (8000, 90), (3, 5000)] {
        for dur in [0.06, 1.0, 12.345, 61.7, 3600.5] {
            for mb in [0.05, 0.3, 1.0, 9.99, 250.0] {
                for fps in [23.976, 29.97002997002997, 60.0] {
                    for ratio in [Ratio::Hover45, Ratio::Square, Ratio::Original] {
                        let mut i = info(w, h, dur);
                        i.fps = num(fps);
                        let s = Settings {
                            ratio,
                            max_mb: Some(num(mb)),
                            fps_cap: None,
                            ..Settings::default()
                        };
                        let p = plan_video(&i, &s);
                        let (ow, oh, kbps) = by_machine(&i, &s, mb, dur, fps);
                        assert_eq!((p.out_w, p.out_h), (ow, oh), "{w}x{h} {dur}s {mb}MB {fps}");
                        assert_eq!(p.rate, RateControl::TwoPass { video_kbps: kbps });
                        // The frame that is left is one that the budget covers.
                        let budget = mb.max(0.1) * 1024.0 * 1024.0 * 8.0 * 0.96 - 96_000.0 * dur;
                        let thin = (budget / dur / 1000.0).floor().max(120.0);
                        if ow > 2 && oh > 2 {
                            let needed = ow as f64 * oh as f64 * fps * 0.045 / 1000.0;
                            assert!(needed <= thin * (1.0 + 1e-12), "{w}x{h} {dur}s {mb}MB {fps}");
                        }
                        // What is planned for the video stays within the cap.
                        if kbps > 120 {
                            let bits = kbps as f64 * 1000.0 * dur;
                            assert!(bits <= mb.max(0.1) * 1024.0 * 1024.0 * 8.0);
                        }
                    }
                }
            }
        }
    }
}

#[test]
fn no_budget_means_crf() {
    let s = Settings {
        max_mb: None,
        crf: 21,
        ..Settings::default()
    };
    let p = plan_video(&info(640, 480, 3.0), &s);
    assert_eq!(p.rate, RateControl::Crf(21));
}

#[test]
fn crf_stays_in_the_scale_and_stills_need_no_bitrate() {
    let s = Settings {
        crf: 200,
        ..Settings::default()
    };
    assert_eq!(plan_video(&info(640, 480, 3.0), &s).rate, RateControl::Crf(51));
    let capped = Settings {
        max_mb: Some(num(1.0)),
        ..Settings::default()
    };
    assert_eq!(plan_video(&info(640, 480, 0.05), &capped).rate, RateControl::Crf(23));
    assert_eq!(plan_video(&info(640, 480, f64::NAN), &capped).rate, RateControl::Crf(23));
}

#[test]
fn fps_cap_only_lowers() {
    let mut i = info(1280, 720, 5.0);
    i.fps = num(60.0);
    let s = Settings {
        fps_cap: Some(num(30.0)),
        ..Settings::default()
    };
    assert_eq!(plan_video(&i, &s).fps, Some(num(30.0)));
    i.fps = num(24.0);
    assert_eq!(plan_video(&i, &s).fps, None);
    // Within a hundredth of the cap nothing is done.
    i.fps = num(30.005);
    assert_eq!(plan_video(&i, &s).fps, None);
}

#[test]
fn filter_chain_orders_crop_then_scale() {
    let p = EncodePlan {
        crop: Some((864, 1080)),
        out_w: 864,
        out_h: 1080,
        fps: None,
        rate: RateControl::Crf(23),
        audio_kbps: None,
        orient: None,
    };
    assert_eq!(
        filter_chain(&p),
        "crop=864:1080,scale=864:1080:flags=lanczos,setsar=1"
    );
}

#[test]
fn jpeg_quality_mapping_covers_the_scale() {
    assert_eq!(jpeg_q_from_percent(100), 2);
    assert_eq!(jpeg_q_from_percent(1), 31);
    let mid = jpeg_q_from_percent(50);
    assert!((2..=31).contains(&mid));
}

#[test]
fn jpeg_quality_mapping_agrees_with_the_machine() {
    for q in 0..=255u8 {
        let x = q.clamp(1, 100) as f64;
        assert_eq!(jpeg_q_from_percent(q), (2.0 + (100.0 - x) * 29.0 / 99.0).round() as u32);
    }
}

#[test]
fn ladders_go_from_best_to_worst() {
    assert_eq!(image_quality_ladder(ImageFormat::Webp), vec![90, 82, 75, 65, 55, 45, 35, 25]);
    assert_eq!(image_quality_ladder(ImageFormat::Jpg), vec![2, 3, 5, 7, 10, 14, 18, 24, 31]);
}

#[test]
fn presets_resolve() {
    for name in ["hover", "square", "landscape", "original"] {
        assert!(Settings::preset(name).is_some(), "missing preset {name}");
    }
    assert!(Settings::preset("nope").is_none());
    assert_eq!(Settings::preset("hover").unwrap().ratio, Ratio::Hover45);
}

#[test]
fn presets_hold_what_they_promise() {
    let h = Settings::preset("hover").unwrap();
    assert_eq!((h.max_width, h.max_height), (1080, 1350));
    assert_eq!(h.max_mb, Some(num(10.0)));
    assert!(h.strip_audio);
    let q = Settings::preset("square").unwrap();
    assert_eq!((q.ratio, q.max_width, q.max_height), (Ratio::Square, 1080, 1080));
    let l = Settings::preset("landscape").unwrap();
    assert_eq!((l.ratio, l.max_width, l.max_height), (Ratio::Landscape169, 1920, 1080));
    let o = Settings::preset("original").unwrap();
    assert_eq!((o.ratio, o.max_mb, o.crf), (Ratio::Original, None, 23));
    assert_eq!(o.fps_cap, Some(num(30.0)));
    assert_eq!(o.x264_preset, "medium");
    assert_eq!(Ratio::default(), Ratio::Original);
    assert_eq!(ImageFormat::default(), ImageFormat::Keep);
}

#[test]
fn fitting_keeps_the_aspect_to_a_pixel() {
    for (w, h) in [(1920u32, 1080u32), (65535, 3), (65535, 65534), (4032, 3024), (7, 60000)] {
        for (max_w, max_h) in [(1080u32, 1350u32), (100, 100), (1, 1), (640, 65535), (3, 50000)] {
            let (a, b) = fit_within(w, h, max_w, max_h);
            let (w, h, a, b) = (w as u64, h as u64, a as u64, b as u64);
            assert!(a <= 1 || a * h <= (b + 1) * w, "{w}x{h} in {max_w}x{max_h}");
            assert!(b <= 1 || b * w <= (a + 1) * h, "{w}x{h} in {max_w}x{max_h}");
        }
    }
    assert_eq!(fit_within(65535, 3, 100, 100), (100, 1));
    assert_eq!(fit_within(1920, 1080, 1080, 1350), (1080, 607));
}

#[test]
fn fitting_fills_the_box_on_one_side() {
    for (w, h) in [(1920u32, 1080u32), (65535, 3), (u32::MAX, u32::MAX - 1), (7, 60000)] {
        for (max_w, max_h) in [(1080u32, 1350u32), (100, 100), (1, 1), (3, 50000), (u32::MAX - 2, 9)] {
            if w > max_w || h > max_h {
                let (a, b) = fit_within(w, h, max_w, max_h);
                assert!(a + 1 >= max_w || b + 1 >= max_h, "{w}x{h} in {max_w}x{max_h}: {a}x{b}");
            }
        }
    }
}

#[test]
fn the_planned_bitrate_covers_the_planned_frame() {
    for (w, h, seconds, mb) in [
        (3840, 2160, 600.0, 5.0),
        (1920, 1080, 60.0, 2.0),
        (1080, 1920, 5.0, 10.0),
        (640, 480, 3600.0, 0.5),
    ] {
        let s = Settings { max_mb: Some(num(mb)), ..Settings::default() };
        let p = plan_video(&info(w, h, seconds), &s);
        let RateControl::TwoPass { video_kbps } = p.rate else {
            panic!("{p:?}");
        };
        assert!(p.out_w > 2 && p.out_h > 2);
        let needed = p.out_w as f64 * p.out_h as f64 * 30.0 * 0.045 / 1000.0;
        assert!(needed <= video_kbps as f64 * (1.0 + 1e-14), "{needed} {p:?}");
    }
}
