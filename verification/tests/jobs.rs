use resizer::double::Double;
use resizer::ffmpeg::{Output, Ran};
use resizer::jobs::{
    belongs_to_passlog, bulk_item, collect_inputs, convert_file, convert_image, convert_video, entered, excluded,
    default_jobs, image_attempt, image_mode, is_media_path, make_preview, output_ext, output_path,
    overall_progress, passlog_prefix, plan_output_names, preview_clip, preview_output, run_bulk,
    worker_count, BulkItemResult, ImageMode, Names, Verdict,
};
use resizer::path::{file_name, Os};
use resizer::plan::{plan_video, EncodePlan, ImageFormat, MediaInfo, RateControl, Settings};
use resizer::tree::Node;

const OS: Os = Os::Other;

fn num(x: f64) -> Double {
    Double { bits: x.to_bits() }
}

#[test]
fn media_paths_are_filtered_by_extension() {
    assert!(is_media_path(OS, "a/b/clip.MP4"));
    assert!(is_media_path(OS, "photo.jpeg"));
    assert!(is_media_path(OS, "anim.gif"));
    assert!(!is_media_path(OS, "notes.txt"));
    assert!(!is_media_path(OS, "noext"));
}

#[test]
fn every_accepted_extension_is_media() {
    for e in [
        "mp4", "mov", "m4v", "mkv", "webm", "avi", "gif", "mts", "wmv", "jpg", "jpeg", "png",
        "webp", "bmp", "tif", "tiff", "heic",
    ] {
        assert!(is_media_path(OS, &format!("x.{e}")), "{e}");
        assert!(is_media_path(OS, &format!("x.{}", e.to_uppercase())), "{e}");
    }
    assert!(!is_media_path(OS, ".mp4"));
    assert!(!is_media_path(OS, "mp4"));
    assert!(is_media_path(OS, "x.mp4/"));
    assert!(is_media_path(OS, "a\\.mp4"));
    assert!(!is_media_path(Os::Windows, "a\\.mp4"));
}

#[test]
fn output_ext_maps_video_and_images() {
    let vid = MediaInfo {
        is_video: true,
        ..Default::default()
    };
    let img = MediaInfo {
        is_video: false,
        ..Default::default()
    };
    let s = Settings::default();
    assert_eq!(output_ext(OS, "a.mov", &vid, &s), "mp4");
    assert_eq!(output_ext(OS, "a.gif", &vid, &s), "mp4");
    assert_eq!(output_ext(OS, "a.PNG", &img, &s), "png");
    assert_eq!(output_ext(OS, "a.heic", &img, &s), "jpg");
    let webp = Settings {
        image_format: ImageFormat::Webp,
        ..Settings::default()
    };
    assert_eq!(output_ext(OS, "a.png", &img, &webp), "webp");
}

#[test]
fn output_path_never_clobbers() {
    let dir = "/tmp/resizer-test-1";
    let mut taken: Vec<String> = Vec::new();
    let first = output_path(OS, dir, "clip.mov", "mp4", &taken);
    assert_eq!(file_name(OS, &first).unwrap(), "clip-web.mp4");
    taken.push(first);
    let second = output_path(OS, dir, "clip.mov", "mp4", &taken);
    assert_eq!(file_name(OS, &second).unwrap(), "clip-web-2.mp4");
}

#[test]
fn output_path_takes_the_first_gap() {
    let taken = vec![
        "/o/a-web.jpg".to_string(),
        "/o/a-web-2.jpg".to_string(),
        "/o/a-web-4.jpg".to_string(),
    ];
    assert_eq!(output_path(OS, "/o", "/in/a.png", "jpg", &taken), "/o/a-web-3.jpg");
    assert_eq!(output_path(OS, "/o", "/in/b.png", "jpg", &taken), "/o/b-web.jpg");
    assert_eq!(output_path(OS, "/o", "/", "jpg", &taken), "/o/media-web.jpg");
    assert_eq!(
        output_path(Os::Windows, "C:\\o", "C:\\in\\a.b.png", "jpg", &taken),
        "C:\\o\\a.b-web.jpg"
    );
}

#[test]
fn a_batch_never_writes_one_file_twice() {
    let inputs = vec![
        "shoot/IMG_0001.MOV".to_string(),
        "shoot/IMG_0001.mp4".to_string(),
        "shoot/extra/IMG_0001.avi".to_string(),
    ];
    let exts = vec!["mp4".to_string(), "mp4".to_string(), "mp4".to_string()];
    let there = vec!["out/IMG_0001-web-2.mp4".to_string()];
    let names = plan_output_names(OS, "out", &inputs, &exts, there.clone());
    assert_eq!(
        names,
        vec![
            "out/IMG_0001-web.mp4".to_string(),
            "out/IMG_0001-web-3.mp4".to_string(),
            "out/IMG_0001-web-4.mp4".to_string(),
        ]
    );
    let mut n = Names { taken: there };
    assert_eq!(n.reserve(OS, "out", "IMG_0001.MOV", "mp4"), names[0]);
    assert_eq!(n.reserve(OS, "out", "IMG_0001.mp4", "mp4"), names[1]);
    assert_eq!(n.taken.len(), 3);
}

fn file(path: &str) -> Node {
    Node::File { path: path.to_string(), canonical: path.to_string() }
}

fn dir(path: &str, entries: Vec<Node>) -> Node {
    Node::Dir { path: path.to_string(), canonical: path.to_string(), entries }
}

#[test]
fn collect_inputs_walks_folders() {
    let tree = || {
        vec![dir(
            "/tmp/resizer-walk-1",
            vec![
                file("/tmp/resizer-walk-1/a.mp4"),
                file("/tmp/resizer-walk-1/b.txt"),
                file("/tmp/resizer-walk-1/.hidden.mp4"),
                dir(
                    "/tmp/resizer-walk-1/sub",
                    vec![file("/tmp/resizer-walk-1/sub/c.jpg")],
                ),
            ],
        )]
    };
    let flat = collect_inputs(OS, &tree(), false, None);
    assert_eq!(flat.len(), 1, "{flat:?}");
    let deep = collect_inputs(OS, &tree(), true, None);
    assert_eq!(deep.len(), 2, "{deep:?}");
}

#[test]
fn collect_inputs_skips_the_output_dir() {
    let root = "/tmp/resizer-excl-1";
    let resized = "/tmp/resizer-excl-1/resized";
    let tree = vec![dir(
        root,
        vec![
            dir(resized, vec![file("/tmp/resizer-excl-1/resized/a-web.mp4")]),
            file("/tmp/resizer-excl-1/a.mp4"),
        ],
    )];
    // Without the exclusion a recursive re-run would re-ingest a-web.mp4.
    let all = collect_inputs(OS, &tree, true, None);
    assert_eq!(all.len(), 2, "{all:?}");
    let safe = collect_inputs(OS, &tree, true, Some(resized));
    assert_eq!(safe.len(), 1, "{safe:?}");
    assert!(safe[0].ends_with("a.mp4"));
}

#[test]
fn a_walk_enters_what_it_may() {
    for (path, canonical, recursive, enters) in [
        ("/d/a", "/d/a", true, true),
        ("/d/a", "/d/a", false, false),
        ("/d/.a", "/d/a", true, false),
        ("/d/a", "/d/out/a", true, false),
        ("/d/out", "/d/out", true, false),
    ] {
        assert_eq!(entered(OS, path, canonical, recursive, Some("/d/out")), enters, "{path}");
    }
    assert!(entered(OS, "/d/out", "/d/out", true, None));
    assert!(excluded(OS, "/d/out/x", Some("/d/out")) && !excluded(OS, "/d/outer", Some("/d/out")));
}

#[test]
fn nothing_in_the_output_dir_is_collected() {
    let out = "/d/resized";
    let inner = || {
        vec![
            file("/d/resized/a-web.mp4"),
            dir("/d/resized/more", vec![file("/d/resized/more/b-web.jpg")]),
        ]
    };
    // A link leads in from elsewhere, and one leads out.
    let link = |path: &str, canonical: &str| Node::File {
        path: path.to_string(),
        canonical: canonical.to_string(),
    };
    let inputs = vec![
        dir(out, inner()),
        dir("/d/resized/more", vec![file("/d/resized/more/b-web.jpg")]),
        file("/d/resized/a-web.mp4"),
        link("x.jpg", "/d/resized/x.jpg"),
        link("y.jpg", "/d/y.jpg"),
        file("/d/resized2/c.jpg"),
        dir("/d", vec![dir(out, inner()), file("/d/a.mp4")]),
    ];
    for recursive in [false, true] {
        assert_eq!(
            collect_inputs(OS, &inputs, recursive, Some(out)),
            ["/d/a.mp4", "/d/resized2/c.jpg", "y.jpg"]
        );
    }
    assert_eq!(
        collect_inputs(OS, &inputs, true, None),
        [
            "/d/a.mp4",
            "/d/resized/a-web.mp4",
            "/d/resized/more/b-web.jpg",
            "/d/resized2/c.jpg",
            "x.jpg",
            "y.jpg"
        ]
    );
    // A path of no parts leaves nothing out.
    assert_eq!(collect_inputs(OS, &[file("a.jpg")].into(), true, Some("")), ["a.jpg"]);
}

#[test]
fn collected_files_are_sorted_and_told_apart() {
    let inputs = vec![
        file("b.png"),
        file("a/z.png"),
        file("a.png"),
        file("a//z.png"),
        file("./a.png"),
        file("a.png"),
        file("x.txt"),
        dir("d", vec![dir("d/.git", vec![file("d/.git/x.png")]), file("d/y.png")]),
    ];
    // A path that begins with `.` is another path; parts are compared one by
    // one, so what is in `a` comes before `a.png`.
    assert_eq!(
        collect_inputs(OS, &inputs, true, None),
        vec!["./a.png", "a/z.png", "a.png", "b.png", "d/y.png"]
    );
}

#[test]
fn default_jobs_is_sane() {
    for cores in [None, Some(0), Some(1), Some(2), Some(6), Some(64), Some(usize::MAX)] {
        let j = default_jobs(cores);
        assert!((1..=8).contains(&j));
    }
    assert_eq!(default_jobs(None), 2);
    assert_eq!(default_jobs(Some(1)), 1);
    assert_eq!(default_jobs(Some(7)), 3);
    assert_eq!(default_jobs(Some(64)), 8);
}

#[test]
fn passlogs_of_parallel_jobs_never_mix() {
    let one = passlog_prefix(OS, "/s", 77, 1);
    let ten = passlog_prefix(OS, "/s", 77, 10);
    assert_eq!(one, "/s/x264-pass-77-1");
    assert!(belongs_to_passlog(OS, &one, "x264-pass-77-1-0.log"));
    assert!(belongs_to_passlog(OS, &one, "x264-pass-77-1-0.log.mbtree"));
    assert!(!belongs_to_passlog(OS, &one, "x264-pass-77-10-0.log"));
    assert!(belongs_to_passlog(OS, &ten, "x264-pass-77-10-0.log"));
    assert!(!belongs_to_passlog(OS, &one, "preview-1.mp4"));
    assert!(!belongs_to_passlog(OS, "/", "x-0.log"));
}

#[test]
fn an_empty_output_is_a_failure() {
    assert_eq!(convert_file("/o/a.mp4", 0).unwrap_err(), "output file is empty");
    let o = convert_file("/o/a.mp4", 7).unwrap();
    assert_eq!((o.output.as_str(), o.out_bytes), ("/o/a.mp4", 7));
    let item = bulk_item(Ok(o), 70);
    assert_eq!(item.result, Ok(("/o/a.mp4".to_string(), 70, 7)));
    assert_eq!(bulk_item(Err("no".to_string()), 70).result, Err("no".to_string()));
}

fn plan() -> EncodePlan {
    EncodePlan {
        crop: None,
        out_w: 640,
        out_h: 480,
        fps: None,
        rate: RateControl::TwoPass { video_kbps: 1000 },
        audio_kbps: Some(96),
        orient: None,
    }
}

#[test]
fn videos_take_one_pass_or_two() {
    let s = Settings::default();
    let two = convert_video(OS, "a.mov", "a-web.mp4", &plan(), &s, "/s/log");
    assert_eq!(two.len(), 2);
    assert_eq!(two[0][two[0].len() - 1], "/dev/null");
    assert_eq!(two[1][two[1].len() - 1], "a-web.mp4");
    let mut p = plan();
    p.rate = RateControl::Crf(23);
    assert_eq!(convert_video(OS, "a.mov", "b.mp4", &p, &s, "/s/log").len(), 1);
    for (i, n, f) in [(0usize, 1usize, 0.5), (0, 2, 0.5), (1, 2, 0.25), (1, 2, 1.0)] {
        let want = i as f64 / n as f64 + f / n as f64;
        assert_eq!(overall_progress(i, n, num(f)), num(want));
    }
}

fn ran(success: bool, stderr: &str) -> Ran {
    Ran::Ended(Output { success, stdout: vec![], stderr: stderr.as_bytes().to_vec() })
}

#[test]
fn png_is_honest_about_its_budget() {
    let s = Settings { max_mb: Some(num(0.5)), ..Settings::default() };
    let mode = image_mode(OS, "a-web.PNG", &s);
    assert_eq!(mode, ImageMode::Lossless(num(0.5)));
    let args = image_attempt(OS, "a.png", "a-web.png", &plan(), mode, 0).unwrap();
    assert!(args.join(" ").contains("-compression_level 100"));
    assert!(image_attempt(OS, "a.png", "a-web.png", &plan(), mode, 1).is_none());
    assert!(matches!(convert_image(mode, 0, &ran(true, ""), Some(524288)), Verdict::Done));
    assert!(matches!(convert_image(mode, 0, &ran(true, ""), None), Verdict::Done));
    match convert_image(mode, 0, &ran(true, ""), Some(1310720)) {
        Verdict::TooBig(e) => assert_eq!(
            e,
            format!(
                "PNG cannot be compressed below the size cap ({:.1} MB > {:.1} MB). \
                 Use webp or jpg output for this one.",
                1310720.0 / 1048576.0,
                0.5
            )
        ),
        other => panic!("{other:?}"),
    }
}

#[test]
fn the_ladder_is_walked_until_it_fits() {
    let s = Settings { max_mb: Some(num(0.3)), ..Settings::default() };
    for (out, rungs, first) in [("a.webp", 8usize, "90"), ("a.jpg", 9, "2")] {
        let mode = image_mode(OS, out, &s);
        let args = image_attempt(OS, "a.heic", out, &plan(), mode, 0).unwrap();
        assert!(args.join(" ").contains(&format!("-q:v {first}")), "{args:?}");
        assert_eq!(args.contains(&"libwebp".to_string()), out == "a.webp");
        let budget = (0.3 * 1024.0 * 1024.0) as u64;
        for k in 0..rungs {
            assert!(image_attempt(OS, "a.heic", out, &plan(), mode, k).is_some());
            assert!(matches!(convert_image(mode, k, &ran(true, ""), Some(budget)), Verdict::Done));
            let v = convert_image(mode, k, &ran(true, ""), Some(budget + 1));
            if k + 1 < rungs {
                assert!(matches!(v, Verdict::Again));
                assert!(matches!(convert_image(mode, k, &ran(true, ""), None), Verdict::Again));
            } else {
                match v {
                    Verdict::TooBig(e) => assert_eq!(
                        e,
                        "image cannot be compressed below the size cap (0.3 MB > 0.3 MB). \
                         Use a smaller size or a higher cap for this one."
                    ),
                    other => panic!("{other:?}"),
                }
                assert!(matches!(convert_image(mode, k, &ran(true, ""), None), Verdict::Done));
            }
        }
        assert!(image_attempt(OS, "a.heic", out, &plan(), mode, rungs).is_none());
        match convert_image(mode, 0, &ran(false, "boom"), Some(1)) {
            Verdict::Failed(e) => assert_eq!(e, "ffmpeg failed:\nboom"),
            other => panic!("{other:?}"),
        }
    }
}

#[test]
fn without_a_budget_the_slider_decides() {
    let mut s = Settings { image_quality: 85, ..Settings::default() };
    assert_eq!(image_mode(OS, "a.webp", &s), ImageMode::Once(85));
    assert_eq!(image_mode(OS, "a.jpg", &s), ImageMode::Once(6));
    s.image_quality = 0;
    assert_eq!(image_mode(OS, "a.webp", &s), ImageMode::Once(1));
    s.image_quality = 255;
    assert_eq!(image_mode(OS, "a.webp", &s), ImageMode::Once(100));
    let v = convert_image(ImageMode::Once(6), 0, &ran(true, ""), None);
    assert!(matches!(v, Verdict::Done));
}

#[test]
fn previews_estimate_the_whole() {
    let mut i = MediaInfo { is_video: true, duration_s: num(60.0), ..Default::default() };
    let s = Settings::default();
    assert_eq!(preview_clip(&i), num(2.5));
    assert_eq!(preview_output(OS, "/s", 4, "a.mov", &i, &s), "/s/preview-4.mp4");
    let want = ((1000.0 + 96.0) * 1000.0 * 60.0 / 8.0 * 1.04) as u64;
    let (file, est) = make_preview(OS, "/s", 4, "a.mov", &i, &s, &plan(), 999);
    assert_eq!((file.as_str(), est), ("/s/preview-4.mp4", want));
    let mut p = plan();
    p.rate = RateControl::Crf(23);
    let want = (1000.0 * (60.0 / 2.5)) as u64;
    assert_eq!(make_preview(OS, "/s", 4, "a.mov", &i, &s, &p, 1000).1, want);
    i.duration_s = num(0.0);
    assert_eq!(make_preview(OS, "/s", 4, "a.mov", &i, &s, &p, 1000).1, 1000);
    i.is_video = false;
    let q = plan_video(&i, &s);
    let (file, est) = make_preview(OS, "/s", 9, "a.heic", &i, &s, &q, 55);
    assert_eq!((file.as_str(), est), ("/s/preview-9.jpg", 55));
}

fn item(n: u64) -> BulkItemResult {
    BulkItemResult { result: Ok((n.to_string(), n, n)) }
}

#[test]
fn results_come_in_the_order_of_the_queue() {
    let done = run_bulk(vec![Some(item(1)), None, Some(item(3)), Some(item(4))]);
    let names: Vec<u64> = done.iter().map(|r| r.result.as_ref().unwrap().1).collect();
    assert_eq!(names, vec![1, 3, 4]);
    assert!(run_bulk(vec![]).is_empty());
    assert_eq!(worker_count(0, 0), 1);
    assert_eq!(worker_count(0, 9), 1);
    assert_eq!(worker_count(4, 9), 4);
    assert_eq!(worker_count(16, 3), 3);
}
