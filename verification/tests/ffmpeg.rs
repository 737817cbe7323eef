use resizer::double::Double;
use resizer::ffmpeg::{
    candidate_paths, find_tools, image_command, is_available, keep_line, oriented,
    parse_probe, pass_outcome, preview_command, probe, probe_args, progress_of, quiet_error, run_quiet,
    sibling_ffprobe, unreadable, version, video_commands, Output, Ran, INSTALL_HELP,
};
use resizer::install::Env;
use resizer::json::{Json, Member};
use resizer::path::Os;
use resizer::plan::{EncodePlan, MediaInfo, RateControl};

const OS: Os = Os::Other;

fn num(x: f64) -> Double {
    Double { bits: x.to_bits() }
}

fn value(d: Double) -> f64 {
    f64::from_bits(d.bits)
}

fn plan_crf() -> EncodePlan {
    EncodePlan {
        crop: Some((864, 1080)),
        out_w: 864,
        out_h: 1080,
        fps: Some(num(30.0)),
        rate: RateControl::Crf(23),
        audio_kbps: None,
        orient: None,
    }
}

fn object(members: Vec<(&str, Json)>) -> Json {
    Json::Object(
        members
            .into_iter()
            .map(|(key, value)| Member { key: key.to_string(), value })
            .collect(),
    )
}

fn text(s: &str) -> Json {
    Json::Text(s.to_string())
}

#[test]
fn parse_probe_reads_video() {
    let v = object(vec![
        (
            "streams",
            Json::List(vec![
                object(vec![
                    ("codec_type", text("video")),
                    ("width", Json::Uint(1920)),
                    ("height", Json::Uint(1080)),
                    ("avg_frame_rate", text("30000/1001")),
                    ("duration", text("12.5")),
                    ("nb_frames", text("374")),
                ]),
                object(vec![("codec_type", text("audio"))]),
            ]),
        ),
        ("format", object(vec![("duration", text("12.5"))])),
    ]);
    let i = parse_probe(&v, 1000).unwrap();
    assert_eq!((i.width, i.height), (1920, 1080));
    assert!(i.has_audio && i.is_video);
    assert!((value(i.fps) - 29.97).abs() < 0.01);
    assert!((value(i.duration_s) - 12.5).abs() < 1e-9);
    assert_eq!(i.fps, num(30000.0 / 1001.0));
    assert_eq!((i.size_bytes, i.orientation), (1000, 1));
}

#[test]
fn parse_probe_reads_rotation_and_images() {
    let v = object(vec![
        (
            "streams",
            Json::List(vec![object(vec![
                ("codec_type", text("video")),
                ("width", Json::Uint(1080)),
                ("height", Json::Uint(1920)),
                (
                    "side_data_list",
                    Json::List(vec![object(vec![
                        ("side_data_type", text("Display Matrix")),
                        ("rotation", Json::Int(-90)),
                    ])]),
                ),
                ("avg_frame_rate", text("0/0")),
                ("nb_frames", text("1")),
            ])]),
        ),
        ("format", object(vec![])),
    ]);
    let i = parse_probe(&v, 5).unwrap();
    assert_eq!(i.rotation, -90);
    assert!(!i.is_video);
    assert!(!i.has_audio);
    assert_eq!(i.display_dims(), (1920, 1080));
    assert_eq!(i.orientation, 6);
    assert_eq!(i.fps, num(0.0));
}

#[test]
fn parse_probe_rejects_audio_only() {
    let v = object(vec![
        (
            "streams",
            Json::List(vec![object(vec![("codec_type", text("audio"))])]),
        ),
        ("format", object(vec![])),
    ]);
    assert!(parse_probe(&v, 0).is_err());
    assert_eq!(parse_probe(&v, 0).unwrap_err(), "no video/image stream found");
    assert_eq!(parse_probe(&Json::Null, 0).unwrap_err(), "no video/image stream found");
    let flat = object(vec![(
        "streams",
        Json::List(vec![object(vec![("codec_type", text("video")), ("width", Json::Uint(9))])]),
    )]);
    assert_eq!(parse_probe(&flat, 0).unwrap_err(), "stream has no dimensions");
}

fn ended(success: bool, stdout: &str, stderr: &str) -> Ran {
    Ran::Ended(Output {
        success,
        stdout: stdout.as_bytes().to_vec(),
        stderr: stderr.as_bytes().to_vec(),
    })
}

#[test]
fn probe_reads_the_answer_of_ffprobe() {
    let json = r#"{"format":{"duration":"61.25"},
        "streams":[{"codec_type":"audio"},
                   {"codec_type":"video","width":640,"height":480,"nb_frames":"7",
                    "r_frame_rate":"24/1","avg_frame_rate":"0/0",
                    "side_data_list":[{"x":1},{"rotation":89.9},{"rotation":1}]}]}"#;
    let i = probe("a.mp4", &ended(true, json, ""), 42).unwrap();
    assert_eq!((i.width, i.height, i.rotation, i.size_bytes), (640, 480, 89, 42));
    assert_eq!((i.duration_s, i.fps), (num(61.25), num(24.0)));
    assert!(i.has_audio && i.is_video);
    assert_eq!(
        probe("a.mp4", &ended(false, "", "  moov atom not found\n"), 0).unwrap_err(),
        "ffprobe could not read a.mp4: moov atom not found"
    );
    assert_eq!(
        probe("a.mp4", &Ran::NotStarted("nope".to_string()), 0).unwrap_err(),
        "failed to run ffprobe: nope"
    );
    let e = probe("a.mp4", &ended(true, "{", ""), 0).unwrap_err();
    assert!(e.starts_with("bad ffprobe output: EOF while parsing"), "{e}");
    assert_eq!(
        probe_args("a b.mp4").join("|"),
        "-v|error|-print_format|json|-show_streams|-show_format|a b.mp4"
    );
}

#[test]
fn numbers_of_every_kind_are_degrees() {
    for (rotation, want) in [
        ("-90", -90),
        ("270", 270),
        ("-90.7", -90),
        ("1e300", -1),
        ("-1e300", 0),
        ("4294967386", 90),
        ("18446744073709551615", -1),
        ("\"90\"", 0),
    ] {
        let json = format!(
            "{{\"streams\":[{{\"codec_type\":\"video\",\"width\":2,\"height\":2,\
             \"side_data_list\":[{{\"rotation\":{rotation}}}]}}]}}"
        );
        let i = probe("x", &ended(true, &json, ""), 0).unwrap();
        assert_eq!(i.rotation, want, "{rotation}");
    }
}

#[test]
fn stills_are_turned_by_their_own_block() {
    let mut tiff: Vec<u8> = b"MM\0*\0\0\0\x08\0\x01".to_vec();
    tiff.extend_from_slice(&[0x01, 0x12, 0, 3, 0, 0, 0, 1, 0, 6, 0, 0]);
    let still = MediaInfo { orientation: 3, ..Default::default() };
    assert_eq!(oriented(still, Some(&tiff)).orientation, 6);
    assert_eq!(oriented(still, Some(b"nothing")).orientation, 3);
    assert_eq!(oriented(still, None).orientation, 3);
    let film = MediaInfo { is_video: true, orientation: 1, ..Default::default() };
    assert_eq!(oriented(film, Some(&tiff)).orientation, 1);
}

#[test]
fn image_command_picks_the_right_encoder() {
    let webp = image_command(OS, "a.png", "a.webp", &plan_crf(), 80, true).join(" ");
    assert!(
        webp.contains("libwebp") && webp.contains("-q:v 80"),
        "{webp}"
    );

    let jpg = image_command(OS, "a.png", "a.jpg", &plan_crf(), 4, false).join(" ");
    assert!(jpg.contains("-q:v 4") && !jpg.contains("libwebp"), "{jpg}");
    assert!(jpg.contains("-frames:v 1"), "{jpg}");
    assert!(jpg.starts_with("-hide_banner -y -noautorotate -i a.png -vf crop=864:1080,"), "{jpg}");
    assert!(jpg.contains("setsar=1,sidedata=mode=delete:type=DISPLAYMATRIX"), "{jpg}");
    let png = image_command(OS, "a.png", "a.PNG", &plan_crf(), 4, false).join(" ");
    assert!(png.contains("-compression_level 100") && !png.contains("-q:v"), "{png}");
}

#[test]
fn video_commands_share_their_base() {
    let filter = "crop=864:1080,scale=864:1080:flags=lanczos,setsar=1";
    let one = video_commands(OS, "i.mov", "o.mp4", &plan_crf(), "slow", "/l", None);
    assert_eq!(one.len(), 1);
    assert_eq!(
        one[0].join(" "),
        format!(
            "-hide_banner -y -i i.mov -vf {filter} -r 30 -c:v libx264 -preset slow -pix_fmt \
             yuv420p -crf 23 -an -movflags +faststart -nostats -progress pipe:1 o.mp4"
        )
    );
    let mut p = plan_crf();
    p.rate = RateControl::TwoPass { video_kbps: 1001 };
    p.audio_kbps = Some(96);
    p.fps = None;
    let base = format!("-hide_banner -y -i i.mov -vf {filter} -c:v libx264 -preset medium -pix_fmt yuv420p");
    let rate = "-b:v 1001k -maxrate 1501k -bufsize 3003k";
    for (os, null) in [(Os::Other, "/dev/null"), (Os::Macos, "/dev/null"), (Os::Windows, "NUL")] {
        let two = video_commands(os, "i.mov", "o.mp4", &p, "medium", "/l", None);
        assert_eq!(two.len(), 2);
        assert_eq!(
            two[0].join(" "),
            format!(
                "{base} {rate} -pass 1 -passlogfile /l -an -f null -nostats -progress pipe:1 {null}"
            )
        );
        assert_eq!(
            two[1].join(" "),
            format!(
                "{base} {rate} -pass 2 -passlogfile /l -c:a aac -b:a 96k -movflags +faststart \
                 -nostats -progress pipe:1 o.mp4"
            )
        );
    }
    let preview = preview_command("i.mov", "p.mp4", &p, Some(num(2.5))).join(" ");
    assert_eq!(
        preview,
        format!(
            "-hide_banner -y -i i.mov -t 2.5 -vf {filter} -c:v libx264 -preset veryfast -pix_fmt \
             yuv420p -b:v 1001k -c:a aac -b:a 96k -movflags +faststart p.mp4"
        )
    );
    let preview = preview_command("i.mov", "p.mp4", &plan_crf(), None).join(" ");
    assert!(preview.contains("-r 30") && preview.contains("-crf 23 -an"), "{preview}");
}

#[test]
fn one_pass_is_previewed_whole() {
    for trim in [None, Some(num(2.5))] {
        let encode = video_commands(OS, "i.mov", "o.mp4", &plan_crf(), "veryfast", "/l", trim);
        let preview = preview_command("i.mov", "o.mp4", &plan_crf(), trim);
        assert_eq!(encode.len(), 1);
        let reports = ["-nostats", "-progress", "pipe:1"];
        let rest: Vec<String> =
            encode[0].iter().filter(|a| !reports.contains(&a.as_str())).cloned().collect();
        assert_eq!(rest, preview);
    }
}

fn env() -> Env {
    Env {
        local_app_data: None,
        user_profile: None,
        home: Some("/h".to_string()),
        xdg_data_home: None,
        chocolatey_install: None,
        ffmpeg_path: None,
        temp_dir: "/tmp".to_string(),
        current_exe: Some("/usb/resizer".to_string()),
    }
}

#[test]
fn candidates_come_in_priority_order() {
    let mut e = env();
    assert_eq!(
        candidate_paths(OS, None, &e),
        vec![
            "/h/.local/share/resizer/bin/ffmpeg",
            "ffmpeg",
            "/usr/bin/ffmpeg",
            "/usr/local/bin/ffmpeg",
            "/usb/ffmpeg",
        ]
    );
    e.ffmpeg_path = Some("/env/ffmpeg".to_string());
    assert_eq!(candidate_paths(OS, None, &e), vec!["/env/ffmpeg"]);
    assert_eq!(candidate_paths(OS, Some("/x/ffmpeg"), &e), vec!["/x/ffmpeg"]);
    e.ffmpeg_path = None;
    e.current_exe = None;
    assert_eq!(candidate_paths(OS, None, &e).len(), 4);
}

#[test]
fn siblings_live_next_to_each_other() {
    assert_eq!(sibling_ffprobe(OS, "/usr/bin/ffmpeg"), "/usr/bin/ffprobe");
    assert_eq!(sibling_ffprobe(OS, "ffmpeg"), "ffprobe");
    assert_eq!(sibling_ffprobe(Os::Windows, "C:\\b\\ffmpeg.exe"), "C:\\b\\ffprobe.exe");
    assert_eq!(sibling_ffprobe(Os::Windows, "ffmpeg.exe"), "ffprobe.exe");
}

#[test]
fn missing_ffmpeg_gives_friendly_error() {
    let candidates = candidate_paths(OS, Some("/definitely/not/here/ffmpeg"), &env());
    let err = find_tools(OS, &candidates, &Vec::new()).unwrap_err();
    assert!(err.contains("ffmpeg was not found"), "got: {err}");
    assert!(
        err.contains("install-ffmpeg"),
        "must point at the installer: {err}"
    );
    assert_eq!(err, INSTALL_HELP);
    assert!(!is_available(OS, &candidates, &Vec::new()));
}

#[test]
fn tools_need_both_programs() {
    let candidates = vec!["/a/ffmpeg".to_string(), "/b/ffmpeg".to_string(), "ffmpeg".to_string()];
    let working = vec![
        "/a/ffmpeg".to_string(),
        "ffprobe".to_string(),
        "/b/ffprobe".to_string(),
        "/b/ffmpeg".to_string(),
        "ffmpeg".to_string(),
    ];
    let t = find_tools(OS, &candidates, &working).unwrap();
    assert_eq!((t.ffmpeg.as_str(), t.ffprobe.as_str()), ("/b/ffmpeg", "/b/ffprobe"));
    assert!(is_available(OS, &candidates, &working));
}

#[test]
fn versions_are_first_lines() {
    assert_eq!(version(Some("ffmpeg version 7.0\r\nbuilt with\n")), "ffmpeg version 7.0");
    assert_eq!(version(Some("")), "unknown");
    assert_eq!(version(None), "unknown");
}

#[test]
fn progress_is_a_fraction_of_the_duration() {
    let at = |line: &str, dur: f64| progress_of(line, num(dur)).map(value);
    assert_eq!(at("out_time_us=5000000", 10.0), Some(0.5));
    assert_eq!(at("out_time_us= 2500000 ", 10.0), Some(0.25));
    assert_eq!(at("out_time_us=99000000", 10.0), Some(1.0));
    assert_eq!(at("out_time_us=-5", 10.0), Some(0.0));
    assert_eq!(at("out_time_us=N/A", 10.0), None);
    assert_eq!(at("out_time_us=5", 0.0), None);
    assert_eq!(at("  progress=end", 0.0), Some(1.0));
    assert_eq!(at("progress=continue", 10.0), None);
    assert_eq!(at("out_time_us=1234567", 9.87), Some(1234567.0 / 1_000_000.0 / 9.87));
}

#[test]
fn only_the_last_lines_are_kept() {
    let mut tail: Vec<String> = Vec::new();
    for n in 0..35 {
        keep_line(&mut tail, &n.to_string());
    }
    assert_eq!(tail.len(), 30);
    assert_eq!((tail[0].as_str(), tail[29].as_str()), ("5", "34"));
    let lines = vec!["a".to_string(), "b".to_string()];
    assert_eq!(pass_outcome(&Ok(true), &lines), Ok(()));
    assert_eq!(pass_outcome(&Ok(false), &lines), Err("ffmpeg failed:\na\nb".to_string()));
    assert_eq!(
        pass_outcome(&Err("killed".to_string()), &lines),
        Err("ffmpeg died: killed".to_string())
    );
    let noise: Vec<String> = (0..15).map(|n| n.to_string()).collect();
    assert_eq!(
        run_quiet(&ended(false, "", &noise.join("\n"))),
        Err(format!("ffmpeg failed:\n{}", noise[5..].join("\n")))
    );
    assert_eq!(quiet_error("a\r\nb\n"), "ffmpeg failed:\na\nb");
    assert_eq!(unreadable("x.png", " no \n"), "ffprobe could not read x.png: no");
    assert_eq!(run_quiet(&ended(true, "", "x")), Ok(()));
    assert_eq!(
        run_quiet(&Ran::NotStarted("e".to_string())),
        Err("failed to start ffmpeg: e".to_string())
    );
}
