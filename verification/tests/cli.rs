use resizer::cli::{
    convert_settings, display_name, gui_args, human, installed, output_dir, report_done,
    report_progress, run_convert, run_install, summary, ConvertFlags, GuiArgs, InstallRun,
};
use resizer::double::Double;
use resizer::install::{options, Env, Method, Option_};
use resizer::jobs::BulkItemResult;
use resizer::path::Os;
use resizer::plan::{ImageFormat, Ratio};

const OS: Os = Os::Other;

fn num(x: f64) -> Double {
    Double { bits: x.to_bits() }
}

fn flags(preset: &str) -> ConvertFlags {
    ConvertFlags {
        preset: preset.to_string(),
        max_mb: None,
        max_width: None,
        max_height: None,
        crf: None,
        fps: None,
        no_audio: false,
        keep_audio: false,
        speed: "medium".to_string(),
        image_format: "keep".to_string(),
        image_quality: 85,
    }
}

#[test]
fn flags_sit_on_top_of_the_preset() {
    let s = convert_settings(&flags("hover")).unwrap();
    assert_eq!((s.ratio, s.max_mb, s.strip_audio), (Ratio::Hover45, Some(num(10.0)), true));
    let mut f = flags("hover");
    f.keep_audio = true;
    f.max_mb = Some(num(0.5));
    f.max_height = Some(720);
    f.speed = "veryfast".to_string();
    f.image_format = "jpeg".to_string();
    f.image_quality = 7;
    let s = convert_settings(&f).unwrap();
    assert_eq!((s.strip_audio, s.max_mb), (false, Some(num(0.5))));
    assert_eq!((s.max_width, s.max_height), (1080, 720));
    assert_eq!((s.x264_preset.as_str(), s.image_format), ("veryfast", ImageFormat::Jpg));
    assert_eq!(s.image_quality, 7);
    let mut f = flags("original");
    f.no_audio = true;
    f.max_width = Some(100);
    let s = convert_settings(&f).unwrap();
    assert!(s.strip_audio);
    assert_eq!((s.max_width, s.max_height), (100, 1920));
}

#[test]
fn an_explicit_crf_wins_over_the_size_cap_of_a_preset() {
    let mut f = flags("hover");
    f.crf = Some(18);
    let s = convert_settings(&f).unwrap();
    assert_eq!((s.crf, s.max_mb), (18, None));
    f.max_mb = Some(num(3.0));
    let s = convert_settings(&f).unwrap();
    assert_eq!((s.crf, s.max_mb), (18, Some(num(3.0))));
}

#[test]
fn no_fps_means_no_cap() {
    let mut f = flags("original");
    assert_eq!(convert_settings(&f).unwrap().fps_cap, Some(num(30.0)));
    f.fps = Some(num(0.0));
    assert_eq!(convert_settings(&f).unwrap().fps_cap, None);
    f.fps = Some(num(-1.0));
    assert_eq!(convert_settings(&f).unwrap().fps_cap, None);
    f.fps = Some(num(23.976));
    assert_eq!(convert_settings(&f).unwrap().fps_cap, Some(num(23.976)));
}

#[test]
fn wrong_flags_are_explained() {
    assert_eq!(
        convert_settings(&flags("cinema")).unwrap_err(),
        "unknown preset 'cinema' (try: hover, square, landscape, original)"
    );
    let mut f = flags("square");
    f.image_format = "bmp".to_string();
    assert_eq!(
        convert_settings(&f).unwrap_err(),
        "unknown --image-format 'bmp' (try: keep, jpg, webp, png)"
    );
    f.speed = "warp".to_string();
    assert_eq!(
        convert_settings(&f).unwrap_err(),
        "unknown --speed 'warp' (try: veryfast, medium, slow)"
    );
}

#[test]
fn results_go_next_to_the_first_input() {
    assert_eq!(output_dir(OS, Some("/o"), "/v/a.mp4", false), "/o");
    assert_eq!(output_dir(OS, None, "/v/a.mp4", false), "/v/resized");
    assert_eq!(output_dir(OS, None, "/v", true), "/v/resized");
    assert_eq!(output_dir(OS, None, "clip.mov", false), "resized");
    assert_eq!(output_dir(OS, None, "/", false), "./resized");
    let files = vec!["a".to_string(), "b".to_string()];
    assert_eq!(
        run_convert(&files, "/o", 8),
        Ok("converting 2 file(s) -> /o  (2 at a time)".to_string())
    );
    assert_eq!(
        run_convert(&files, "/o", 1),
        Ok("converting 2 file(s) -> /o  (1 at a time)".to_string())
    );
    assert_eq!(
        run_convert(&Vec::new(), "/o", 1),
        Err("no images or videos found in the given inputs".to_string())
    );
}

#[test]
fn bytes_are_readable() {
    for b in [0u64, 1023, 1024, 1048575, 1048576, 1310720, 5_555_555, 123_456_789_012, u64::MAX] {
        let want = if b >= 1024 * 1024 {
            format!("{:.1}MB", b as f64 / 1048576.0)
        } else {
            format!("{}KB", b / 1024)
        };
        assert_eq!(human(b), want);
    }
    assert_eq!(human(5 * 1024 * 1024 + 524288), "5.5MB");
}

fn done(i: u64, o: u64) -> BulkItemResult {
    BulkItemResult { result: Ok(("/o/a-web.mp4".to_string(), i, o)) }
}

fn failed(e: &str) -> BulkItemResult {
    BulkItemResult { result: Err(e.to_string()) }
}

#[test]
fn lines_about_files() {
    assert_eq!(
        report_done(OS, "a.mov", &done(4 * 1048576, 1048576)),
        "  done  a-web.mp4  (4.0MB -> 1.0MB -75%)"
    );
    assert_eq!(report_done(OS, "a.mov", &done(1024, 4096)), "  done  a-web.mp4  (1KB -> 4KB -0%)");
    assert_eq!(report_done(OS, "a.mov", &done(0, 4096)), "  done  a-web.mp4  (0KB -> 4KB )");
    assert_eq!(report_done(OS, "a.mov", &failed("x\nlast")), "  FAIL  a.mov  (last)");
    assert_eq!(report_done(OS, "a.mov", &failed("")), "  FAIL  a.mov  (failed)");
    assert_eq!(display_name(OS, "/v/a.mov"), "a.mov");
    assert_eq!(display_name(OS, "/"), "?");
}

#[test]
fn progress_comes_in_quarters() {
    let mut seen = 0u8;
    assert_eq!(report_progress("a", num(0.2), &mut seen), None);
    assert_eq!(report_progress("a", num(0.6), &mut seen), Some("  ....  a  50%".to_string()));
    assert_eq!(report_progress("a", num(0.5), &mut seen), None);
    assert_eq!(seen, 2);
    assert_eq!(report_progress("a", num(1.0), &mut seen), Some("  ....  a  100%".to_string()));
    assert_eq!(report_progress("a", num(f64::NAN), &mut seen), None);
    assert_eq!(seen, 4);
}

#[test]
fn a_batch_with_failures_is_a_failure() {
    let all = vec![done(1, 1), failed("x"), done(1, 1)];
    assert_eq!(
        summary(&all),
        ("finished: 2 ok, 1 failed".to_string(), Some("1 file(s) failed".to_string()))
    );
    assert_eq!(summary(&vec![done(1, 1)]), ("finished: 1 ok, 0 failed".to_string(), None));
}

fn ways(on_path: &[&str]) -> Vec<Option_> {
    let env = Env {
        local_app_data: None,
        user_profile: None,
        home: Some("/h".to_string()),
        xdg_data_home: None,
        chocolatey_install: None,
        ffmpeg_path: None,
        temp_dir: "/tmp".to_string(),
        current_exe: Some("/usb/stick/resizer-cli".to_string()),
    };
    options(OS, &env, &on_path.iter().map(|s| s.to_string()).collect())
}

#[test]
fn cli_lists_install_options_without_ffmpeg() {
    let text = match run_install(false, None, &ways(&[])) {
        InstallRun::Say(t) => t,
        other => panic!("{other:?}"),
    };
    assert!(text.contains("--method download"), "got: {text}");
    assert!(text.contains("recomendado"), "must recommend one: {text}");
    assert!(text.starts_with(
        "ffmpeg no está instalado. Formas de instalarlo en este sistema:\n\n  \
         --method download     Descarga directa  (recomendado)\n      Descarga una"
    ));
    assert!(text.ends_with("\n\nEjemplo: resizer-cli install-ffmpeg --method download"), "{text}");
    let text = match run_install(false, None, &ways(&["dnf"])) {
        InstallRun::Say(t) => t,
        other => panic!("{other:?}"),
    };
    assert!(text.contains("  --method dnf          dnf  (recomendado)\n"), "{text}");
    assert!(text.ends_with("--method dnf"), "{text}");
}

#[test]
fn cli_rejects_an_unknown_install_method() {
    match run_install(false, Some("carrier-pigeon"), &ways(&[])) {
        InstallRun::Refuse(err) => {
            assert!(err.contains("carrier-pigeon"), "got: {err}");
            assert_eq!(err, "método desconocido 'carrier-pigeon'");
        }
        other => panic!("{other:?}"),
    }
    match run_install(true, Some("brew"), &ways(&["apt-get"])) {
        InstallRun::Refuse(err) => assert_eq!(
            err,
            "'brew' no está disponible en este sistema (prueba: apt, download)"
        ),
        other => panic!("{other:?}"),
    }
}

#[test]
fn a_usable_method_is_run() {
    match run_install(true, Some("apt"), &ways(&["apt-get"])) {
        InstallRun::Install(m) => assert_eq!(m, Method::Apt),
        other => panic!("{other:?}"),
    }
    match run_install(true, None, &ways(&[])) {
        InstallRun::Say(t) => assert_eq!(t, "ffmpeg ya está instalado y funcionando."),
        other => panic!("{other:?}"),
    }
    assert_eq!(installed(Some("ffmpeg 7")), Ok("Listo: ffmpeg 7".to_string()));
    assert_eq!(
        installed(None),
        Err("la instalación terminó pero ffmpeg sigue sin responder".to_string())
    );
}

#[test]
fn ffmpeg_is_not_required_next_to_the_executable() {
    // The managed install directory must be outside the executable's folder,
    // so a copy in Downloads (or on a USB stick) works the same.
    let text = match run_install(false, None, &ways(&[])) {
        InstallRun::Say(t) => t,
        other => panic!("{other:?}"),
    };
    assert!(
        !text.contains("/usb/stick"),
        "the installer must not target the executable's own folder:\n{text}"
    );
}

#[test]
fn the_graphical_program_takes_few_flags() {
    let parse = |v: &[&str]| gui_args(&v.iter().map(|s| s.to_string()).collect());
    let none = GuiArgs { port: 0, no_browser: false, version: false };
    assert_eq!(parse(&[]), none);
    assert_eq!(parse(&["--port", "8080", "--no-browser"]), GuiArgs { port: 8080, no_browser: true, version: false });
    assert_eq!(parse(&["--port", "70000"]), none);
    assert_eq!(parse(&["x", "--port"]), none);
    assert_eq!(parse(&["--port", "--no-browser"]), none);
    assert_eq!(parse(&["-V", "--no-browser"]), GuiArgs { port: 0, no_browser: false, version: true });
}
