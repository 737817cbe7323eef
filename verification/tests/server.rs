use resizer::double::Double;
use resizer::install::{options, Env, Method};
use resizer::jobs::BulkItemResult;
use resizer::json::Json;
use resizer::path::{file_name, Os};
use resizer::plan::{plan_video, MediaInfo, Ratio, Settings};
use resizer::server::{
    accepted_name, api_clear, api_convert, api_ffmpeg_install, api_ffmpeg_options, api_folder, api_preview,
    api_settings, api_upload, batch, begin_upload, content_type_for,
    decoded_bytes, default_out_dir,
    end_conversion, end_install, err_json, find_entry, folder_request, gen_token, handle,
    host_is_local, note_event, note_step, ok_json, open_browser, open_in_os, page,
    preview_target, read_json_body, serve_file, started, token_ok, upload_error, upload_name,
    urldecode, AppState, Found, Header, Reply, Route, Status, Verb, MAX_UPLOAD,
};

const OS: Os = Os::Other;

fn num(x: f64) -> Double {
    Double { bits: x.to_bits() }
}

fn env() -> Env {
    Env {
        local_app_data: None,
        user_profile: Some("C:\\Users\\ana".to_string()),
        home: Some("/h".to_string()),
        xdg_data_home: None,
        chocolatey_install: None,
        ffmpeg_path: None,
        temp_dir: "/tmp".to_string(),
        current_exe: None,
    }
}

fn body(s: &str) -> Json {
    read_json_body(&Ok(s.as_bytes().to_vec())).unwrap()
}

fn header(field: &str, value: &str) -> Header {
    Header { field: field.to_string(), value: value.to_string() }
}

fn says(r: &Reply, status: u16, json: &str) {
    assert_eq!((r.status, r.body.as_str()), (status, json));
}

#[test]
fn urldecode_handles_utf8_and_spaces() {
    assert_eq!(urldecode("hola%20mundo.mp4"), "hola mundo.mp4");
    assert_eq!(urldecode("ni%C3%B1a.jpg"), "niña.jpg");
    assert_eq!(urldecode("a+b.png"), "a b.png");
    assert_eq!(urldecode("plain.mp4"), "plain.mp4");
    // Truncated escape stays as-is instead of panicking.
    assert_eq!(urldecode("bad%2"), "bad%2");
}

#[test]
fn urldecode_leaves_broken_escapes_alone() {
    assert_eq!(urldecode("%zz%"), "%zz%");
    assert_eq!(urldecode("100%25"), "100%");
    assert_eq!(urldecode("%+5x"), "\u{5}x");
    assert_eq!(urldecode("%é"), "%é");
    assert_eq!(urldecode("%FFa"), "\u{FFFD}a");
    assert_eq!(urldecode("ni\u{F1}a%2fb"), "niña/b");
    assert_eq!(urldecode(""), "");
    let every: String = "niña 1+1.mp4".bytes().map(|b| format!("%{b:02X}")).collect();
    assert_eq!(urldecode(&every), "niña 1+1.mp4");
    assert_eq!(decoded_bytes("a%FF+%2"), vec![97, 255, 32, 37, 50]);
}

#[test]
fn content_types_cover_outputs() {
    assert_eq!(content_type_for(OS, "a.mp4"), "video/mp4");
    assert_eq!(content_type_for(OS, "a.webp"), "image/webp");
    assert_eq!(content_type_for(OS, "a.bin"), "application/octet-stream");
}

#[test]
fn content_types_follow_the_extension() {
    for (file, kind) in [
        ("x.MOV", "video/mp4"),
        ("x.m4v", "video/mp4"),
        ("x.webm", "video/webm"),
        ("x.jpeg", "image/jpeg"),
        ("x.JPG", "image/jpeg"),
        ("x.png", "image/png"),
        ("x.gif", "image/gif"),
        ("x", "application/octet-stream"),
    ] {
        assert_eq!(content_type_for(OS, file), kind);
    }
}

#[test]
fn default_out_dir_is_under_home() {
    let d = default_out_dir(OS, &env());
    assert_eq!(file_name(OS, &d), Some("resizer-output".to_string()));
    assert_eq!(d, "/h/resizer-output");
    let mut e = env();
    e.home = None;
    assert_eq!(default_out_dir(Os::Windows, &e), "C:\\Users\\ana\\resizer-output");
    e.user_profile = None;
    assert_eq!(default_out_dir(OS, &e), "./resizer-output");
}

#[test]
fn things_are_opened_by_the_system() {
    assert_eq!(open_in_os(Os::Windows, "C:\\o").0, "explorer");
    assert_eq!(open_in_os(Os::Macos, "/o").0, "open");
    assert_eq!(
        open_browser(Os::Other, "http://127.0.0.1:1"),
        ("xdg-open".to_string(), vec!["http://127.0.0.1:1".to_string()])
    );
}

#[test]
fn only_loopback_hosts_are_local() {
    for (host, local) in [
        ("127.0.0.1", true),
        ("127.0.0.1:8080", true),
        ("localhost:1", true),
        ("localhost", true),
        ("evil.example", false),
        ("127.0.0.1.evil.example", false),
        ("[::1]", false),
        ("[::1]:8080", false),
        ("[", false),
        ("[::1]evil.example:80", false),
        ("[::2]:80", false),
        ("::1", false),
        ("LOCALHOST", false),
        ("", false),
    ] {
        assert_eq!(host_is_local(&vec![header("hOsT", host)]), local, "{host}");
    }
    assert!(!host_is_local(&vec![]));
    // The first header counts.
    assert!(!host_is_local(&vec![header("Host", "evil"), header("Host", "localhost")]));
}

#[test]
fn tokens_are_compared_whole() {
    let token = gen_token(0xAB, u64::MAX);
    assert_eq!(token, "00000000000000abffffffffffffffff");
    assert!(token_ok(&vec![header("x-resizer-token", &token)], &token));
    assert!(!token_ok(&vec![header("x-resizer-token", "00")], &token));
    assert!(!token_ok(&vec![], &token));
    assert_eq!(
        page("<meta content=\"__RESIZER_TOKEN__\">__RESIZER_TOKEN_", &token),
        format!("<meta content=\"{token}\">__RESIZER_TOKEN_")
    );
}

fn ask(verb: Verb, url: &str, headers: &[(&str, &str)], ready: bool) -> Route {
    let h: Vec<Header> = headers.iter().map(|(f, v)| header(f, v)).collect();
    handle(verb, url, &h, "secret", ready)
}

const LOCAL: (&str, &str) = ("Host", "127.0.0.1:99");
const TOKEN: (&str, &str) = ("X-Resizer-Token", "secret");

#[test]
fn strangers_and_blind_posts_are_refused() {
    match ask(Verb::Get, "/", &[("Host", "evil.example"), TOKEN], true) {
        Route::Answer(r) => says(&r, 403, "{\"error\":\"forbidden\"}"),
        other => panic!("{other:?}"),
    }
    match ask(Verb::Post, "/api/clear", &[LOCAL], true) {
        Route::Answer(r) => says(&r, 403, "{\"error\":\"bad token\"}"),
        other => panic!("{other:?}"),
    }
    match ask(Verb::Other, "/api/clear", &[LOCAL, TOKEN], true) {
        Route::Answer(r) => says(&r, 404, "{\"error\":\"not found\"}"),
        other => panic!("{other:?}"),
    }
}

#[test]
fn every_route_is_reached() {
    let get = |url| ask(Verb::Get, url, &[LOCAL], false);
    assert!(matches!(get("/"), Route::Page));
    assert!(matches!(get("/?x=1"), Route::Page));
    assert!(matches!(get("/api/state?poll"), Route::State));
    assert!(matches!(get("/api/ffmpeg/options"), Route::FfmpegOptions));
    match get("/file/1/original?t=2") {
        Route::File(p) => assert_eq!(p, "/file/1/original"),
        other => panic!("{other:?}"),
    }
    assert!(matches!(get("/api/convert"), Route::Answer(_)));
    assert!(matches!(get("/nope"), Route::Answer(_)));
    let post = |url| ask(Verb::Post, url, &[LOCAL, TOKEN], true);
    assert!(matches!(post("/api/upload"), Route::Upload));
    assert!(matches!(post("/api/folder"), Route::Folder));
    assert!(matches!(post("/api/settings"), Route::Settings));
    assert!(matches!(post("/api/preview"), Route::Preview));
    assert!(matches!(post("/api/convert"), Route::Convert));
    assert!(matches!(post("/api/clear"), Route::Clear));
    assert!(matches!(post("/api/open-output"), Route::OpenOutput));
    assert!(matches!(post("/api/ffmpeg/install"), Route::FfmpegInstall));
    assert!(matches!(post("/"), Route::Answer(_)));
}

#[test]
fn media_endpoints_explain_themselves_instead_of_failing_silently() {
    for path in ["/api/convert", "/api/preview", "/api/folder", "/api/upload"] {
        match ask(Verb::Post, path, &[LOCAL, TOKEN], false) {
            Route::Answer(r) => {
                assert_eq!(r.status, 503, "{path} should report the missing dependency");
                let v = body(&r.body);
                assert!(
                    v.text_at("error").unwrap_or("").contains("ffmpeg"),
                    "{path} error should name ffmpeg: {}",
                    r.body
                );
            }
            other => panic!("{other:?}"),
        }
    }
}

#[test]
fn install_options_are_offered_with_one_recommendation() {
    let all = options(OS, &env(), &vec!["apt-get".to_string()]);
    let r = api_ffmpeg_options(&all);
    assert_eq!(r.status, 200);
    let v = body(&r.body);
    let opts = match v.get("options") {
        Some(Json::List(o)) => o,
        other => panic!("{other:?}"),
    };
    assert!(
        !opts.is_empty(),
        "at least one install method must be offered"
    );
    assert!(
        opts.iter().any(|o| o.text_at("id") == Some("download")),
        "the no-prerequisites download must always be an option: {opts:?}"
    );
    let recommended: Vec<_> = opts.iter().filter(|o| o.bool_at("recommended") == Some(true)).collect();
    assert_eq!(recommended.len(), 1, "exactly one recommendation: {opts:?}");
    // Every option explains itself before the user commits to it.
    for o in opts {
        assert!(
            o.text_at("detail").map(|d| d.len() > 20).unwrap_or(false),
            "option without explanation: {o:?}"
        );
    }
}

fn state() -> AppState {
    AppState::new(OS, &env(), 4)
}

#[test]
fn install_endpoint_rejects_unknown_methods() {
    let mut s = state();
    let r = api_ffmpeg_install(&mut s, &body("{\"method\":\"rm-rf\"}")).unwrap_err();
    assert_eq!(r.status, 400, "unknown install methods must be refused");
    assert_eq!(api_ffmpeg_install(&mut s, &body("{}")).unwrap_err().status, 400);
    assert!(!s.setup.installing);
    let m = api_ffmpeg_install(&mut s, &body("{\"method\":\"brew\"}")).unwrap();
    assert_eq!(m, Method::Homebrew);
    note_step(&mut s, "Instalando…");
    assert!(s.setup.installing && s.setup.steps == vec!["Instalando…".to_string()]);
    assert_eq!(api_ffmpeg_install(&mut s, &body("{\"method\":\"apt\"}")).unwrap_err().status, 409);
    end_install(&mut s, Some("no".to_string()));
    assert!(!s.setup.installing && s.setup.error == Some("no".to_string()));
    says(&started(), 200, "{\"started\":true}");
}

#[test]
fn replies_are_json() {
    says(&err_json(500, "a \"b\"\n"), 500, "{\"error\":\"a \\\"b\\\"\\n\"}");
    says(&ok_json(&Json::List(vec![Json::Null, Json::Int(-3), Json::Bool(false)])), 200, "[null,-3,false]");
    let e = read_json_body(&Ok(b"{\"a\":".to_vec())).unwrap_err();
    assert!(e.starts_with("bad json: EOF while parsing"), "{e}");
    let e = read_json_body(&Err("gone".to_string())).unwrap_err();
    assert_eq!(e, "read body: gone");
    let v = body("{\"a\":[1,-2,2.5,\"x\",null,true],\"b\":{\"c\":18446744073709551615}}");
    match v.get("a") {
        Some(Json::List(a)) => match (&a[0], &a[1], &a[2], &a[5]) {
            (Json::Uint(1), Json::Int(-2), Json::Float(f), Json::Bool(true)) => {
                assert_eq!(*f, num(2.5))
            }
            other => panic!("{other:?}"),
        },
        other => panic!("{other:?}"),
    }
    assert_eq!(v.get("b").unwrap().uint_at("c"), Some(u64::MAX));
    assert!(v.get("z").is_none());
}

#[test]
fn uploads_keep_their_name_and_lose_their_path() {
    let name = |v: &str| upload_name(OS, &vec![header("X-Filename", v)]);
    assert_eq!(name("ni%C3%B1a.JPG").unwrap(), "niña.JPG");
    assert_eq!(name("..%2F..%2Fetc%2Fclip.mp4").unwrap(), "clip.mp4");
    says(&name("notes.txt").unwrap_err(), 415, "{\"error\":\"Ese tipo de archivo no es imagen ni video.\"}");
    assert_eq!(upload_name(OS, &vec![]).unwrap_err().status, 415);
    assert_eq!(accepted_name(OS, "/x/y/a.png").unwrap(), "a.png");
    assert_eq!(accepted_name(Os::Windows, "C:\\x\\a.png").unwrap(), "a.png");
    assert_eq!(accepted_name(OS, "a.png/..").unwrap_err().status, 415);
    assert!(upload_error(Some(1)).is_none());
    assert!(upload_error(Some(MAX_UPLOAD)).is_none());
    assert_eq!(upload_error(Some(MAX_UPLOAD + 1)).unwrap().status, 413);
    assert_eq!(upload_error(Some(0)).unwrap().status, 400);
    assert_eq!(upload_error(None).unwrap().status, 400);
}

fn add(s: &mut AppState, name: &str) -> u64 {
    let up = begin_upload(OS, s, "/s", name);
    let id = up.id;
    let r = api_upload(s, up, 10, Ok(MediaInfo::default()));
    says(&r, 200, &format!("{{\"id\":{id}}}"));
    id
}

#[test]
fn uploads_become_entries() {
    let mut s = state();
    let up = begin_upload(OS, &mut s, "/s", "a.mp4");
    assert_eq!((up.id, up.dir.as_str(), up.file.as_str()), (1, "/s/in-1", "/s/in-1/a.mp4"));
    let r = api_upload(&mut s, up, 10, Err("roto".to_string()));
    says(&r, 415, "{\"error\":\"No pude leer ese archivo: roto\"}");
    assert!(s.entries.is_empty());
    assert_eq!(add(&mut s, "b.mp4"), 2);
    let e = &s.entries[0];
    assert_eq!((e.name.as_str(), e.path.as_str(), e.uploaded), ("b.mp4", "/s/in-2/b.mp4", true));
    assert_eq!((e.status, e.size, e.progress), (Status::Ready, 10, num(0.0)));
}

fn found(path: &str, readable: bool) -> Found {
    Found {
        path: path.to_string(),
        info: if readable { Some(MediaInfo::default()) } else { None },
        size: 5,
    }
}

#[test]
fn folders_add_what_is_new_and_readable() {
    assert_eq!(folder_request(&body("{\"path\":\"/f\",\"recursive\":true}")), ("/f".to_string(), true));
    assert_eq!(folder_request(&body("{\"recursive\":\"yes\"}")), ("".to_string(), false));
    let mut s = state();
    assert_eq!(api_folder(OS, &mut s, false, &vec![]).status, 400);
    let r = api_folder(OS, &mut s, true, &vec![]);
    says(&r, 400, "{\"error\":\"No encontré imágenes ni videos en esa carpeta.\"}");
    let files = vec![found("/f/a.png", true), found("/f/b.png", false), found("/f/c.png", true)];
    says(&api_folder(OS, &mut s, true, &files), 200, "{\"added\":2}");
    let again = vec![found("/f//a.png", true), found("/f/d.png", true)];
    says(&api_folder(OS, &mut s, true, &again), 200, "{\"added\":1}");
    let ids: Vec<u64> = s.entries.iter().map(|e| e.id).collect();
    assert_eq!(ids, vec![1, 2, 4]);
    assert_eq!(s.entries[2].name, "d.png");
    assert!(!s.entries[0].uploaded);
}

#[test]
fn settings_are_replaced_piece_by_piece() {
    let mut s = state();
    assert_eq!((s.settings.ratio, s.jobs), (Ratio::Hover45, 4));
    let r = api_settings(&mut s, &body("{\"out_dir\":\"  /o  \",\"jobs\":99}"), None);
    says(&r, 200, "{\"ok\":true}");
    assert_eq!((s.out_dir.as_str(), s.jobs), ("/o", 16));
    api_settings(&mut s, &body("{\"out_dir\":\"   \",\"jobs\":0}"), Some(Ok(Settings::default())));
    assert_eq!((s.out_dir.as_str(), s.jobs, s.settings.ratio), ("/o", 1, Ratio::Original));
    let r = api_settings(&mut s, &body("{\"jobs\":3}"), Some(Err("mal".to_string())));
    says(&r, 400, "{\"error\":\"bad settings: mal\"}");
    assert_eq!(s.jobs, 1);
}

#[test]
fn previews_name_their_file() {
    let mut s = state();
    let id = add(&mut s, "a.png");
    assert_eq!(preview_target(&s, &body("{\"id\":1}")).unwrap(), (id, 0));
    let r = preview_target(&s, &body("{\"id\":\"1\"}")).unwrap_err();
    says(&r, 404, "{\"error\":\"archivo no encontrado\"}");
    let info = MediaInfo { width: 640, height: 480, ..Default::default() };
    let plan = plan_video(&info, &Settings::default());
    let r = api_preview(OS, id, &plan, Ok(("/s/preview-1.jpg".to_string(), 77)));
    says(
        &r,
        200,
        "{\"est_bytes\":77,\"height\":480,\"url\":\"/file/1/preview/preview-1.jpg\",\"width\":640}",
    );
    assert_eq!(api_preview(OS, id, &plan, Err("x".to_string())).status, 500);
    // The URL leads to the file.
    assert_eq!(
        serve_file(OS, &s, "/s", "/file/1/preview/preview-1.jpg"),
        Some("/s/preview-1.jpg".to_string())
    );
}

#[test]
fn conversions_run_one_at_a_time() {
    let mut s = state();
    let (go, r) = api_convert(&mut s);
    assert!(!go);
    says(&r, 400, "{\"error\":\"No hay archivos pendientes.\"}");
    let (a, b) = (add(&mut s, "a.png"), add(&mut s, "b.png"));
    let (go, r) = api_convert(&mut s);
    assert!(go && s.converting);
    says(&r, 200, "{\"started\":true}");
    let (ids, paths) = batch(&s);
    assert_eq!(ids, vec![a, b]);
    assert_eq!(paths, vec!["/s/in-1/a.png".to_string(), "/s/in-2/b.png".to_string()]);
    let (go, r) = api_convert(&mut s);
    assert!(!go);
    says(&r, 409, "{\"error\":\"Ya hay una conversión en curso.\"}");
    let (dirs, r) = api_clear(OS, &mut s);
    assert!(dirs.is_empty() && r.status == 409);
    note_event(&mut s, a, num(0.5), None);
    assert_eq!((s.entries[0].status, s.entries[0].progress), (Status::Working, num(0.5)));
    let ok = BulkItemResult { result: Ok(("/o/a-web.jpg".to_string(), 10, 3)) };
    note_event(&mut s, a, num(1.0), Some(&ok));
    let bad = BulkItemResult { result: Err("mal".to_string()) };
    note_event(&mut s, b, num(1.0), Some(&bad));
    note_event(&mut s, 99, num(1.0), Some(&bad));
    assert_eq!(s.entries[0].status, Status::Done);
    assert_eq!(s.entries[0].out_path, Some("/o/a-web.jpg".to_string()));
    assert_eq!(s.entries[0].out_size, Some(3));
    assert_eq!((s.entries[1].status, s.entries[1].error.clone()), (Status::Error, Some("mal".to_string())));
    end_conversion(&mut s);
    assert!(!s.converting);
    assert_eq!(api_convert(&mut s).1.status, 400);
    assert_eq!(find_entry(&s, b), Some(1));
    api_folder(OS, &mut s, true, &vec![found("/f/c.png", true)]);
    let (dirs, r) = api_clear(OS, &mut s);
    says(&r, 200, "{\"ok\":true}");
    assert_eq!(dirs, vec!["/s/in-1".to_string(), "/s/in-2".to_string()]);
    assert!(s.entries.is_empty());
}

#[test]
fn only_own_files_are_served() {
    let mut s = state();
    add(&mut s, "a.png");
    let at = |p: &str| serve_file(OS, &s, "/s", p);
    assert_eq!(at("/file/1/original"), Some("/s/in-1/a.png".to_string()));
    assert_eq!(at("//file/+1/original/x"), Some("/s/in-1/a.png".to_string()));
    assert_eq!(at("/file/2/original"), None);
    assert_eq!(at("/file/x/original"), None);
    assert_eq!(at("/file/1/preview/preview-1.mp4"), Some("/s/preview-1.mp4".to_string()));
    assert_eq!(at("/file/1/preview/preview-12.mp4"), None);
    assert_eq!(at("/file/1/preview/preview-1./../x"), Some("/s/preview-1.".to_string()));
    assert_eq!(at("/file/1/preview/preview-1...x"), None);
    assert_eq!(at("/file/1/preview"), None);
    assert_eq!(at("/file/1/secret"), None);
    assert_eq!(at("/file/"), None);
}
