use resizer::ffmpeg::{Output, Ran};
use resizer::install::{
    after_step, bin_dir, command_error, data_dir, detail_for, download_into, download_url, escalation, exe_name, install,
    is_root, macos_ffprobe_url, options, package_manager_dirs, privileged, ps_quote, run,
    step_error, Env, Escalation, Method, Next, Option_, Outcome, Script, Step, SEARCH_DEPTH,
};
use resizer::path::{file_name, parent, Os};
use resizer::tree::{find_file, Node};

fn env() -> Env {
    Env {
        local_app_data: Some("C:\\Users\\ana\\AppData\\Local".to_string()),
        user_profile: Some("C:\\Users\\ana".to_string()),
        home: Some("/home/ana".to_string()),
        xdg_data_home: None,
        chocolatey_install: None,
        ffmpeg_path: None,
        temp_dir: "/tmp".to_string(),
        current_exe: Some("/home/ana/Downloads/resizer".to_string()),
    }
}

fn texts(v: &[&str]) -> Vec<String> {
    v.iter().map(|s| s.to_string()).collect()
}

/// The options of every system, with none, some and all of the package
/// managers there.
fn machines() -> Vec<Vec<Option_>> {
    let mut all = Vec::new();
    for os in [Os::Windows, Os::Macos, Os::Other] {
        for on_path in [
            texts(&[]),
            texts(&["choco"]),
            texts(&["pacman", "dnf"]),
            texts(&["winget", "choco", "brew", "apt-get", "dnf", "pacman"]),
        ] {
            all.push(options(os, &env(), &on_path));
        }
    }
    all
}

#[test]
fn every_os_offers_at_least_the_download_option() {
    for opts in machines() {
        assert!(!opts.is_empty());
        assert!(
            opts.iter().any(|o| o.id == "download"),
            "download must always be offered: {opts:?}"
        );
    }
}

#[test]
fn exactly_one_option_is_recommended() {
    for opts in machines() {
        let n = opts.iter().filter(|o| o.recommended).count();
        assert_eq!(n, 1, "expected one recommendation, got {n}: {opts:?}");
    }
}

#[test]
fn recommendation_prefers_a_package_manager_when_present() {
    for opts in machines() {
        let rec = opts.iter().find(|o| o.recommended).unwrap();
        // If any package manager is available, it must be the recommendation.
        let has_pm = opts.iter().any(|o| o.id != "download");
        if has_pm {
            assert_ne!(
                rec.id, "download",
                "a package manager was available: {opts:?}"
            );
        } else {
            assert_eq!(rec.id, "download");
        }
    }
}

#[test]
fn options_carry_a_human_explanation() {
    for opts in machines() {
        for o in opts {
            assert!(!o.label.is_empty());
            assert!(
                o.detail.len() > 20,
                "option {} needs a real explanation",
                o.id
            );
        }
    }
}

#[test]
fn options_follow_the_system() {
    let all = texts(&["winget", "choco", "brew", "apt-get", "dnf", "pacman"]);
    let ids = |os| -> Vec<&'static str> {
        options(os, &env(), &all).iter().map(|o| o.id).collect()
    };
    assert_eq!(ids(Os::Windows), vec!["winget", "chocolatey", "download"]);
    assert_eq!(ids(Os::Macos), vec!["homebrew", "download"]);
    assert_eq!(ids(Os::Other), vec!["apt", "dnf", "pacman", "download"]);
    let some = options(Os::Other, &env(), &texts(&["dnf"]));
    assert_eq!(some.len(), 2);
    assert_eq!((some[0].id, some[0].recommended, some[0].needs_admin), ("dnf", true, true));
    assert_eq!((some[1].label, some[1].needs_admin), ("Descarga directa", false));
    assert!(some[1].detail.contains("/home/ana/.local/share/resizer/bin"));
    assert_eq!(some[0].detail, detail_for(Method::Dnf, ""));
}

#[test]
fn method_ids_round_trip() {
    for m in [
        Method::Winget,
        Method::Chocolatey,
        Method::Homebrew,
        Method::Apt,
        Method::Dnf,
        Method::Pacman,
        Method::Download,
    ] {
        assert_eq!(Method::from_id(m.id()), Some(m));
    }
    assert_eq!(Method::from_id("nope"), None);
    // Friendly aliases.
    assert_eq!(Method::from_id("brew"), Some(Method::Homebrew));
    assert_eq!(Method::from_id("choco"), Some(Method::Chocolatey));
}

#[test]
fn drivers_are_the_commands_on_path() {
    assert_eq!(Method::Apt.driver(), Some("apt-get"));
    assert_eq!(Method::Chocolatey.driver(), Some("choco"));
    assert_eq!(Method::Download.driver(), None);
}

#[test]
fn data_dir_is_private_and_not_next_to_the_exe() {
    for os in [Os::Windows, Os::Macos, Os::Other] {
        let e = env();
        let d = data_dir(os, &e);
        assert_eq!(file_name(os, &d), Some("resizer".to_string()), "{d:?}");
        let exe_dir = parent(os, e.current_exe.as_ref().unwrap()).unwrap();
        assert_ne!(bin_dir(os, &e), exe_dir);
    }
}

#[test]
fn data_dir_follows_the_environment() {
    let mut e = env();
    assert_eq!(data_dir(Os::Windows, &e), "C:\\Users\\ana\\AppData\\Local\\resizer");
    assert_eq!(
        data_dir(Os::Macos, &e),
        "/home/ana/Library/Application Support/resizer"
    );
    assert_eq!(data_dir(Os::Other, &e), "/home/ana/.local/share/resizer");
    e.local_app_data = None;
    e.xdg_data_home = Some("/data/".to_string());
    assert_eq!(data_dir(Os::Windows, &e), "C:\\Users\\ana\\AppData\\Local\\resizer");
    assert_eq!(data_dir(Os::Other, &e), "/data/resizer");
    e.user_profile = None;
    e.home = None;
    e.xdg_data_home = None;
    for os in [Os::Macos, Os::Other] {
        assert_eq!(data_dir(os, &e), "/tmp/resizer");
        assert_eq!(bin_dir(os, &e), "/tmp/resizer/bin");
    }
}

#[test]
fn executables_and_shims_follow_the_system() {
    assert_eq!(exe_name(Os::Windows, "ffmpeg"), "ffmpeg.exe");
    assert_eq!(exe_name(Os::Macos, "ffmpeg"), "ffmpeg");
    let mut e = env();
    assert_eq!(
        package_manager_dirs(Os::Windows, &e),
        texts(&[
            "C:\\Users\\ana\\AppData\\Local\\Microsoft\\WinGet\\Links",
            "C:\\ProgramData\\chocolatey\\bin"
        ])
    );
    e.local_app_data = None;
    e.chocolatey_install = Some("D:\\choco".to_string());
    assert_eq!(package_manager_dirs(Os::Windows, &e), texts(&["D:\\choco\\bin"]));
    assert_eq!(
        package_manager_dirs(Os::Macos, &e),
        texts(&["/opt/homebrew/bin", "/usr/local/bin"])
    );
    assert_eq!(
        package_manager_dirs(Os::Other, &e),
        texts(&["/usr/bin", "/usr/local/bin"])
    );
}

#[test]
fn download_url_is_defined_for_this_platform() {
    // Every platform CI builds on must have a direct download.
    for (os, arch) in [
        ("linux", "x86_64"),
        ("linux", "aarch64"),
        ("windows", "x86_64"),
        ("macos", "aarch64"),
    ] {
        let url = download_url(os, arch).expect("no download URL for this platform");
        assert!(url.starts_with("https://"), "{url}");
    }
    assert!(macos_ffprobe_url().starts_with("https://"));
}

#[test]
fn a_missing_download_names_the_platform() {
    let e = download_url("freebsd", "x86_64").unwrap_err();
    assert_eq!(
        e,
        "No tengo una descarga directa para freebsd/x86_64. Usa el gestor de paquetes de tu sistema."
    );
    assert!(download_url("linux", "riscv64").is_err());
}

fn file(path: &str) -> Node {
    Node::File { path: path.to_string(), canonical: path.to_string() }
}

fn dir(path: &str, entries: Vec<Node>) -> Node {
    Node::Dir { path: path.to_string(), canonical: path.to_string(), entries }
}

#[test]
fn find_file_locates_nested_binaries() {
    let root = "/tmp/resizer-find-1";
    let nested = "/tmp/resizer-find-1/ffmpeg-7.0-essentials";
    let bin = "/tmp/resizer-find-1/ffmpeg-7.0-essentials/bin";
    let exe = "/tmp/resizer-find-1/ffmpeg-7.0-essentials/bin/ffmpeg.exe";
    let entries = vec![dir(nested, vec![dir(bin, vec![file(exe)])])];
    assert_eq!(file_name(Os::Other, root), Some("resizer-find-1".to_string()));
    assert!(find_file(Os::Other, &entries, "ffmpeg.exe", 4).is_some());
    assert!(find_file(Os::Other, &entries, "ffprobe.exe", 4).is_none());
    // Depth limit is respected.
    assert!(find_file(Os::Other, &entries, "ffmpeg.exe", 0).is_none());
    assert!(find_file(Os::Other, &entries, "ffmpeg.exe", 1).is_none());
    assert_eq!(find_file(Os::Other, &entries, "ffmpeg.exe", 2), Some(exe.to_string()));
}

#[test]
fn find_file_prefers_what_is_near() {
    let entries = vec![
        dir("/w/a", vec![file("/w/a/x")]),
        file("/w/y"),
        file("/w/x"),
    ];
    assert_eq!(find_file(Os::Other, &entries, "x", 4), Some("/w/x".to_string()));
    assert_eq!(find_file(Os::Other, &entries, "a", 4), None);
}

#[test]
fn apostrophes_are_doubled_for_powershell() {
    assert_eq!(ps_quote("C:\\Users\\O'Brien\\x"), "'C:\\Users\\O''Brien\\x'");
    assert_eq!(ps_quote(""), "''");
    assert_eq!(ps_quote("''"), "''''''");
}

fn ended(success: bool, stdout: &str, stderr: &[u8]) -> Ran {
    Ran::Ended(Output {
        success,
        stdout: stdout.as_bytes().to_vec(),
        stderr: stderr.to_vec(),
    })
}

#[test]
fn commands_report_the_tail_of_what_they_said() {
    assert_eq!(run("winget", &ended(true, "hola\n", b"")), Ok("hola\n".to_string()));
    assert_eq!(
        run("brew", &Ran::NotStarted("no such file".to_string())),
        Err("no pude ejecutar brew: no such file".to_string())
    );
    let e = run("choco", &ended(false, "o1\n\no2\n", b"e1\r\ne2\n   \ne3\ne4\ne5\ne6")).unwrap_err();
    assert_eq!(e, "choco falló:\ne3\ne4\ne5\ne6\no1\no2");
    assert_eq!(command_error("brew", "", " \n"), "brew falló:\n");
    assert_eq!(command_error("brew", "e", "o\n"), "brew falló:\ne\no");
    // What is not UTF-8 is replaced, not lost.
    let e = run("apt-get", &ended(false, "", b"a\xFFb")).unwrap_err();
    assert_eq!(e, "apt-get falló:\na\u{FFFD}b");
}

fn says(step: &Step, what: &str) -> bool {
    match step {
        Step::Say(s) => s == what,
        _ => false,
    }
}

#[test]
fn package_managers_run_one_command() {
    let s = install(Method::Homebrew, Os::Macos, &env(), "macos", "aarch64", Escalation::Direct).unwrap();
    assert!(s.dir.is_none());
    assert_eq!(s.steps.len(), 2);
    assert!(says(&s.steps[0], "Instalando con Homebrew…"));
    match &s.steps[1] {
        Step::Run { program, args, what } => {
            assert_eq!((program.as_str(), what.as_str()), ("brew", "brew"));
            assert_eq!(args, &texts(&["install", "ffmpeg"]));
        }
        other => panic!("{other:?}"),
    }
    let s = install(Method::Winget, Os::Windows, &env(), "windows", "x86_64", Escalation::Unavailable).unwrap();
    match &s.steps[1] {
        Step::Run { args, .. } => assert_eq!(args[2], "Gyan.FFmpeg"),
        other => panic!("{other:?}"),
    }
    let s = install(Method::Chocolatey, Os::Windows, &env(), "windows", "x86_64", Escalation::Unavailable).unwrap();
    match &s.steps[1] {
        Step::Run { program, args, .. } => {
            assert_eq!(program, "choco");
            assert_eq!(args, &texts(&["install", "ffmpeg", "-y", "--no-progress"]));
        }
        other => panic!("{other:?}"),
    }
}

#[test]
fn system_packages_need_privileges() {
    let run = |m, esc| install(m, Os::Other, &env(), "linux", "x86_64", esc);
    match &run(Method::Apt, Escalation::Direct).unwrap().steps[1] {
        Step::Run { program, args, what } => {
            assert_eq!((program.as_str(), what.as_str()), ("apt-get", "apt-get"));
            assert_eq!(args, &texts(&["install", "-y", "ffmpeg"]));
        }
        other => panic!("{other:?}"),
    }
    match &run(Method::Pacman, Escalation::Pkexec).unwrap().steps[1] {
        Step::Run { program, args, what } => {
            assert_eq!((program.as_str(), what.as_str()), ("pkexec", "pacman"));
            assert_eq!(args, &texts(&["pacman", "-S", "--noconfirm", "ffmpeg"]));
        }
        other => panic!("{other:?}"),
    }
    let e = run(Method::Dnf, Escalation::Unavailable).unwrap_err();
    assert!(e.contains("\n\n    sudo dnf install -y ffmpeg\n\n"), "{e}");
    assert!(e.ends_with("O elige \"Descarga directa\", que no necesita permisos."), "{e}");
    let args = texts(&["dnf", "install"]);
    assert_eq!(privileged(&args, Escalation::Direct), ("dnf".to_string(), texts(&["install"])));
    assert_eq!(privileged(&args, Escalation::Pkexec), ("pkexec".to_string(), args.clone()));
}

#[test]
fn privileges_are_found_out() {
    assert_eq!(escalation(true, false), Escalation::Direct);
    assert_eq!(escalation(false, true), Escalation::Pkexec);
    assert_eq!(escalation(false, false), Escalation::Unavailable);
    assert!(is_root(Some("root"), None, None));
    assert!(is_root(Some("ana"), Some("root"), None));
    assert!(is_root(None, None, Some("0\n")));
    assert!(!is_root(Some("ana"), None, Some("1000\n")));
    assert!(!is_root(None, None, None));
}

#[test]
fn the_download_is_fetched_placed_and_checked() {
    let s = install(Method::Download, Os::Other, &env(), "linux", "x86_64", Escalation::Unavailable).unwrap();
    let bin = "/home/ana/.local/share/resizer/bin".to_string();
    assert_eq!(s.dir, Some(bin.clone()));
    let shown = format!("{:?}", s.steps);
    assert!(shown.contains("ffmpeg-release-amd64-static.tar.xz"), "{shown}");
    assert!(shown.contains("-xJf"), "{shown}");
    assert!(says(&s.steps[3], "Descargando ffmpeg…"));
    match &s.steps[s.steps.len() - 1] {
        Step::Check { program, remove } => {
            assert_eq!(program, &format!("{bin}/ffprobe"));
            assert_eq!(remove, &vec![format!("{bin}/ffmpeg"), format!("{bin}/ffprobe")]);
        }
        other => panic!("{other:?}"),
    }
    let mac = download_into(Os::Macos, "https://evermeet.cx/ffmpeg/getrelease/zip", "/b", "/w");
    let shown = format!("{mac:?}");
    assert!(shown.contains("/w/ffprobe.zip") && shown.contains("-oq"), "{shown}");
    let win = download_into(Os::Windows, "https://x/y.zip", "C:\\O'B\\bin", "C:\\O'B\\download");
    let shown = format!("{win:?}");
    assert!(shown.contains("-OutFile 'C:\\\\O''B\\\\download\\\\ffmpeg.zip'"), "{shown}");
    assert!(shown.contains("ffprobe.exe"), "{shown}");
    assert_eq!(SEARCH_DEPTH, 4);
    assert!(install(Method::Download, Os::Other, &env(), "plan9", "mips", Escalation::Direct).is_err());
}

#[test]
fn each_step_fails_in_its_own_words() {
    let os = Os::Other;
    let why = || "disco lleno".to_string();
    let made = Step::CreateDir("/b".to_string());
    assert_eq!(step_error(os, &made, &Outcome::Done), None);
    assert_eq!(
        step_error(os, &made, &Outcome::NotMade(why())),
        Some("no pude crear /b: disco lleno".to_string())
    );
    assert_eq!(
        step_error(os, &Step::CreateWork("/w".to_string()), &Outcome::NotMade(why())),
        Some("no pude crear carpeta temporal: disco lleno".to_string())
    );
    let cmd = Step::Run { program: "curl".to_string(), args: vec![], what: "la descarga".to_string() };
    assert_eq!(step_error(os, &cmd, &Outcome::Ran(ended(true, "", b""))), None);
    assert_eq!(
        step_error(os, &cmd, &Outcome::Ran(ended(false, "", b"404"))),
        Some("la descarga falló:\n404".to_string())
    );
    let place = Step::Place {
        dir: "/w".to_string(),
        name: "ffprobe".to_string(),
        target: "/b/ffprobe".to_string(),
    };
    assert_eq!(
        step_error(os, &place, &Outcome::NotFound),
        Some("el paquete descargado no traía ffprobe".to_string())
    );
    assert_eq!(
        step_error(os, &place, &Outcome::NotCopied(why())),
        Some("no pude copiar ffprobe: disco lleno".to_string())
    );
    assert_eq!(
        step_error(os, &place, &Outcome::NotExecutable(why())),
        Some("no pude dar permisos a /b/ffprobe: disco lleno".to_string())
    );
    let check = Step::Check { program: "/b/ffmpeg".to_string(), remove: vec![] };
    assert_eq!(
        step_error(os, &check, &Outcome::Silent),
        Some(
            "lo descargado no funciona en este equipo (ffmpeg no responde). \
             Prueba con el gestor de paquetes de tu sistema."
                .to_string()
        )
    );
    assert_eq!(step_error(os, &check, &Outcome::Done), None);
}

#[test]
fn an_installation_ends_at_its_first_failure() {
    let os = Os::Other;
    let script = |dir: Option<&str>| Script {
        steps: vec![
            Step::Say("a".to_string()),
            Step::CreateDir("/d".to_string()),
            Step::RemoveDir("/w".to_string()),
        ],
        dir: dir.map(str::to_string),
    };
    let s = script(Some("/d"));
    let bad = Outcome::NotMade("full".to_string());
    assert_eq!(after_step(os, &s, 0, &Outcome::Done), Next::Do(1));
    assert_eq!(after_step(os, &s, 1, &Outcome::Done), Next::Do(2));
    assert_eq!(after_step(os, &s, 1, &bad), Next::Stop("no pude crear /d: full".to_string()));
    assert_eq!(after_step(os, &s, 2, &Outcome::Done), Next::Done(Some("/d".to_string())));
    assert_eq!(after_step(os, &script(None), 2, &Outcome::Done), Next::Done(None));
}
