//! Finding and installing ffmpeg for the user.
//!
//! The program never requires ffmpeg to sit next to the executable: it looks
//! in the OS package locations first, then in its own private data directory,
//! and it can install ffmpeg there on request. Every installation method is
//! offered to the user with a per-OS recommendation before anything runs.
use crate::ffmpeg::{Output, Ran};
use crate::path;
use crate::path::{file_name, join, Os};
use crate::text;
use crate::text::{
    chars_of, ends_with, join_texts, joined, joined3, last_texts, lines_of, lossy_text, put, same,
    trimmed,
};
use vstd::prelude::*;

verus! {

/// How ffmpeg can be installed.
#[derive(Debug, Clone, Copy, PartialEq, Eq, Structural)]
pub enum Method {
    /// Windows package manager (ships with Windows 10/11).
    Winget,
    /// Windows community package manager.
    Chocolatey,
    /// macOS package manager.
    Homebrew,
    /// Debian/Ubuntu.
    Apt,
    /// Fedora/RHEL.
    Dnf,
    /// Arch.
    Pacman,
    /// Download an official static build into the app's own folder.
    Download,
}

/// The name by which a method is chosen.
pub open spec fn id_of(m: Method) -> Seq<char> {
    match m {
        Method::Winget => "winget"@,
        Method::Chocolatey => "chocolatey"@,
        Method::Homebrew => "homebrew"@,
        Method::Apt => "apt"@,
        Method::Dnf => "dnf"@,
        Method::Pacman => "pacman"@,
        Method::Download => "download"@,
    }
}

/// The method that a name, or one of the friendly aliases, stands for.
pub open spec fn method_of(s: Seq<char>) -> Option<Method> {
    if s == "winget"@ {
        Some(Method::Winget)
    } else if s == "chocolatey"@ || s == "choco"@ {
        Some(Method::Chocolatey)
    } else if s == "homebrew"@ || s == "brew"@ {
        Some(Method::Homebrew)
    } else if s == "apt"@ {
        Some(Method::Apt)
    } else if s == "dnf"@ {
        Some(Method::Dnf)
    } else if s == "pacman"@ {
        Some(Method::Pacman)
    } else if s == "download"@ {
        Some(Method::Download)
    } else {
        None
    }
}

/// The command that must exist on PATH for a method to be usable.
pub open spec fn driver_of(m: Method) -> Option<Seq<char>> {
    match m {
        Method::Winget => Some("winget"@),
        Method::Chocolatey => Some("choco"@),
        Method::Homebrew => Some("brew"@),
        Method::Apt => Some("apt-get"@),
        Method::Dnf => Some("dnf"@),
        Method::Pacman => Some("pacman"@),
        Method::Download => None,
    }
}

impl Method {
    pub fn id(self) -> (r: &'static str)
        ensures
            r@ == id_of(self),
    {
        match self {
            Method::Winget => "winget",
            Method::Chocolatey => "chocolatey",
            Method::Homebrew => "homebrew",
            Method::Apt => "apt",
            Method::Dnf => "dnf",
            Method::Pacman => "pacman",
            Method::Download => "download",
        }
    }

    pub fn from_id(s: &str) -> (r: Option<Method>)
        ensures
            r == method_of(s@),
    {
        if same(s, "winget") {
            Some(Method::Winget)
        } else if same(s, "chocolatey") || same(s, "choco") {
            Some(Method::Chocolatey)
        } else if same(s, "homebrew") || same(s, "brew") {
            Some(Method::Homebrew)
        } else if same(s, "apt") {
            Some(Method::Apt)
        } else if same(s, "dnf") {
            Some(Method::Dnf)
        } else if same(s, "pacman") {
            Some(Method::Pacman)
        } else if same(s, "download") {
            Some(Method::Download)
        } else {
            None
        }
    }

    /// The command that must exist on PATH for this method to be usable.
    pub fn driver(self) -> (r: Option<&'static str>)
        ensures
            r is Some == driver_of(self) is Some,
            r is Some ==> r->0@ == driver_of(self)->0,
    {
        match self {
            Method::Winget => Some("winget"),
            Method::Chocolatey => Some("choco"),
            Method::Homebrew => Some("brew"),
            Method::Apt => Some("apt-get"),
            Method::Dnf => Some("dnf"),
            Method::Pacman => Some("pacman"),
            Method::Download => None,
        }
    }
}

/// A method's own name always leads back to it.
pub proof fn law_ids_round_trip(m: Method)
    ensures
        method_of(id_of(m)) == Some(m),
{
    reveal_strlit("winget");
    reveal_strlit("chocolatey");
    reveal_strlit("choco");
    reveal_strlit("homebrew");
    reveal_strlit("brew");
    reveal_strlit("apt");
    reveal_strlit("dnf");
    reveal_strlit("pacman");
    reveal_strlit("download");
    assert("dnf"@[0] != "apt"@[0]);
    assert("pacman"@[0] != "winget"@[0]);
    assert("download"@[0] != "homebrew"@[0]);
    let s = id_of(m);
    match m {
        Method::Winget => {},
        Method::Chocolatey => assert(s.len() == 10 && s != "winget"@),
        Method::Homebrew => assert(s.len() == 8),
        Method::Apt => assert(s.len() == 3),
        Method::Dnf => assert(s.len() == 3 && s != "apt"@),
        Method::Pacman => assert(s.len() == 6 && s != "winget"@),
        Method::Download => assert(s.len() == 8 && s != "homebrew"@),
    }
}

/// What the process was started with: the variables of its environment that
/// matter here, and two paths that the system gives.
#[derive(Debug, Clone)]
pub struct Env {
    pub local_app_data: Option<String>,
    pub user_profile: Option<String>,
    pub home: Option<String>,
    pub xdg_data_home: Option<String>,
    pub chocolatey_install: Option<String>,
    pub ffmpeg_path: Option<String>,
    /// The directory for temporary files.
    pub temp_dir: String,
    /// The path of the running executable, where it is known.
    pub current_exe: Option<String>,
}

/// The directory under which the app's own is made.
pub open spec fn base_dir(os: Os, env: Env) -> Seq<char> {
    match os {
        Os::Windows => match (env.local_app_data, env.user_profile) {
            (Some(l), _) => l@,
            (None, Some(u)) => path::inside(os, u@, "AppData\\Local"@),
            _ => env.temp_dir@,
        },
        Os::Macos => match env.home {
            Some(h) => path::inside(os, h@, "Library/Application Support"@),
            None => env.temp_dir@,
        },
        Os::Other => match (env.xdg_data_home, env.home) {
            (Some(x), _) => x@,
            (None, Some(h)) => path::inside(os, h@, ".local/share"@),
            _ => env.temp_dir@,
        },
    }
}

/// Private data directory for this app.
pub open spec fn private_dir(os: Os, env: Env) -> Seq<char> {
    path::inside(os, base_dir(os, env), "resizer"@)
}

/// Where a downloaded ffmpeg lives.
pub open spec fn own_bin_dir(os: Os, env: Env) -> Seq<char> {
    path::inside(os, private_dir(os, env), "bin"@)
}

/// Private data directory for this app (never next to the executable, so the
/// program works from Downloads, a USB stick, or anywhere else).
pub fn data_dir(os: Os, env: &Env) -> (r: String)
    ensures
        r@ == private_dir(os, *env),
{
    let base: String = match os {
        Os::Windows => match (&env.local_app_data, &env.user_profile) {
            (Some(l), _) => l.clone(),
            (None, Some(u)) => join(os, u, "AppData\\Local"),
            _ => env.temp_dir.clone(),
        },
        Os::Macos => match &env.home {
            Some(h) => join(os, h, "Library/Application Support"),
            None => env.temp_dir.clone(),
        },
        Os::Other => match (&env.xdg_data_home, &env.home) {
            (Some(x), _) => x.clone(),
            (None, Some(h)) => join(os, h, ".local/share"),
            _ => env.temp_dir.clone(),
        },
    };
    join(os, &base, "resizer")
}

/// Where a downloaded ffmpeg lives.
pub fn bin_dir(os: Os, env: &Env) -> (r: String)
    ensures
        r@ == own_bin_dir(os, *env),
{
    join(os, &data_dir(os, env), "bin")
}

/// The private directory does not depend on where the executable lies, so the
/// program works the same from any place.
pub proof fn law_data_dir_ignores_the_executable(os: Os, env: Env, exe: Option<String>)
    ensures
        private_dir(os, Env { current_exe: exe, ..env }) == private_dir(os, env),
        own_bin_dir(os, Env { current_exe: exe, ..env }) == own_bin_dir(os, env),
{
}

/// The name of an executable.
pub open spec fn program(os: Os, base: Seq<char>) -> Seq<char> {
    if os is Windows {
        base + ".exe"@
    } else {
        base
    }
}

pub fn exe_name(os: Os, base: &str) -> (r: String)
    ensures
        r@ == program(os, base@),
{
    if os == Os::Windows {
        joined(base, ".exe")
    } else {
        base.to_owned()
    }
}

/// Directories where the OS package managers put ffmpeg.
pub open spec fn manager_dirs(os: Os, env: Env) -> Seq<Seq<char>> {
    match os {
        Os::Windows => {
            let winget: Seq<Seq<char>> = match env.local_app_data {
                Some(l) => seq![path::inside(os, l@, "Microsoft\\WinGet\\Links"@)],
                None => seq![],
            };
            let choco = match env.chocolatey_install {
                Some(c) => c@,
                None => "C:\\ProgramData\\chocolatey"@,
            };
            winget + seq![path::inside(os, choco, "bin"@)]
        },
        Os::Macos => seq!["/opt/homebrew/bin"@, "/usr/local/bin"@],
        Os::Other => seq!["/usr/bin"@, "/usr/local/bin"@],
    }
}

/// Directories where the OS package managers put ffmpeg. A process that just
/// triggered an install still has its old PATH, so these are checked directly.
pub fn package_manager_dirs(os: Os, env: &Env) -> (r: Vec<String>)
    ensures
        text::texts(r@) == manager_dirs(os, *env),
{
    let mut dirs: Vec<String> = Vec::new();
    assert(text::texts(dirs@) =~= seq![]);
    match os {
        Os::Windows => {
            if let Some(local) = &env.local_app_data {
                // winget's shim directory.
                put(&mut dirs, &join(os, local, "Microsoft\\WinGet\\Links"));
            }
            // Chocolatey's shim directory.

            let choco: String = match &env.chocolatey_install {
                Some(c) => c.clone(),
                None => "C:\\ProgramData\\chocolatey".to_owned(),
            };
            put(&mut dirs, &join(os, &choco, "bin"));
        },
        Os::Macos => {
            // Homebrew on Apple Silicon and on Intel.
            put(&mut dirs, "/opt/homebrew/bin");
            put(&mut dirs, "/usr/local/bin");
        },
        Os::Other => {
            put(&mut dirs, "/usr/bin");
            put(&mut dirs, "/usr/local/bin");
        },
    }
    assert(text::texts(dirs@) =~= manager_dirs(os, *env));
    dirs
}

/// One installation option as presented to the user.
#[derive(Debug, Clone)]
pub struct Option_ {
    pub id: &'static str,
    /// Short name shown on the button.
    pub label: &'static str,
    /// One line explaining what will happen, in Spanish (the GUI's language).
    pub detail: String,
    /// True when this is the suggested choice for the current OS.
    pub recommended: bool,
    /// May pop up a UAC / password prompt.
    pub needs_admin: bool,
}

/// What an installation option says.
pub ghost struct OptionV {
    pub id: Seq<char>,
    pub label: Seq<char>,
    pub detail: Seq<char>,
    pub recommended: bool,
    pub needs_admin: bool,
}

impl View for Option_ {
    type V = OptionV;

    open spec fn view(&self) -> OptionV {
        OptionV {
            id: self.id@,
            label: self.label@,
            detail: self.detail@,
            recommended: self.recommended,
            needs_admin: self.needs_admin,
        }
    }
}

/// The methods that a system knows, best first.
pub open spec fn candidates(os: Os) -> Seq<Method> {
    match os {
        Os::Windows => seq![Method::Winget, Method::Chocolatey, Method::Download],
        Os::Macos => seq![Method::Homebrew, Method::Download],
        Os::Other => seq![Method::Apt, Method::Dnf, Method::Pacman, Method::Download],
    }
}

/// Whether a method works on a machine where those commands answer.
pub open spec fn is_usable(m: Method, on_path: Seq<Seq<char>>) -> bool {
    match driver_of(m) {
        Some(d) => on_path.contains(d),
        None => true,
    }
}

/// The first `n` methods that work.
pub open spec fn usable_of(c: Seq<Method>, on_path: Seq<Seq<char>>, n: nat) -> Seq<Method>
    decreases n,
{
    if n == 0 {
        seq![]
    } else if is_usable(c[n - 1], on_path) {
        usable_of(c, on_path, (n - 1) as nat).push(c[n - 1])
    } else {
        usable_of(c, on_path, (n - 1) as nat)
    }
}

/// The methods that make sense on a machine, best first.
pub open spec fn usable(os: Os, on_path: Seq<Seq<char>>) -> Seq<Method> {
    usable_of(candidates(os), on_path, candidates(os).len())
}

/// The suggested method: the OS's own package manager when it is actually
/// present (updates come for free), otherwise the self-contained download.
pub open spec fn suggested(us: Seq<Method>, from: int) -> Method
    decreases us.len() - from,
{
    if from >= us.len() {
        Method::Download
    } else if us[from] != Method::Download {
        us[from]
    } else {
        suggested(us, from + 1)
    }
}

/// The short name of a method.
pub open spec fn label_of(m: Method) -> Seq<char> {
    match m {
        Method::Winget => "Winget"@,
        Method::Chocolatey => "Chocolatey"@,
        Method::Homebrew => "Homebrew"@,
        Method::Apt => "apt"@,
        Method::Dnf => "dnf"@,
        Method::Pacman => "pacman"@,
        Method::Download => "Descarga directa"@,
    }
}

/// What a method will do, for people.
pub open spec fn detail_of(m: Method, bin_dir: Seq<char>) -> Seq<char> {
    match m {
        Method::Winget => "Usa el gestor de paquetes de Windows. Puede pedirte permiso de administrador; después ffmpeg queda disponible para todo el sistema."@,
        Method::Chocolatey => "Instala con Chocolatey. Requiere permisos de administrador."@,
        Method::Homebrew => "Instala con Homebrew (brew install ffmpeg). Es la forma habitual en macOS y se actualiza con el resto de tus paquetes."@,
        Method::Apt => "Instala el paquete ffmpeg del sistema. Te pedirá tu contraseña."@,
        Method::Dnf => "Instala el paquete ffmpeg del sistema. Te pedirá tu contraseña."@,
        Method::Pacman => "Instala el paquete ffmpeg del sistema. Te pedirá tu contraseña."@,
        Method::Download => "Descarga una versión oficial y la guarda solo para este programa, en "@
            + bin_dir + ". No necesita permisos ni toca el resto del sistema."@,
    }
}

/// Whether a method may ask for a password.
pub open spec fn needs_admin(m: Method) -> bool {
    !(m is Homebrew || m is Download)
}

/// The option for a method.
pub open spec fn option_of(m: Method, best: Method, bin_dir: Seq<char>) -> OptionV {
    OptionV {
        id: id_of(m),
        label: label_of(m),
        detail: detail_of(m, bin_dir),
        recommended: m == best,
        needs_admin: needs_admin(m),
    }
}

/// The options of a machine.
pub open spec fn offered(os: Os, env: Env, on_path: Seq<Seq<char>>) -> Seq<OptionV> {
    let us = usable(os, on_path);
    Seq::new(us.len(), |i: int| option_of(us[i], suggested(us, 0), own_bin_dir(os, env)))
}

/// What a list of options says.
pub open spec fn options_view(v: Seq<Option_>) -> Seq<OptionV> {
    v.map_values(|o: Option_| o@)
}

/// What a method will do, for people.
pub fn detail_for(m: Method, bin_dir: &str) -> (r: String)
    ensures
        r@ == detail_of(m, bin_dir@),
{
    match m {
        Method::Winget => "Usa el gestor de paquetes de Windows. Puede pedirte permiso de administrador; después ffmpeg queda disponible para todo el sistema.".to_owned(),
        Method::Chocolatey => "Instala con Chocolatey. Requiere permisos de administrador.".to_owned(),
        Method::Homebrew => "Instala con Homebrew (brew install ffmpeg). Es la forma habitual en macOS y se actualiza con el resto de tus paquetes.".to_owned(),
        Method::Apt => "Instala el paquete ffmpeg del sistema. Te pedirá tu contraseña.".to_owned(),
        Method::Dnf => "Instala el paquete ffmpeg del sistema. Te pedirá tu contraseña.".to_owned(),
        Method::Pacman => "Instala el paquete ffmpeg del sistema. Te pedirá tu contraseña.".to_owned(),
        Method::Download => joined3(
            "Descarga una versión oficial y la guarda solo para este programa, en ",
            bin_dir,
            ". No necesita permisos ni toca el resto del sistema.",
        ),
    }
}

/// Whether a list of texts holds a text.
pub fn has_text(v: &Vec<String>, s: &str) -> (r: bool)
    ensures
        r == text::texts(v@).contains(s@),
{
    let mut i: usize = 0;
    while i < v.len()
        invariant
            0 <= i <= v@.len(),
            forall|j: int| 0 <= j < i ==> #[trigger] text::texts(v@)[j] != s@,
        decreases v@.len() - i,
    {
        assert(text::texts(v@)[i as int] == v@[i as int]@);
        if same(&v[i], s) {
            return true;
        }
        i = i + 1;
    }
    false
}

/// The methods that a system knows, best first.
pub fn methods(os: Os) -> (r: Vec<Method>)
    ensures
        r@ == candidates(os),
{
    match os {
        Os::Windows => vec![Method::Winget, Method::Chocolatey, Method::Download],
        Os::Macos => vec![Method::Homebrew, Method::Download],
        Os::Other => vec![Method::Apt, Method::Dnf, Method::Pacman, Method::Download],
    }
}

/// The methods that make sense on this machine, best first.
fn usable_methods(os: Os, on_path: &Vec<String>) -> (r: Vec<Method>)
    ensures
        r@ == usable(os, text::texts(on_path@)),
{
    let all: Vec<Method> = methods(os);
    let ghost p = text::texts(on_path@);
    let mut us: Vec<Method> = Vec::new();
    let mut i: usize = 0;
    while i < all.len()
        invariant
            0 <= i <= all@.len(),
            p == text::texts(on_path@),
            us@ == usable_of(all@, p, i as nat),
        decreases all@.len() - i,
    {
        let m: Method = all[i];
        let fits: bool = match m.driver() {
            Some(d) => has_text(on_path, d),
            None => true,
        };
        if fits {
            us.push(m);
        }
        i = i + 1;
    }
    us
}

/// The suggested method.
fn suggestion(us: &Vec<Method>) -> (r: Method)
    ensures
        r == suggested(us@, 0),
{
    let mut i: usize = 0;
    while i < us.len()
        invariant
            0 <= i <= us@.len(),
            suggested(us@, 0) == suggested(us@, i as int),
        decreases us@.len() - i,
    {
        if us[i] != Method::Download {
            return us[i];
        }
        i = i + 1;
    }
    Method::Download
}

/// Methods that make sense on this machine, best first. `Download` is always
/// present as the no-prerequisites fallback. `on_path` names the commands that
/// answer here (see `Method::driver`).
pub fn options(os: Os, env: &Env, on_path: &Vec<String>) -> (r: Vec<Option_>)
    ensures
        options_view(r@) == offered(os, *env, text::texts(on_path@)),
{
    let us: Vec<Method> = usable_methods(os, on_path);
    let best: Method = suggestion(&us);
    let dir: String = bin_dir(os, env);
    let mut r: Vec<Option_> = Vec::new();
    let mut i: usize = 0;
    while i < us.len()
        invariant
            0 <= i <= us@.len(),
            r@.len() == i,
            best == suggested(us@, 0),
            forall|j: int| 0 <= j < i ==> (#[trigger] r@[j])@ == option_of(us@[j], best, dir@),
        decreases us@.len() - i,
    {
        let m: Method = us[i];
        let label: &'static str = match m {
            Method::Winget => "Winget",
            Method::Chocolatey => "Chocolatey",
            Method::Homebrew => "Homebrew",
            Method::Apt => "apt",
            Method::Dnf => "dnf",
            Method::Pacman => "pacman",
            Method::Download => "Descarga directa",
        };
        r.push(
            Option_ {
                id: m.id(),
                label,
                detail: detail_for(m, &dir),
                recommended: m == best,
                needs_admin: !(m == Method::Homebrew || m == Method::Download),
            },
        );
        i = i + 1;
    }
    assert(options_view(r@) =~= offered(os, *env, text::texts(on_path@)));
    r
}

/// What works is told apart, and the download always works, as the last.
proof fn lemma_usable(os: Os, on_path: Seq<Seq<char>>)
    ensures
        ({
            let us = usable(os, on_path);
            &&& us.len() > 0 && us.last() == Method::Download
            &&& forall|i: int, j: int|
                0 <= i < j < us.len() ==> us[i] != #[trigger] us[j] && #[trigger] us[i]
                    != Method::Download
            &&& suggested(us, 0) == us[0]
        }),
{
    let c = candidates(os);
    reveal_with_fuel(usable_of, 5);
    reveal_with_fuel(suggested, 5);
    assert(usable_of(c, on_path, 1).len() <= 1);
    assert(usable_of(c, on_path, 2).len() <= 2);
    if c.len() >= 3 {
        assert(usable_of(c, on_path, 3).len() <= 3);
    }
}

/// The download is always offered.
pub proof fn law_download_is_offered(os: Os, env: Env, on_path: Seq<Seq<char>>)
    ensures
        offered(os, env, on_path).len() > 0,
        offered(os, env, on_path).last().id == "download"@,
{
    lemma_usable(os, on_path);
}

/// Exactly one option is recommended, the first; and it is a package manager
/// wherever one is offered.
pub proof fn law_one_recommendation(os: Os, env: Env, on_path: Seq<Seq<char>>)
    ensures
        ({
            let all = offered(os, env, on_path);
            &&& forall|i: int|
                0 <= i < all.len() ==> (#[trigger] all[i].recommended <==> i == 0)
            &&& all[0].id == "download"@ <==> all.len() == 1
        }),
{
    lemma_usable(os, on_path);
    let us = usable(os, on_path);
    law_ids_round_trip(us[0]);
    law_ids_round_trip(Method::Download);
}

/// Every option explains itself: its label is not empty, and what it says it
/// will do is more than twenty characters long.
pub proof fn law_options_explain_themselves(m: Method, best: Method, bin_dir: Seq<char>)
    ensures
        option_of(m, best, bin_dir).label.len() > 0,
        option_of(m, best, bin_dir).detail.len() > 20,
{
    reveal_strlit("Winget");
    reveal_strlit("Chocolatey");
    reveal_strlit("Homebrew");
    reveal_strlit("apt");
    reveal_strlit("dnf");
    reveal_strlit("pacman");
    reveal_strlit("Descarga directa");
    reveal_strlit("Usa el gestor de paquetes de Windows. Puede pedirte permiso de administrador; después ffmpeg queda disponible para todo el sistema.");
    reveal_strlit("Instala con Chocolatey. Requiere permisos de administrador.");
    reveal_strlit("Instala con Homebrew (brew install ffmpeg). Es la forma habitual en macOS y se actualiza con el resto de tus paquetes.");
    reveal_strlit("Instala el paquete ffmpeg del sistema. Te pedirá tu contraseña.");
    reveal_strlit("Descarga una versión oficial y la guarda solo para este programa, en ");
}

/// A text with each of its apostrophes doubled.
pub open spec fn doubled(s: Seq<char>) -> Seq<char>
    decreases s.len(),
{
    if s.len() == 0 {
        seq![]
    } else if s.last() == '\'' {
        doubled(s.drop_last()).push('\'').push('\'')
    } else {
        doubled(s.drop_last()).push(s.last())
    }
}

/// A path in a PowerShell single-quoted string.
pub open spec fn quoted(p: Seq<char>) -> Seq<char> {
    "'"@ + doubled(p) + "'"@
}

/// Quote a path for a PowerShell single-quoted string. Paths come from the
/// user's own profile, which may legitimately contain an apostrophe
/// (`C:\Users\O'Brien\...`); without doubling it the command is malformed.
pub fn ps_quote(p: &str) -> (r: String)
    ensures
        r@ == quoted(p@),
{
    let v = chars_of(p);
    let mut inner: String = String::new();
    let mut i: usize = 0;
    assert(v@.take(0) =~= seq![]);
    while i < v.len()
        invariant
            0 <= i <= v@.len(),
            inner@ == doubled(v@.take(i as int)),
        decreases v@.len() - i,
    {
        let c: char = v[i];
        proof {
            let next = v@.take(i + 1);
            assert(next.drop_last() =~= v@.take(i as int));
            assert(next.last() == c);
        }
        inner.push(c);
        if c == '\'' {
            inner.push(c);
        }
        i = i + 1;
    }
    assert(v@.take(i as int) =~= v@);
    joined3("'", &inner, "'")
}

/// Reading a single-quoted string: up to the first apostrophe that is not
/// doubled, with the doubled ones made single; and what follows it.
pub open spec fn unquoted(s: Seq<char>, at: int) -> (Seq<char>, int)
    decreases s.len() - at,
{
    if at >= s.len() {
        (seq![], at)
    } else if s[at] != '\'' {
        let (rest, end) = unquoted(s, at + 1);
        (seq![s[at]] + rest, end)
    } else if at + 1 < s.len() && s[at + 1] == '\'' {
        let (rest, end) = unquoted(s, at + 2);
        (seq!['\''] + rest, end)
    } else {
        (seq![], at + 1)
    }
}

/// A quoted path reads back as itself, and nothing of it is left outside the
/// quotes, whatever apostrophes it holds.
pub proof fn law_quoting_is_undone(p: Seq<char>)
    ensures
        quoted(p)[0] == '\'',
        unquoted(quoted(p), 1) == (p, quoted(p).len() as int),
{
    reveal_strlit("'");
    lemma_unquoted(p, 0, 1);
    assert(doubled(p.take(0)).len() == 0) by {
        assert(p.take(0) =~= seq![]);
    }
    assert(p.skip(0) =~= p);
}

/// Reading on from where the first `k` characters of `p` have been read.
proof fn lemma_unquoted(p: Seq<char>, k: int, at: int)
    requires
        0 <= k <= p.len(),
        at == 1 + doubled(p.take(k)).len(),
    ensures
        unquoted(quoted(p), at) == (p.skip(k), quoted(p).len() as int),
    decreases p.len() - k,
{
    reveal_strlit("'");
    let q = quoted(p);
    lemma_doubled_prefix(p, k);
    if k == p.len() {
        assert(p.take(k) =~= p);
        assert(p.skip(k) =~= seq![]);
        assert(q[at] == '\'' && at + 1 == q.len());
    } else {
        let next = p.take(k + 1);
        assert(next.drop_last() =~= p.take(k));
        assert(next.last() == p[k]);
        lemma_doubled_prefix(p, k + 1);
        let d = doubled(next);
        assert(q[at] == d[at - 1]);
        if p[k] == '\'' {
            assert(q[at + 1] == d[at]);
            lemma_unquoted(p, k + 1, at + 2);
            assert(seq!['\''] + p.skip(k + 1) =~= p.skip(k));
        } else {
            lemma_unquoted(p, k + 1, at + 1);
            assert(seq![p[k]] + p.skip(k + 1) =~= p.skip(k));
        }
    }
}

/// The doubled text of a beginning is the beginning of the doubled text.
proof fn lemma_doubled_prefix(p: Seq<char>, k: int)
    requires
        0 <= k <= p.len(),
    ensures
        doubled(p.take(k)).len() <= doubled(p).len(),
        doubled(p).take(doubled(p.take(k)).len() as int) == doubled(p.take(k)),
    decreases p.len() - k,
{
    if k == p.len() {
        assert(p.take(k) =~= p);
    } else {
        lemma_doubled_prefix(p, k + 1);
        let next = p.take(k + 1);
        assert(next.drop_last() =~= p.take(k));
        let (a, b) = (doubled(p.take(k)), doubled(next));
        assert(b.take(a.len() as int) =~= a);
        assert(doubled(p).take(a.len() as int) =~= doubled(p).take(b.len() as int).take(
            a.len() as int,
        ));
    }
}

/// Whether a line says nothing.
pub open spec fn is_blank(line: Seq<char>) -> bool {
    text::trim(line).len() == 0
}

/// The first `n` lines without those that say nothing.
pub open spec fn spoken(v: Seq<Seq<char>>, n: nat) -> Seq<Seq<char>>
    decreases n,
{
    if n == 0 {
        seq![]
    } else if is_blank(v[n - 1]) {
        spoken(v, (n - 1) as nat)
    } else {
        spoken(v, (n - 1) as nat).push(v[n - 1])
    }
}

/// What is said of a command that failed: the last six lines that say
/// something, of its messages and then of its output.
pub open spec fn command_failure(what: Seq<char>, stderr: Seq<char>, stdout: Seq<char>) -> Seq<
    char,
> {
    let all = text::lines(stderr) + text::lines(stdout);
    what + " falló:\n"@ + text::join(text::tail(spoken(all, all.len()), 6), "\n"@)
}

/// What came of a command: its output, or a readable error with the tail of
/// what it said.
pub open spec fn command_result(what: Seq<char>, ran: Ran) -> Result<Seq<char>, Seq<char>> {
    match ran {
        Ran::NotStarted(e) => Err("no pude ejecutar "@ + what + ": "@ + e@),
        Ran::Ended(out) => if out.success {
            Ok(text::lossy(out.stdout@))
        } else {
            Err(command_failure(what, text::lossy(out.stderr@), text::lossy(out.stdout@)))
        },
    }
}

/// Appends the lines of a text that say something.
fn put_spoken(kept: &mut Vec<String>, lines: &Vec<String>, Ghost(before): Ghost<Seq<Seq<char>>>)
    requires
        text::texts(old(kept)@) == spoken(before, before.len()),
    ensures
        ({
            let all = before + text::texts(lines@);
            text::texts(final(kept)@) == spoken(all, all.len())
        }),
{
    let ghost all = before + text::texts(lines@);
    let mut i: usize = 0;
    proof {
        lemma_spoken_same(before, all, before.len());
    }
    while i < lines.len()
        invariant
            0 <= i <= lines@.len(),
            all == before + text::texts(lines@),
            text::texts(kept@) == spoken(all, before.len() + i as nat),
        decreases lines@.len() - i,
    {
        assert(all[before.len() + i] == text::texts(lines@)[i as int]);
        assert(text::texts(lines@)[i as int] == lines@[i as int]@);
        let blank: bool = is_empty(&trimmed(&lines[i]));
        if !blank {
            put(kept, &lines[i]);
        }
        i = i + 1;
    }
    assert(all.len() == before.len() + i);
}

/// Whether a text is empty.
fn is_empty(s: &str) -> (r: bool)
    ensures
        r == (s@.len() == 0),
{
    s.is_empty()
}

proof fn lemma_spoken_same(a: Seq<Seq<char>>, b: Seq<Seq<char>>, n: nat)
    requires
        n <= a.len(),
        n <= b.len(),
        forall|i: int| 0 <= i < n ==> a[i] == b[i],
    ensures
        spoken(a, n) == spoken(b, n),
    decreases n,
{
    if n > 0 {
        lemma_spoken_same(a, b, (n - 1) as nat);
    }
}

/// What is said of a command that failed.
pub fn command_error(what: &str, stderr: &str, stdout: &str) -> (r: String)
    ensures
        r@ == command_failure(what@, stderr@, stdout@),
{
    let errors: Vec<String> = lines_of(stderr);
    let lines: Vec<String> = lines_of(stdout);
    let mut kept: Vec<String> = Vec::new();
    let ghost none: Seq<Seq<char>> = seq![];
    assert(text::texts(kept@) =~= none);
    put_spoken(&mut kept, &errors, Ghost(none));
    assert(none + text::texts(errors@) =~= text::texts(errors@));
    put_spoken(&mut kept, &lines, Ghost(text::texts(errors@)));
    joined3(what, " falló:\n", &join_texts(&last_texts(&kept, 6), "\n"))
}

/// What came of a command: its output, or a readable error with the tail of
/// what it said.
pub fn run(what: &str, ran: &Ran) -> (r: Result<String, String>)
    ensures
        r is Ok == command_result(what@, *ran) is Ok,
        r is Ok ==> r->Ok_0@ == command_result(what@, *ran)->Ok_0,
        r is Err ==> r->Err_0@ == command_result(what@, *ran)->Err_0,
{
    let out: &Output = match ran {
        Ran::NotStarted(e) => {
            return Err(joined3("no pude ejecutar ", what, ": ").concat(e));
        },
        Ran::Ended(out) => out,
    };
    let stdout: String = lossy_text(&out.stdout);
    if out.success {
        return Ok(stdout);
    }
    Err(command_error(what, &lossy_text(&out.stderr), &stdout))
}

/// Official static-build URLs used by the `Download` method.
pub open spec fn build_url(platform: Seq<char>, arch: Seq<char>) -> Option<Seq<char>> {
    if platform == "windows"@ {
        Some("https://www.gyan.dev/ffmpeg/builds/ffmpeg-release-essentials.zip"@)
    } else if platform == "linux"@ && arch == "x86_64"@ {
        Some("https://johnvansickle.com/ffmpeg/releases/ffmpeg-release-amd64-static.tar.xz"@)
    } else if platform == "linux"@ && arch == "aarch64"@ {
        Some("https://johnvansickle.com/ffmpeg/releases/ffmpeg-release-arm64-static.tar.xz"@)
    } else if platform == "macos"@ {
        Some("https://evermeet.cx/ffmpeg/getrelease/zip"@)
    } else {
        None
    }
}

/// Why there is no direct download.
pub open spec fn no_download(platform: Seq<char>, arch: Seq<char>) -> Seq<char> {
    "No tengo una descarga directa para "@ + platform + "/"@ + arch
        + ". Usa el gestor de paquetes de tu sistema."@
}

/// Official static-build URLs used by the `Download` method, by the names that
/// Rust has for systems and architectures.
pub fn download_url(platform: &str, arch: &str) -> (r: Result<&'static str, String>)
    ensures
        r is Ok == build_url(platform@, arch@) is Some,
        r is Ok ==> r->Ok_0@ == build_url(platform@, arch@)->0,
        r is Err ==> r->Err_0@ == no_download(platform@, arch@),
{
    if same(platform, "windows") {
        // Gyan's "essentials" build is the one ffmpeg.org links for Windows.
        Ok("https://www.gyan.dev/ffmpeg/builds/ffmpeg-release-essentials.zip")
    } else if same(platform, "linux") && same(arch, "x86_64") {
        Ok("https://johnvansickle.com/ffmpeg/releases/ffmpeg-release-amd64-static.tar.xz")
    } else if same(platform, "linux") && same(arch, "aarch64") {
        Ok("https://johnvansickle.com/ffmpeg/releases/ffmpeg-release-arm64-static.tar.xz")
    } else if same(platform, "macos") {
        // evermeet.cx publishes the builds ffmpeg.org links for macOS.
        Ok("https://evermeet.cx/ffmpeg/getrelease/zip")
    } else {
        Err(
            joined3("No tengo una descarga directa para ", platform, "/").concat(arch).concat(
                ". Usa el gestor de paquetes de tu sistema.",
            ),
        )
    }
}

/// Every download comes over HTTPS.
pub proof fn law_downloads_are_encrypted(platform: Seq<char>, arch: Seq<char>)
    ensures
        build_url(platform, arch) matches Some(url) ==> text::holds_at(url, "https://"@, 0),
{
    reveal_strlit("https://");
    reveal_strlit("https://www.gyan.dev/ffmpeg/builds/ffmpeg-release-essentials.zip");
    reveal_strlit("https://johnvansickle.com/ffmpeg/releases/ffmpeg-release-amd64-static.tar.xz");
    reveal_strlit("https://johnvansickle.com/ffmpeg/releases/ffmpeg-release-arm64-static.tar.xz");
    reveal_strlit("https://evermeet.cx/ffmpeg/getrelease/zip");
    if let Some(url) = build_url(platform, arch) {
        assert(url.subrange(0, 8) =~= "https://"@);
    }
}

/// The URL of ffprobe for macOS.
pub open spec fn ffprobe_url() -> Seq<char> {
    "https://evermeet.cx/ffmpeg/getrelease/ffprobe/zip"@
}

/// macOS needs a second download because evermeet ships ffprobe separately.
pub fn macos_ffprobe_url() -> (r: &'static str)
    ensures
        r@ == ffprobe_url(),
{
    "https://evermeet.cx/ffmpeg/getrelease/ffprobe/zip"
}

/// One thing to do for an installation. Whoever carries the steps out does so
/// as `after_step` says: in their order, up to the first that fails.
#[derive(Debug)]
pub enum Step {
    /// Tell the user what happens.
    Say(String),
    /// Make the directory that ffmpeg goes to, with those above it.
    CreateDir(String),
    /// Make the directory for the download, with those above it.
    CreateWork(String),
    /// Remove a directory with all it holds, where it is there.
    RemoveDir(String),
    /// Run a command, without input.
    Run { program: String, args: Vec<String>, what: String },
    /// Find a file of that name, at most four levels below a directory, copy
    /// it to the target and let it be executed.
    Place { dir: String, name: String, target: String },
    /// Run a program with `-version`; where it does not succeed, remove the
    /// files.
    Check { program: String, remove: Vec<String> },
}

/// What a step says.
pub ghost enum StepV {
    Say(Seq<char>),
    CreateDir(Seq<char>),
    CreateWork(Seq<char>),
    RemoveDir(Seq<char>),
    Run { program: Seq<char>, args: Seq<Seq<char>>, what: Seq<char> },
    Place { dir: Seq<char>, name: Seq<char>, target: Seq<char> },
    Check { program: Seq<char>, remove: Seq<Seq<char>> },
}

impl View for Step {
    type V = StepV;

    open spec fn view(&self) -> StepV {
        match *self {
            Step::Say(s) => StepV::Say(s@),
            Step::CreateDir(p) => StepV::CreateDir(p@),
            Step::CreateWork(p) => StepV::CreateWork(p@),
            Step::RemoveDir(p) => StepV::RemoveDir(p@),
            Step::Run { program, args, what } => StepV::Run {
                program: program@,
                args: text::texts(args@),
                what: what@,
            },
            Step::Place { dir, name, target } => StepV::Place {
                dir: dir@,
                name: name@,
                target: target@,
            },
            Step::Check { program, remove } => StepV::Check {
                program: program@,
                remove: text::texts(remove@),
            },
        }
    }
}

/// What a list of steps says.
pub open spec fn steps_view(v: Seq<Step>) -> Seq<StepV> {
    v.map_values(|s: Step| s@)
}

/// How far down an archive is searched.
pub const SEARCH_DEPTH: u32 = 4;

/// Appends a step.
fn put_step(v: &mut Vec<Step>, s: Step)
    ensures
        steps_view(final(v)@) == steps_view(old(v)@).push(s@),
{
    v.push(s);
    assert(steps_view(v@) =~= steps_view(old(v)@).push(s@));
}

/// Appends a step that tells the user something.
fn put_say(v: &mut Vec<Step>, s: &str)
    ensures
        steps_view(final(v)@) == steps_view(old(v)@).push(StepV::Say(s@)),
{
    put_step(v, Step::Say(s.to_owned()));
}

/// Appends a step that runs a command.
fn put_run(v: &mut Vec<Step>, program: &str, args: Vec<String>, what: &str)
    ensures
        steps_view(final(v)@) == steps_view(old(v)@).push(
            StepV::Run { program: program@, args: text::texts(args@), what: what@ },
        ),
{
    put_step(v, Step::Run { program: program.to_owned(), args, what: what.to_owned() });
}

/// A call of PowerShell.
pub open spec fn powershell(command: Seq<char>, what: Seq<char>) -> StepV {
    StepV::Run {
        program: "powershell"@,
        args: seq!["-NoProfile"@, "-NonInteractive"@, "-Command"@, command],
        what,
    }
}

/// A download with curl.
pub open spec fn curl(archive: Seq<char>, url: Seq<char>, what: Seq<char>) -> StepV {
    StepV::Run {
        program: "curl"@,
        args: seq!["-fL"@, "--retry"@, "2"@, "-o"@, archive, url],
        what,
    }
}

/// The unpacking of a zip archive.
pub open spec fn unzip(archive: Seq<char>, dir: Seq<char>, what: Seq<char>) -> StepV {
    StepV::Run { program: "unzip"@, args: seq!["-oq"@, archive, "-d"@, dir], what }
}

/// The unpacking of a tar archive.
pub open spec fn untar(archive: Seq<char>, dir: Seq<char>, what: Seq<char>) -> StepV {
    StepV::Run { program: "tar"@, args: seq!["-xJf"@, archive, "-C"@, dir], what }
}

/// The steps that bring an official build into `work`.
pub open spec fn fetch(os: Os, url: Seq<char>, work: Seq<char>) -> Seq<StepV> {
    if os is Windows {
        let zip = path::inside(os, work, "ffmpeg.zip"@);
        seq![
            StepV::Say("Descargando ffmpeg (unos 30 MB)…"@),
            powershell(
                "$ProgressPreference='SilentlyContinue'; Invoke-WebRequest -Uri '"@ + url
                    + "' -OutFile "@ + quoted(zip),
                "la descarga"@,
            ),
            StepV::Say("Descomprimiendo…"@),
            powershell(
                "Expand-Archive -Path "@ + quoted(zip) + " -DestinationPath "@ + quoted(work)
                    + " -Force"@,
                "la descompresión"@,
            ),
        ]
    } else if text::ends(url, "zip"@) {
        let zip = path::inside(os, work, "ffmpeg.zip"@);
        let probe_zip = path::inside(os, work, "ffprobe.zip"@);
        seq![
            StepV::Say("Descargando ffmpeg…"@),
            curl(zip, url, "la descarga"@),
            StepV::Say("Descomprimiendo…"@),
            unzip(zip, work, "la descompresión"@),
            curl(probe_zip, ffprobe_url(), "la descarga de ffprobe"@),
            unzip(probe_zip, work, "la descompresión de ffprobe"@),
        ]
    } else {
        let archive = path::inside(os, work, "ffmpeg.tar.xz"@);
        seq![
            StepV::Say("Descargando ffmpeg…"@),
            curl(archive, url, "la descarga"@),
            StepV::Say("Descomprimiendo…"@),
            untar(archive, work, "la descompresión"@),
        ]
    }
}

/// The steps of the direct download.
pub open spec fn download_steps(os: Os, url: Seq<char>, dest: Seq<char>, work: Seq<char>) -> Seq<
    StepV,
> {
    let (ffmpeg, ffprobe) = (program(os, "ffmpeg"@), program(os, "ffprobe"@));
    let (a, b) = (path::inside(os, dest, ffmpeg), path::inside(os, dest, ffprobe));
    seq![StepV::CreateDir(dest), StepV::RemoveDir(work), StepV::CreateWork(work)] + fetch(
        os,
        url,
        work,
    ) + seq![
        StepV::Say("Colocando ffmpeg en su sitio…"@),
        StepV::Place { dir: work, name: ffmpeg, target: a },
        StepV::Place { dir: work, name: ffprobe, target: b },
        StepV::RemoveDir(work),
        StepV::Say("Comprobando la instalación…"@),
        StepV::Check { program: a, remove: seq![a, b] },
        StepV::Check { program: b, remove: seq![a, b] },
    ]
}

/// Appends a call of PowerShell.
fn put_powershell(v: &mut Vec<Step>, command: &str, what: &str)
    ensures
        steps_view(final(v)@) == steps_view(old(v)@).push(powershell(command@, what@)),
{
    let mut a: Vec<String> = Vec::new();
    assert(text::texts(a@) =~= seq![]);
    put(&mut a, "-NoProfile");
    put(&mut a, "-NonInteractive");
    put(&mut a, "-Command");
    put(&mut a, command);
    assert(text::texts(a@) =~= powershell(command@, what@)->args);
    put_run(v, "powershell", a, what);
}

/// Appends a download with curl.
fn put_curl(v: &mut Vec<Step>, archive: &str, url: &str, what: &str)
    ensures
        steps_view(final(v)@) == steps_view(old(v)@).push(curl(archive@, url@, what@)),
{
    let mut a: Vec<String> = Vec::new();
    assert(text::texts(a@) =~= seq![]);
    put(&mut a, "-fL");
    put(&mut a, "--retry");
    put(&mut a, "2");
    put(&mut a, "-o");
    put(&mut a, archive);
    put(&mut a, url);
    assert(text::texts(a@) =~= curl(archive@, url@, what@)->args);
    put_run(v, "curl", a, what);
}

/// Appends the unpacking of an archive.
fn put_unpack(
    v: &mut Vec<Step>,
    program: &str,
    how: &str,
    archive: &str,
    to: &str,
    dir: &str,
    what: &str,
)
    ensures
        steps_view(final(v)@) == steps_view(old(v)@).push(
            StepV::Run { program: program@, args: seq![how@, archive@, to@, dir@], what: what@ },
        ),
{
    let mut a: Vec<String> = Vec::new();
    assert(text::texts(a@) =~= seq![]);
    put(&mut a, how);
    put(&mut a, archive);
    put(&mut a, to);
    put(&mut a, dir);
    assert(text::texts(a@) =~= seq![how@, archive@, to@, dir@]);
    put_run(v, program, a, what);
}

/// Appends the steps that bring an official build into `work`.
fn put_fetch(v: &mut Vec<Step>, os: Os, url: &str, work: &str)
    ensures
        steps_view(final(v)@) == steps_view(old(v)@) + fetch(os, url@, work@),
{
    if os == Os::Windows {
        let zip: String = join(os, work, "ffmpeg.zip");
        put_say(v, "Descargando ffmpeg (unos 30 MB)…");
        put_powershell(
            v,
            &joined3(
                "$ProgressPreference='SilentlyContinue'; Invoke-WebRequest -Uri '",
                url,
                "' -OutFile ",
            ).concat(&ps_quote(&zip)),
            "la descarga",
        );
        put_say(v, "Descomprimiendo…");
        put_powershell(
            v,
            &joined3("Expand-Archive -Path ", &ps_quote(&zip), " -DestinationPath ").concat(
                &ps_quote(work),
            ).concat(" -Force"),
            "la descompresión",
        );
    } else if ends_with(url, "zip") {
        let zip: String = join(os, work, "ffmpeg.zip");
        put_say(v, "Descargando ffmpeg…");
        put_curl(v, &zip, url, "la descarga");
        put_say(v, "Descomprimiendo…");
        put_unpack(v, "unzip", "-oq", &zip, "-d", work, "la descompresión");
        // evermeet ships ffmpeg and ffprobe as separate archives.
        let probe_zip: String = join(os, work, "ffprobe.zip");
        put_curl(v, &probe_zip, macos_ffprobe_url(), "la descarga de ffprobe");
        put_unpack(v, "unzip", "-oq", &probe_zip, "-d", work, "la descompresión de ffprobe");
    } else {
        let archive: String = join(os, work, "ffmpeg.tar.xz");
        put_say(v, "Descargando ffmpeg…");
        put_curl(v, &archive, url, "la descarga");
        put_say(v, "Descomprimiendo…");
        put_unpack(v, "tar", "-xJf", &archive, "-C", work, "la descompresión");
    }
    assert(steps_view(v@) =~= steps_view(old(v)@) + fetch(os, url@, work@));
}

/// Appends the steps that put what was fetched in its place and check it.
fn put_placing(v: &mut Vec<Step>, os: Os, dest: &str, work: &str)
    ensures
        ({
            let (ffmpeg, ffprobe) = (program(os, "ffmpeg"@), program(os, "ffprobe"@));
            let (a, b) = (path::inside(os, dest@, ffmpeg), path::inside(os, dest@, ffprobe));
            steps_view(final(v)@) == steps_view(old(v)@) + seq![
                StepV::Say("Colocando ffmpeg en su sitio…"@),
                StepV::Place { dir: work@, name: ffmpeg, target: a },
                StepV::Place { dir: work@, name: ffprobe, target: b },
                StepV::RemoveDir(work@),
                StepV::Say("Comprobando la instalación…"@),
                StepV::Check { program: a, remove: seq![a, b] },
                StepV::Check { program: b, remove: seq![a, b] },
            ]
        }),
{
    let (ffmpeg, ffprobe) = (exe_name(os, "ffmpeg"), exe_name(os, "ffprobe"));
    let (a, b) = (join(os, dest, &ffmpeg), join(os, dest, &ffprobe));
    let mut first: Vec<String> = Vec::new();
    assert(text::texts(first@) =~= seq![]);
    put(&mut first, &a);
    put(&mut first, &b);
    let mut second: Vec<String> = Vec::new();
    assert(text::texts(second@) =~= seq![]);
    put(&mut second, &a);
    put(&mut second, &b);
    let ghost both = seq![a@, b@];
    assert(text::texts(first@) =~= both && text::texts(second@) =~= both);
    put_say(v, "Colocando ffmpeg en su sitio…");
    put_step(v, Step::Place { dir: work.to_owned(), name: ffmpeg, target: a.clone() });
    put_step(v, Step::Place { dir: work.to_owned(), name: ffprobe, target: b.clone() });
    put_step(v, Step::RemoveDir(work.to_owned()));
    // The archives are fetched over HTTPS from the builds ffmpeg.org links,
    // and they publish no stable checksum for their rolling "latest" URLs —
    // so verify what actually landed on disk: both binaries must run and
    // report a version. A truncated or wrong-architecture download fails here
    // rather than at the user's first conversion.
    put_say(v, "Comprobando la instalación…");
    put_step(v, Step::Check { program: a, remove: first });
    put_step(v, Step::Check { program: b, remove: second });
    assert(steps_view(v@) =~= steps_view(old(v)@) + seq![
        StepV::Say("Colocando ffmpeg en su sitio…"@),
        StepV::Place { dir: work@, name: ffmpeg@, target: a@ },
        StepV::Place { dir: work@, name: ffprobe@, target: b@ },
        StepV::RemoveDir(work@),
        StepV::Say("Comprobando la instalación…"@),
        StepV::Check { program: a@, remove: both },
        StepV::Check { program: b@, remove: both },
    ]);
}

/// Download an official build and extract ffmpeg/ffprobe into `dest`.
/// Uses the tools every supported OS already ships (PowerShell / curl+tar),
/// so the binary stays dependency-free.
pub fn download_into(os: Os, url: &str, dest: &str, work: &str) -> (r: Vec<Step>)
    ensures
        steps_view(r@) == download_steps(os, url@, dest@, work@),
{
    let mut v: Vec<Step> = Vec::new();
    assert(steps_view(v@) =~= seq![]);
    put_step(&mut v, Step::CreateDir(dest.to_owned()));
    put_step(&mut v, Step::RemoveDir(work.to_owned()));
    put_step(&mut v, Step::CreateWork(work.to_owned()));
    put_fetch(&mut v, os, url, work);
    put_placing(&mut v, os, dest, work);
    assert(steps_view(v@) =~= download_steps(os, url@, dest@, work@));
    v
}

/// How a step came out.
#[derive(Debug)]
pub enum Outcome {
    Done,
    /// A directory could not be made, for the reason given.
    NotMade(String),
    /// A command came out like this.
    Ran(Ran),
    /// No file of that name was found.
    NotFound,
    /// A file could not be copied, for the reason given.
    NotCopied(String),
    /// A file could not be made executable, for the reason given.
    NotExecutable(String),
    /// A program did not answer.
    Silent,
}

/// What to say of a step that came out like that, where it failed.
pub open spec fn failure(os: Os, step: StepV, out: Outcome) -> Option<Seq<char>> {
    match (step, out) {
        (StepV::CreateDir(p), Outcome::NotMade(e)) => Some("no pude crear "@ + p + ": "@ + e@),
        (StepV::CreateWork(_), Outcome::NotMade(e)) => Some(
            "no pude crear carpeta temporal: "@ + e@,
        ),
        (StepV::Run { what, .. }, Outcome::Ran(ran)) => match command_result(what, ran) {
            Ok(_) => None,
            Err(e) => Some(e),
        },
        (StepV::Place { name, .. }, Outcome::NotFound) => Some(
            "el paquete descargado no traía "@ + name,
        ),
        (StepV::Place { name, .. }, Outcome::NotCopied(e)) => Some(
            "no pude copiar "@ + name + ": "@ + e@,
        ),
        (StepV::Place { target, .. }, Outcome::NotExecutable(e)) => Some(
            "no pude dar permisos a "@ + target + ": "@ + e@,
        ),
        (StepV::Check { program, .. }, Outcome::Silent) => Some(
            "lo descargado no funciona en este equipo ("@ + (match path::name(os, program) {
                Some(n) => n,
                None => ""@,
            }) + " no responde). Prueba con el gestor de paquetes de tu sistema."@,
        ),
        _ => None,
    }
}

/// What to say of a step that came out like that, where it failed.
pub fn step_error(os: Os, step: &Step, out: &Outcome) -> (r: Option<String>)
    ensures
        r is Some == failure(os, step@, *out) is Some,
        r is Some ==> r->0@ == failure(os, step@, *out)->0,
{
    match (step, out) {
        (Step::CreateDir(p), Outcome::NotMade(e)) => Some(
            joined3("no pude crear ", p, ": ").concat(e),
        ),
        (Step::CreateWork(_), Outcome::NotMade(e)) => Some(
            joined("no pude crear carpeta temporal: ", e),
        ),
        (Step::Run { what, .. }, Outcome::Ran(ran)) => match run(what, ran) {
            Ok(_) => None,
            Err(e) => Some(e),
        },
        (Step::Place { name, .. }, Outcome::NotFound) => Some(
            joined("el paquete descargado no traía ", name),
        ),
        (Step::Place { name, .. }, Outcome::NotCopied(e)) => Some(
            joined3("no pude copiar ", name, ": ").concat(e),
        ),
        (Step::Place { target, .. }, Outcome::NotExecutable(e)) => Some(
            joined3("no pude dar permisos a ", target, ": ").concat(e),
        ),
        (Step::Check { program, .. }, Outcome::Silent) => {
            let name: String = match file_name(os, program) {
                Some(n) => n,
                None => "".to_owned(),
            };
            Some(
                joined3(
                    "lo descargado no funciona en este equipo (",
                    &name,
                    " no responde). Prueba con el gestor de paquetes de tu sistema.",
                ),
            )
        },
        _ => None,
    }
}

/// How this process can gain the privileges a system package install needs.
#[derive(Debug, Clone, Copy, PartialEq, Eq, Structural)]
pub enum Escalation {
    /// Already root: run the command directly.
    Direct,
    /// `pkexec` can show a graphical password prompt.
    Pkexec,
    /// No way to prompt (no tty, no pkexec).
    Unavailable,
}

/// How this process can gain privileges.
pub fn escalation(root: bool, pkexec: bool) -> (r: Escalation)
    ensures
        r == if root {
            Escalation::Direct
        } else if pkexec {
            Escalation::Pkexec
        } else {
            Escalation::Unavailable
        },
{
    if root {
        Escalation::Direct
    } else if pkexec {
        Escalation::Pkexec
    } else {
        Escalation::Unavailable
    }
}

/// Whether a text is there and is that one.
pub open spec fn says(s: Option<&str>, what: Seq<char>) -> bool {
    s is Some && s->0@ == what
}

/// True when this process already runs as root, by the variables `USER` and
/// `LOGNAME`. They can be unset, so fall back to what the system answers to
/// `id -u`.
pub fn is_root(user: Option<&str>, logname: Option<&str>, id: Option<&str>) -> (r: bool)
    ensures
        r == (says(user, "root"@) || says(logname, "root"@) || (id is Some && text::trim(id->0@)
            == "0"@)),
{
    if let Some(u) = user {
        if same(u, "root") {
            return true;
        }
    }
    if let Some(l) = logname {
        if same(l, "root") {
            return true;
        }
    }
    match id {
        Some(s) => same(&trimmed(s), "0"),
        None => false,
    }
}

/// The command that installs the system's package.
pub open spec fn package_command(m: Method) -> Seq<Seq<char>> {
    match m {
        Method::Apt => seq!["apt-get"@, "install"@, "-y"@, "ffmpeg"@],
        Method::Dnf => seq!["dnf"@, "install"@, "-y"@, "ffmpeg"@],
        _ => seq!["pacman"@, "-S"@, "--noconfirm"@, "ffmpeg"@],
    }
}

/// A command under the given privileges: its program, and its arguments.
pub open spec fn escalated(args: Seq<Seq<char>>, esc: Escalation) -> (Seq<char>, Seq<Seq<char>>) {
    if esc is Direct {
        (args[0], args.skip(1))
    } else {
        ("pkexec"@, args)
    }
}

/// The command that installs the system's package.
fn package_args(m: Method) -> (r: Vec<String>)
    ensures
        text::texts(r@) == package_command(m),
        r@.len() > 0,
{
    let mut a: Vec<String> = Vec::new();
    assert(text::texts(a@) =~= seq![]);
    match m {
        Method::Apt => {
            put(&mut a, "apt-get");
            put(&mut a, "install");
            put(&mut a, "-y");
        },
        Method::Dnf => {
            put(&mut a, "dnf");
            put(&mut a, "install");
            put(&mut a, "-y");
        },
        _ => {
            put(&mut a, "pacman");
            put(&mut a, "-S");
            put(&mut a, "--noconfirm");
        },
    }
    put(&mut a, "ffmpeg");
    assert(text::texts(a@) =~= package_command(m));
    assert(text::texts(a@).len() == a@.len());
    a
}

/// Build a command that installs a system package with the privileges of
/// whatever escalation is actually usable here.
pub fn privileged(args: &Vec<String>, esc: Escalation) -> (r: (String, Vec<String>))
    requires
        args@.len() > 0,
    ensures
        (r.0@, text::texts(r.1@)) == escalated(text::texts(args@), esc),
{
    let direct: bool = esc == Escalation::Direct;
    let start: usize = if direct {
        1
    } else {
        0
    };
    let ghost all = text::texts(args@);
    let mut rest: Vec<String> = Vec::new();
    let mut i: usize = start;
    assert(text::texts(rest@) =~= all.subrange(start as int, start as int));
    while i < args.len()
        invariant
            start <= i <= args@.len(),
            all == text::texts(args@),
            text::texts(rest@) == all.subrange(start as int, i as int),
        decreases args@.len() - i,
    {
        put(&mut rest, &args[i]);
        i = i + 1;
        assert(text::texts(rest@) =~= all.subrange(start as int, i as int));
    }
    assert(all.subrange(0, all.len() as int) =~= all);
    assert(all.subrange(1, all.len() as int) =~= all.skip(1));
    if direct {
        (args[0].clone(), rest)
    } else {
        ("pkexec".to_owned(), rest)
    }
}

/// What is to be done to install ffmpeg.
#[derive(Debug)]
pub struct Script {
    pub steps: Vec<Step>,
    /// The directory ffmpeg ends up in (None = somewhere on PATH).
    pub dir: Option<String>,
}

/// What an installation says it does, and where ffmpeg ends up.
pub ghost struct ScriptV {
    pub steps: Seq<StepV>,
    pub dir: Option<Seq<char>>,
}

impl View for Script {
    type V = ScriptV;

    open spec fn view(&self) -> ScriptV {
        ScriptV {
            steps: steps_view(self.steps@),
            dir: match self.dir {
                Some(d) => Some(d@),
                None => None,
            },
        }
    }
}

/// What follows a step of an installation.
#[derive(Debug, PartialEq, Eq)]
pub enum Next {
    /// The step of that number.
    Do(usize),
    /// The installation is done, and ffmpeg is in that directory (None =
    /// somewhere on PATH).
    Done(Option<String>),
    /// The installation failed, for the reason given.
    Stop(String),
}

/// What follows a step of an installation.
pub ghost enum NextV {
    Do(nat),
    Done(Option<Seq<char>>),
    Stop(Seq<char>),
}

impl View for Next {
    type V = NextV;

    open spec fn view(&self) -> NextV {
        match *self {
            Next::Do(i) => NextV::Do(i as nat),
            Next::Done(dir) => NextV::Done(
                match dir {
                    Some(d) => Some(d@),
                    None => None,
                },
            ),
            Next::Stop(e) => NextV::Stop(e@),
        }
    }
}

/// What follows step `i` of an installation, which came out like that.
pub open spec fn next(os: Os, script: ScriptV, i: nat, out: Outcome) -> NextV {
    match failure(os, script.steps[i as int], out) {
        Some(e) => NextV::Stop(e),
        None => if i + 1 == script.steps.len() {
            NextV::Done(script.dir)
        } else {
            NextV::Do(i + 1)
        },
    }
}

/// What follows step `i` of an installation, which came out like that.
pub fn after_step(os: Os, script: &Script, i: usize, out: &Outcome) -> (r: Next)
    requires
        i < script.steps@.len(),
    ensures
        r@ == next(os, script@, i as nat, *out),
{
    assert(script@.steps[i as int] == script.steps@[i as int]@);
    match step_error(os, &script.steps[i], out) {
        Some(e) => Next::Stop(e),
        None => if i == script.steps.len() - 1 {
            Next::Done(
                match &script.dir {
                    Some(d) => Some(d.clone()),
                    None => None,
                },
            )
        } else {
            Next::Do(i + 1)
        },
    }
}

/// How an installation ends whose steps from `i` on come out like that.
pub open spec fn outcome_from(os: Os, script: ScriptV, outs: Seq<Outcome>, i: nat) -> Result<
    Option<Seq<char>>,
    Seq<char>,
>
    decreases script.steps.len() - i,
{
    match next(os, script, i, outs[i as int]) {
        NextV::Stop(e) => Err(e),
        NextV::Done(dir) => Ok(dir),
        NextV::Do(_) => if i < script.steps.len() {
            outcome_from(os, script, outs, i + 1)
        } else {
            Ok(script.dir)
        },
    }
}

/// An installation succeeds, with its directory, exactly where no step fails;
/// otherwise it ends with what is said of the first step that does.
pub proof fn law_first_failure_ends_an_installation(
    os: Os,
    script: ScriptV,
    outs: Seq<Outcome>,
    i: nat,
)
    requires
        i < script.steps.len(),
        outs.len() == script.steps.len(),
    ensures
        match outcome_from(os, script, outs, i) {
            Ok(dir) => dir == script.dir && forall|k: int|
                i <= k < outs.len() ==> failure(os, script.steps[k], #[trigger] outs[k]) is None,
            Err(e) => exists|k: int|
                i <= k < outs.len() && failure(os, script.steps[k], #[trigger] outs[k]) == Some(e)
                    && forall|j: int|
                    i <= j < k ==> failure(os, script.steps[j], #[trigger] outs[j]) is None,
        },
    decreases script.steps.len() - i,
{
    if failure(os, script.steps[i as int], outs[i as int]) is None && i + 1 < script.steps.len() {
        law_first_failure_ends_an_installation(os, script, outs, i + 1);
        if outcome_from(os, script, outs, i) is Err {
            let e = outcome_from(os, script, outs, i)->Err_0;
            let k = choose|k: int|
                i + 1 <= k < outs.len() && failure(os, script.steps[k], #[trigger] outs[k]) == Some(
                    e,
                ) && forall|j: int|
                    i + 1 <= j < k ==> failure(os, script.steps[j], #[trigger] outs[j]) is None;
            assert forall|j: int| i <= j < k implies failure(
                os,
                script.steps[j],
                #[trigger] outs[j],
            ) is None by {}
        }
    }
}

/// A script that announces one command and runs it.
pub open spec fn one_command(
    say: Seq<char>,
    program: Seq<char>,
    args: Seq<Seq<char>>,
    what: Seq<char>,
) -> ScriptV {
    ScriptV {
        steps: seq![StepV::Say(say), StepV::Run { program, args, what }],
        dir: None,
    }
}

/// What installing the system's package comes to.
pub open spec fn package_script(m: Method, esc: Escalation) -> Result<ScriptV, Seq<char>> {
    let args = package_command(m);
    let (program, rest) = escalated(args, esc);
    match esc {
        Escalation::Direct => Ok(
            one_command("Instalando el paquete del sistema…"@, program, rest, args[0]),
        ),
        Escalation::Pkexec => Ok(
            one_command(
                "Instalando el paquete del sistema (te pedirá tu contraseña)…"@,
                program,
                rest,
                args[0],
            ),
        ),
        Escalation::Unavailable => Err(
            "Para instalar el paquete del sistema hace falta permiso de administrador, y aquí no puedo pedírtelo. Abre una terminal y ejecuta:\n\n    sudo "@
                + text::join(args, " "@)
                + "\n\nO elige \"Descarga directa\", que no necesita permisos."@,
        ),
    }
}

/// What installing ffmpeg by a method comes to on a machine.
pub open spec fn script(
    m: Method,
    os: Os,
    env: Env,
    platform: Seq<char>,
    arch: Seq<char>,
    esc: Escalation,
) -> Result<ScriptV, Seq<char>> {
    match m {
        Method::Download => match build_url(platform, arch) {
            Some(url) => Ok(
                ScriptV {
                    steps: download_steps(
                        os,
                        url,
                        own_bin_dir(os, env),
                        path::inside(os, private_dir(os, env), "download"@),
                    ),
                    dir: Some(own_bin_dir(os, env)),
                },
            ),
            None => Err(no_download(platform, arch)),
        },
        Method::Winget => Ok(
            one_command(
                "Instalando con winget (puede pedirte permiso de administrador)…"@,
                "winget"@,
                seq![
                    "install"@,
                    "--id"@,
                    "Gyan.FFmpeg"@,
                    "-e"@,
                    "--source"@,
                    "winget"@,
                    "--accept-package-agreements"@,
                    "--accept-source-agreements"@,
                    "--disable-interactivity"@,
                ],
                "winget"@,
            ),
        ),
        Method::Chocolatey => Ok(
            one_command(
                "Instalando con Chocolatey (requiere administrador)…"@,
                "choco"@,
                seq!["install"@, "ffmpeg"@, "-y"@, "--no-progress"@],
                "choco"@,
            ),
        ),
        Method::Homebrew => Ok(
            one_command(
                "Instalando con Homebrew…"@,
                "brew"@,
                seq!["install"@, "ffmpeg"@],
                "brew"@,
            ),
        ),
        _ => package_script(m, esc),
    }
}

/// A script that announces one command and runs it.
fn single_command(say: &str, program: &str, args: Vec<String>, what: &str) -> (r: Script)
    ensures
        r@ == one_command(say@, program@, text::texts(args@), what@),
{
    let mut steps: Vec<Step> = Vec::new();
    assert(steps_view(steps@) =~= seq![]);
    put_say(&mut steps, say);
    put_run(&mut steps, program, args, what);
    let r = Script { steps, dir: None };
    assert(r@.steps =~= one_command(say@, program@, text::texts(args@), what@).steps);
    r
}

/// The arguments with which winget installs ffmpeg.
fn winget_args() -> (r: Vec<String>)
    ensures
        text::texts(r@) == seq![
            "install"@,
            "--id"@,
            "Gyan.FFmpeg"@,
            "-e"@,
            "--source"@,
            "winget"@,
            "--accept-package-agreements"@,
            "--accept-source-agreements"@,
            "--disable-interactivity"@,
        ],
{
    let mut a: Vec<String> = Vec::new();
    assert(text::texts(a@) =~= seq![]);
    put(&mut a, "install");
    put(&mut a, "--id");
    put(&mut a, "Gyan.FFmpeg");
    put(&mut a, "-e");
    put(&mut a, "--source");
    put(&mut a, "winget");
    put(&mut a, "--accept-package-agreements");
    put(&mut a, "--accept-source-agreements");
    put(&mut a, "--disable-interactivity");
    a
}

/// Install the package of a Linux distribution.
fn install_package(m: Method, esc: Escalation) -> (r: Result<Script, String>)
    ensures
        match package_script(m, esc) {
            Ok(s) => r is Ok && r->Ok_0@ == s,
            Err(e) => r is Err && r->Err_0@ == e,
        },
{
    let args: Vec<String> = package_args(m);
    let say: &str = match esc {
        Escalation::Direct => "Instalando el paquete del sistema…",
        Escalation::Pkexec => "Instalando el paquete del sistema (te pedirá tu contraseña)…",
        // Without a terminal, sudo has no way to ask for a password;
        // say so instead of hanging or failing cryptically.
        Escalation::Unavailable => {
            return Err(
                joined3(
                    "Para instalar el paquete del sistema hace falta permiso de administrador, y aquí no puedo pedírtelo. Abre una terminal y ejecuta:\n\n    sudo ",
                    &join_texts(&args, " "),
                    "\n\nO elige \"Descarga directa\", que no necesita permisos.",
                ),
            );
        },
    };
    let (program, rest) = privileged(&args, esc);
    assert(args@[0]@ == text::texts(args@)[0]);
    Ok(single_command(say, &program, rest, &args[0]))
}

/// Install ffmpeg using `method`: what is to be done, with human-readable
/// progress steps, and the directory ffmpeg ends up in.
pub fn install(
    method: Method,
    os: Os,
    env: &Env,
    platform: &str,
    arch: &str,
    esc: Escalation,
) -> (r: Result<Script, String>)
    ensures
        match script(method, os, *env, platform@, arch@, esc) {
            Ok(s) => r is Ok && r->Ok_0@ == s,
            Err(e) => r is Err && r->Err_0@ == e,
        },
{
    match method {
        Method::Download => match download_url(platform, arch) {
            Ok(url) => {
                let dest: String = bin_dir(os, env);
                let work: String = join(os, &data_dir(os, env), "download");
                let steps: Vec<Step> = download_into(os, url, &dest, &work);
                Ok(Script { steps, dir: Some(dest) })
            },
            Err(e) => Err(e),
        },
        Method::Winget => Ok(
            single_command(
                "Instalando con winget (puede pedirte permiso de administrador)…",
                "winget",
                winget_args(),
                "winget",
            ),
        ),
        Method::Chocolatey => {
            let mut a: Vec<String> = Vec::new();
            assert(text::texts(a@) =~= seq![]);
            put(&mut a, "install");
            put(&mut a, "ffmpeg");
            put(&mut a, "-y");
            put(&mut a, "--no-progress");
            assert(text::texts(a@) =~= seq!["install"@, "ffmpeg"@, "-y"@, "--no-progress"@]);
            Ok(
                single_command(
                    "Instalando con Chocolatey (requiere administrador)…",
                    "choco",
                    a,
                    "choco",
                ),
            )
        },
        Method::Homebrew => {
            let mut a: Vec<String> = Vec::new();
            assert(text::texts(a@) =~= seq![]);
            put(&mut a, "install");
            put(&mut a, "ffmpeg");
            assert(text::texts(a@) =~= seq!["install"@, "ffmpeg"@]);
            Ok(single_command("Instalando con Homebrew…", "brew", a, "brew"))
        },
        _ => install_package(method, esc),
    }
}

/// An installation is refused in two cases only: there is no build to download
/// for this machine, or a system package needs privileges that cannot be had.
/// And only the download has a place of its own.
pub proof fn law_when_an_installation_is_refused(
    m: Method,
    os: Os,
    env: Env,
    platform: Seq<char>,
    arch: Seq<char>,
    esc: Escalation,
)
    ensures
        script(m, os, env, platform, arch, esc) is Err <==> (m is Download && build_url(
            platform,
            arch,
        ) is None) || ((m is Apt || m is Dnf || m is Pacman) && esc is Unavailable),
        script(m, os, env, platform, arch, esc) matches Ok(s) ==> (s.dir is Some <==> m
            is Download),
{
}

} // verus!
