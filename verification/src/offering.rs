//! How ffmpeg is found, and the ways to install it that are offered.
use crate::ffmpeg;
use crate::install;
use crate::install::{Env, Escalation, Method, OptionV, StepV};
use crate::path;
use crate::path::Os;
use vstd::prelude::*;

verus! {

/// Whether a way to install ffmpeg is among those offered, under that id.
pub open spec fn is_offered(v: Seq<OptionV>, id: Seq<char>) -> bool {
    exists|i: int| 0 <= i < v.len() && (#[trigger] v[i]).id == id
}

/// Each package manager is offered exactly on its own system and where its
/// command answers, and the download always, as the last. The first package
/// manager that is offered is the one that is recommended, and the download
/// where there is none.
pub proof fn law_offers_are_what_works(os: Os, env: Env, on_path: Seq<Seq<char>>)
    ensures
        ({
            let v = install::offered(os, env, on_path);
            &&& is_offered(v, "winget"@) <==> os is Windows && on_path.contains("winget"@)
            &&& is_offered(v, "chocolatey"@) <==> os is Windows && on_path.contains("choco"@)
            &&& is_offered(v, "homebrew"@) <==> os is Macos && on_path.contains("brew"@)
            &&& is_offered(v, "apt"@) <==> os is Other && on_path.contains("apt-get"@)
            &&& is_offered(v, "dnf"@) <==> os is Other && on_path.contains("dnf"@)
            &&& is_offered(v, "pacman"@) <==> os is Other && on_path.contains("pacman"@)
            &&& v.len() > 0 && v.last().id == "download"@
            &&& v[0].recommended
            &&& forall|i: int| 0 < i < v.len() ==> !(#[trigger] v[i]).recommended
        }),
{
    reveal_strlit("winget");
    reveal_strlit("chocolatey");
    reveal_strlit("homebrew");
    reveal_strlit("apt");
    reveal_strlit("dnf");
    reveal_strlit("pacman");
    reveal_strlit("download");
    assert("winget"@.len() == 6 && "chocolatey"@.len() == 10 && "homebrew"@.len() == 8);
    assert("apt"@.len() == 3 && "dnf"@.len() == 3 && "pacman"@.len() == 6 && "download"@.len() == 8);
    assert("apt"@[0] == 'a' && "dnf"@[0] == 'd' && "winget"@[0] == 'w' && "pacman"@[0] == 'p');
    assert("homebrew"@[0] == 'h' && "download"@[0] == 'd');
    let c = install::candidates(os);
    let us = install::usable(os, on_path);
    let v = install::offered(os, env, on_path);
    reveal_with_fuel(install::usable_of, 5);
    reveal_with_fuel(install::suggested, 5);
    assert(us.len() <= 4);
    assert(forall|i: int| 0 <= i < us.len() ==> (#[trigger] v[i]).id == install::id_of(us[i]));
    match os {
        Os::Windows => {
            lemma_offer(os, env, on_path, Method::Winget);
            lemma_offer(os, env, on_path, Method::Chocolatey);
        },
        Os::Macos => {
            lemma_offer(os, env, on_path, Method::Homebrew);
        },
        Os::Other => {
            lemma_offer(os, env, on_path, Method::Apt);
            lemma_offer(os, env, on_path, Method::Dnf);
            lemma_offer(os, env, on_path, Method::Pacman);
        },
    }
}

proof fn lemma_offer(os: Os, env: Env, on_path: Seq<Seq<char>>, m: Method)
    requires
        install::candidates(os).contains(m),
    ensures
        install::is_usable(m, on_path) ==> is_offered(
            install::offered(os, env, on_path),
            install::id_of(m),
        ),
{
    let c = install::candidates(os);
    let v = install::offered(os, env, on_path);
    let us = install::usable(os, on_path);
    let i = choose|i: int| 0 <= i < c.len() && c[i] == m;
    if install::is_usable(m, on_path) {
        let j = lemma_usable(c, on_path, c.len(), i);
        assert(us[j] == m);
        assert(v[j].id == install::id_of(m));
    }
}

proof fn lemma_usable(c: Seq<Method>, on_path: Seq<Seq<char>>, n: nat, i: int) -> (j: int)
    requires
        0 <= i < n <= c.len(),
        install::is_usable(c[i], on_path),
    ensures
        0 <= j < install::usable_of(c, on_path, n).len(),
        install::usable_of(c, on_path, n)[j] == c[i],
    decreases n,
{
    if i == n - 1 {
        install::usable_of(c, on_path, (n - 1) as nat).len() as int
    } else {
        lemma_usable(c, on_path, (n - 1) as nat, i)
    }
}

/// ffmpeg is looked for in an order: where the user says, and nowhere else; or
/// where the environment says, and nowhere else; or else where a download of our
/// own puts it, then on PATH, then where the package managers put it, then beside
/// this program. ffprobe is looked for beside it.
pub proof fn law_places_in_their_order(os: Os, env: Env, p: Seq<char>)
    ensures
        ({
            let name = if os is Windows {
                "ffmpeg"@ + ".exe"@
            } else {
                "ffmpeg"@
            };
            let all = ffmpeg::places(os, None, env);
            let dirs = install::manager_dirs(os, env);
            &&& ffmpeg::places(os, Some(p), env) == seq![p]
            &&& env.ffmpeg_path is Some ==> all == seq![env.ffmpeg_path->0@]
            &&& env.ffmpeg_path is None ==> {
                &&& all.len() >= 2 + dirs.len()
                &&& all[0] == path::inside(os, install::own_bin_dir(os, env), name)
                &&& all[1] == name
                &&& forall|i: int|
                    0 <= i < dirs.len() ==> all[2 + i] == path::inside(os, #[trigger] dirs[i], name)
                &&& env.current_exe matches Some(me) ==> (path::above(os, me@) matches Some(dir)
                    ==> all.last() == path::inside(os, dir, name))
            }
        }),
{
}

/// A download brings both programs into the directory given, out of the one that
/// it was unpacked in, checks both, and takes both away again where one does not
/// answer. The directory is made first; the other one is emptied before and
/// removed after.
pub proof fn law_downloads_bring_both_programs(
    os: Os,
    url: Seq<char>,
    dest: Seq<char>,
    work: Seq<char>,
)
    ensures
        ({
            let all = install::download_steps(os, url, dest, work);
            let n = all.len() as int;
            let (ffmpeg, ffprobe) = if os is Windows {
                ("ffmpeg"@ + ".exe"@, "ffprobe"@ + ".exe"@)
            } else {
                ("ffmpeg"@, "ffprobe"@)
            };
            let (a, b) = (path::inside(os, dest, ffmpeg), path::inside(os, dest, ffprobe));
            &&& n >= 14
            &&& all[0] == StepV::CreateDir(dest)
            &&& all[1] == StepV::RemoveDir(work)
            &&& all[2] == StepV::CreateWork(work)
            &&& all[n - 6] == (StepV::Place { dir: work, name: ffmpeg, target: a })
            &&& all[n - 5] == (StepV::Place { dir: work, name: ffprobe, target: b })
            &&& all[n - 4] == StepV::RemoveDir(work)
            &&& all[n - 2] == (StepV::Check { program: a, remove: seq![a, b] })
            &&& all[n - 1] == (StepV::Check { program: b, remove: seq![a, b] })
            &&& !(os is Windows) ==> (all[4] matches StepV::Run { program, args, .. } && program
                == "curl"@ && args.last() == url)
        }),
{
    let all = install::download_steps(os, url, dest, work);
    let f = install::fetch(os, url, work);
    assert(f.len() == 4 || f.len() == 6);
    let n = all.len() as int;
    assert(all[4] == f[1]);
}

/// The download is for the system and the machine that it is made on: there is
/// one for Windows, for macOS, and for Linux on the two kinds of machine, which
/// differ, and for nothing else. What is downloaded goes to the directory of this
/// program, which is where ffmpeg ends up; a package goes to the system's own.
pub proof fn law_downloads_are_for_the_machine(
    m: Method,
    os: Os,
    env: Env,
    platform: Seq<char>,
    arch: Seq<char>,
    esc: Escalation,
)
    ensures
        ({
            let known = platform == "windows"@ || platform == "macos"@ || (platform == "linux"@ && (
            arch == "x86_64"@ || arch == "aarch64"@));
            let s = install::script(m, os, env, platform, arch, esc);
            &&& install::build_url(platform, arch) is Some <==> known
            &&& install::build_url("linux"@, "x86_64"@) != install::build_url("linux"@, "aarch64"@)
            &&& m is Download ==> (s is Ok <==> known)
            &&& m is Download && s is Ok ==> s->Ok_0.dir == Some(install::own_bin_dir(os, env))
            &&& !(m is Download) && s is Ok ==> s->Ok_0.dir is None && s->Ok_0.steps.len() == 2
        }),
{
    reveal_strlit("windows");
    reveal_strlit("linux");
    reveal_strlit("macos");
    reveal_strlit("x86_64");
    reveal_strlit("aarch64");
    assert("windows"@.len() == 7 && "linux"@[0] == 'l' && "macos"@[0] == 'm');
    assert("x86_64"@.len() == 6 && "aarch64"@.len() == 7);
    reveal_strlit("https://johnvansickle.com/ffmpeg/releases/ffmpeg-release-amd64-static.tar.xz");
    reveal_strlit("https://johnvansickle.com/ffmpeg/releases/ffmpeg-release-arm64-static.tar.xz");
    let (a, b) = (
        "https://johnvansickle.com/ffmpeg/releases/ffmpeg-release-amd64-static.tar.xz"@,
        "https://johnvansickle.com/ffmpeg/releases/ffmpeg-release-arm64-static.tar.xz"@,
    );
    assert(a[58] == 'm' && b[58] == 'r');
}

} // verus!
