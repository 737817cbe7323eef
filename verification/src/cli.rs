//! The terminal interface: what its flags ask for, where the results go, and
//! what it says while it works.
use crate::decimal;
use crate::decimal::fixed_text;
use crate::double;
use crate::double::{Double, Real};
use crate::ffmpeg;
use crate::install;
use crate::install::{Method, OptionV, Option_};
use crate::jobs::BulkItemResult;
use crate::path;
use crate::path::{file_name, join, parent, Os};
use crate::plan;
use crate::plan::{ImageFormat, Settings, SettingsV};
use crate::text;
use crate::text::{
    chars_of, decimal_text, join_texts, joined, joined3, lines_of, parse_number, put, same,
    wide_decimal_text,
};
use vstd::prelude::*;

verus! {

/// What the flags of `convert` say about the result.
#[derive(Debug)]
pub struct ConvertFlags {
    pub preset: String,
    pub max_mb: Option<Double>,
    pub max_width: Option<u32>,
    pub max_height: Option<u32>,
    pub crf: Option<u8>,
    pub fps: Option<Double>,
    pub no_audio: bool,
    pub keep_audio: bool,
    pub speed: String,
    pub image_format: String,
    pub image_quality: u8,
}

/// The image format of that name.
pub open spec fn format_of(name: Seq<char>) -> Option<ImageFormat> {
    if name == "keep"@ {
        Some(ImageFormat::Keep)
    } else if name == "jpg"@ || name == "jpeg"@ {
        Some(ImageFormat::Jpg)
    } else if name == "webp"@ {
        Some(ImageFormat::Webp)
    } else if name == "png"@ {
        Some(ImageFormat::Png)
    } else {
        None
    }
}

/// Whether a number is above zero, or is not a number.
pub open spec fn caps_fps(f: Real) -> bool {
    f is Nan || double::less(double::whole(0), f)
}

/// A preset with the flags on top of it.
pub open spec fn tuned(base: SettingsV, f: ConvertFlags, format: ImageFormat) -> SettingsV {
    SettingsV {
        ratio: base.ratio,
        max_width: match f.max_width {
            Some(w) => w,
            None => base.max_width,
        },
        max_height: match f.max_height {
            Some(h) => h,
            None => base.max_height,
        },
        // An explicit CRF wins over a preset's size cap.
        max_mb: match f.max_mb {
            Some(mb) => Some(mb@),
            None => if f.crf is Some {
                None
            } else {
                base.max_mb
            },
        },
        crf: match f.crf {
            Some(c) => c,
            None => base.crf,
        },
        fps_cap: match f.fps {
            Some(x) => if caps_fps(x@) {
                Some(x@)
            } else {
                None
            },
            None => base.fps_cap,
        },
        strip_audio: if f.keep_audio {
            false
        } else {
            f.no_audio || base.strip_audio
        },
        x264_preset: f.speed@,
        image_format: format,
        image_quality: f.image_quality,
    }
}

/// Whether an x264 speed is one that we offer.
pub open spec fn is_speed(s: Seq<char>) -> bool {
    s == "veryfast"@ || s == "medium"@ || s == "slow"@
}

/// The settings that the flags ask for, or what is wrong with them.
pub open spec fn wanted(f: ConvertFlags) -> Result<SettingsV, Seq<char>> {
    match plan::preset_settings(f.preset@) {
        None => Err(
            "unknown preset '"@ + f.preset@ + "' (try: hover, square, landscape, original)"@,
        ),
        Some(base) => if !is_speed(f.speed@) {
            Err("unknown --speed '"@ + f.speed@ + "' (try: veryfast, medium, slow)"@)
        } else {
            match format_of(f.image_format@) {
                None => Err(
                    "unknown --image-format '"@ + f.image_format@ + "' (try: keep, jpg, webp, png)"@,
                ),
                Some(format) => Ok(tuned(base, f, format)),
            }
        },
    }
}

/// The image format of that name.
fn image_format_of(name: &str) -> (r: Option<ImageFormat>)
    ensures
        r == format_of(name@),
{
    if same(name, "keep") {
        Some(ImageFormat::Keep)
    } else if same(name, "jpg") || same(name, "jpeg") {
        Some(ImageFormat::Jpg)
    } else if same(name, "webp") {
        Some(ImageFormat::Webp)
    } else if same(name, "png") {
        Some(ImageFormat::Png)
    } else {
        None
    }
}

/// The settings that the flags of `convert` ask for, or what is wrong with
/// them.
pub fn convert_settings(f: &ConvertFlags) -> (r: Result<Settings, String>)
    ensures
        match wanted(*f) {
            Ok(s) => r is Ok && r->Ok_0@ == s,
            Err(e) => r is Err && r->Err_0@ == e,
        },
{
    let mut s: Settings = match Settings::preset(&f.preset) {
        Some(s) => s,
        None => {
            return Err(
                joined3(
                    "unknown preset '",
                    &f.preset,
                    "' (try: hover, square, landscape, original)",
                ),
            );
        },
    };
    if let Some(w) = f.max_width {
        s.max_width = w;
    }
    if let Some(h) = f.max_height {
        s.max_height = h;
    }
    if let Some(c) = f.crf {
        s.crf = c;
        // An explicit CRF wins over a preset's size cap.
        s.max_mb = None;
    }
    if f.max_mb.is_some() {
        s.max_mb = f.max_mb;
    }
    if let Some(x) = f.fps {
        s.fps_cap = if x.is_nan() || Double::from_u64(0).lt(x) {
            Some(x)
        } else {
            None
        };
    }
    if f.no_audio {
        s.strip_audio = true;
    }
    if f.keep_audio {
        s.strip_audio = false;
    }
    if !(same(&f.speed, "veryfast") || same(&f.speed, "medium") || same(&f.speed, "slow")) {
        return Err(joined3("unknown --speed '", &f.speed, "' (try: veryfast, medium, slow)"));
    }
    s.x264_preset = f.speed.clone();
    s.image_format = match image_format_of(&f.image_format) {
        Some(format) => format,
        None => {
            return Err(
                joined3(
                    "unknown --image-format '",
                    &f.image_format,
                    "' (try: keep, jpg, webp, png)",
                ),
            );
        },
    };
    s.image_quality = f.image_quality;
    Ok(s)
}

/// Where the results of a conversion go: where the user says, or else to
/// `resized` in the folder of the first input.
pub open spec fn results_dir(
    os: Os,
    out: Option<Seq<char>>,
    first: Seq<char>,
    first_is_dir: bool,
) -> Seq<char> {
    match out {
        Some(o) => o,
        None => path::inside(
            os,
            if first_is_dir {
                first
            } else {
                match path::above(os, first) {
                    Some(d) => d,
                    None => "."@,
                }
            },
            "resized"@,
        ),
    }
}

/// Where the results of a conversion go.
pub fn output_dir(os: Os, out: Option<&str>, first: &str, first_is_dir: bool) -> (r: String)
    ensures
        r@ == results_dir(os, ffmpeg::maybe(out), first@, first_is_dir),
{
    if let Some(o) = out {
        return o.to_owned();
    }
    let base: String = if first_is_dir {
        first.to_owned()
    } else {
        match parent(os, first) {
            Some(d) => d,
            None => ".".to_owned(),
        }
    };
    join(os, &base, "resized")
}

/// What a conversion says first, or why there is none.
pub fn run_convert(files: &Vec<String>, out_dir: &str, jobs: usize) -> (r: Result<String, String>)
    ensures
        r is Ok == (files@.len() > 0),
        r is Ok ==> r->Ok_0@ == "converting "@ + text::decimal(files@.len()) + " file(s) -> "@
            + out_dir@ + "  ("@ + text::decimal(
            plan::at_most(jobs as int, files@.len() as int) as nat,
        ) + " at a time)"@,
        r is Err ==> r->Err_0@ == "no images or videos found in the given inputs"@,
{
    let n: usize = files.len();
    if n == 0 {
        return Err("no images or videos found in the given inputs".to_owned());
    }
    let at_once: usize = if jobs > n {
        n
    } else {
        jobs
    };
    Ok(
        joined3("converting ", &decimal_text(n as u64), " file(s) -> ").concat(out_dir).concat(
            "  (",
        ).concat(&decimal_text(at_once as u64)).concat(" at a time)"),
    )
}

/// The name by which a file is spoken of.
pub open spec fn spoken_name(os: Os, p: Seq<char>) -> Seq<char> {
    match path::name(os, p) {
        Some(n) => n,
        None => "?"@,
    }
}

/// The name by which a file is spoken of.
pub fn display_name(os: Os, p: &str) -> (r: String)
    ensures
        r@ == spoken_name(os, p@),
{
    match file_name(os, p) {
        Some(n) => n,
        None => "?".to_owned(),
    }
}

/// A number of bytes for people: megabytes with one decimal, and whole
/// kilobytes below.
pub open spec fn readable(b: u64) -> Seq<char> {
    if b >= 1048576 {
        decimal::fixed(double::quotient(double::whole(b as nat), double::whole(1048576))) + "MB"@
    } else {
        text::decimal(b as nat / 1024) + "KB"@
    }
}

/// A number of bytes for people.
pub fn human(b: u64) -> (r: String)
    ensures
        r@ == readable(b),
{
    if b >= 1048576 {
        fixed_text(Double::from_u64(b).div(Double::from_u64(1048576))).concat("MB")
    } else {
        decimal_text(b / 1024).concat("KB")
    }
}

/// How much smaller a result is, in percent; nothing where the source is
/// empty.
pub open spec fn saved(in_bytes: u64, out_bytes: u64) -> Seq<char> {
    if in_bytes > 0 {
        let kept = out_bytes * 100 / in_bytes as int;
        "-"@ + text::decimal((100 - plan::at_most(kept, 100)) as nat) + "%"@
    } else {
        ""@
    }
}

/// How much smaller a result is, in percent.
fn savings(in_bytes: u64, out_bytes: u64) -> (r: String)
    ensures
        r@ == saved(in_bytes, out_bytes),
{
    if in_bytes == 0 {
        return "".to_owned();
    }
    let kept: u128 = out_bytes as u128 * 100 / in_bytes as u128;
    let less: u128 = if kept > 100 {
        0
    } else {
        100 - kept
    };
    joined3("-", &wide_decimal_text(less), "%")
}

/// What is said of a file that is done: `name` is that of the source.
pub open spec fn done_line(os: Os, name: Seq<char>, item: BulkItemResult) -> Seq<char> {
    match item.result {
        Ok((out, i, o)) => "  done  "@ + spoken_name(os, out@) + "  ("@ + readable(i) + " -> "@
            + readable(o) + " "@ + saved(i, o) + ")"@,
        Err(e) => "  FAIL  "@ + name + "  ("@ + (if text::lines(e@).len() > 0 {
            text::lines(e@).last()
        } else {
            "failed"@
        }) + ")"@,
    }
}

/// What is said of a file that is done.
pub fn report_done(os: Os, name: &str, item: &BulkItemResult) -> (r: String)
    ensures
        r@ == done_line(os, name@, *item),
{
    match &item.result {
        Ok((out, i, o)) => joined3("  done  ", &display_name(os, out), "  (").concat(
            &human(*i),
        ).concat(" -> ").concat(&human(*o)).concat(" ").concat(&savings(*i, *o)).concat(")"),
        Err(e) => {
            let lines: Vec<String> = lines_of(e);
            let last: String = if lines.len() > 0 {
                assert(text::texts(lines@).last() == lines@.last()@);
                lines[lines.len() - 1].clone()
            } else {
                assert(text::texts(lines@).len() == 0);
                "failed".to_owned()
            };
            joined3("  FAIL  ", name, "  (").concat(&last).concat(")")
        },
    }
}

/// Quarters of a conversion that are done.
pub open spec fn quarters(frac: Real) -> nat {
    double::whole_part(double::product(frac, double::whole(4)), u8::MAX as nat)
}

/// Coarse progress ticks (25% steps) so logs stay readable: what is said of a
/// file that is that far, where it is a quarter farther than was seen.
pub fn report_progress(name: &str, frac: Double, seen: &mut u8) -> (r: Option<String>)
    ensures
        *final(seen) == plan::at_least(*old(seen) as int, quarters(frac@) as int),
        r is Some == (quarters(frac@) > *old(seen)),
        r is Some ==> r->0@ == "  ....  "@ + name@ + "  "@ + text::decimal(quarters(frac@) * 25)
            + "%"@,
{
    let step: u8 = frac.mul(Double::from_u64(4)).to_u8();
    if step > *seen {
        *seen = step;
        Some(
            joined3("  ....  ", name, "  ").concat(&decimal_text(step as u64 * 25)).concat("%"),
        )
    } else {
        None
    }
}

/// How many of the first `n` results are good.
pub open spec fn good(results: Seq<BulkItemResult>, n: nat) -> nat
    decreases n,
{
    if n == 0 {
        0
    } else if results[n - 1].result is Ok {
        good(results, (n - 1) as nat) + 1
    } else {
        good(results, (n - 1) as nat)
    }
}

proof fn lemma_good_bound(results: Seq<BulkItemResult>, n: nat)
    ensures
        good(results, n) <= n,
    decreases n,
{
    if n > 0 {
        lemma_good_bound(results, (n - 1) as nat);
    }
}

/// How many results are good.
fn count_good(results: &Vec<BulkItemResult>) -> (r: usize)
    ensures
        r == good(results@, results@.len()),
        r <= results@.len(),
{
    let mut ok: usize = 0;
    let mut i: usize = 0;
    while i < results.len()
        invariant
            0 <= i <= results@.len(),
            ok <= i,
            ok == good(results@, i as nat),
        decreases results@.len() - i,
    {
        if results[i].result.is_ok() {
            ok = ok + 1;
        }
        i = i + 1;
    }
    ok
}

/// What a conversion says last; with it, the failure that it ends in where a
/// file failed.
pub fn summary(results: &Vec<BulkItemResult>) -> (r: (String, Option<String>))
    ensures
        ({
            let n = results@.len();
            let ok = good(results@, n);
            let failed = (n - ok) as nat;
            &&& r.0@ == "finished: "@ + text::decimal(ok) + " ok, "@ + text::decimal(failed)
                + " failed"@
            &&& r.1 is Some == (failed > 0)
            &&& r.1 is Some ==> r.1->0@ == text::decimal(failed) + " file(s) failed"@
        }),
{
    let ok: usize = count_good(results);
    let failed: usize = results.len() - ok;
    let line: String = joined3("finished: ", &decimal_text(ok as u64), " ok, ").concat(
        &decimal_text(failed as u64),
    ).concat(" failed");
    if failed > 0 {
        (line, Some(joined(&decimal_text(failed as u64), " file(s) failed")))
    } else {
        (line, None)
    }
}

/// A batch pretends no success: it ends well exactly where every file did.
pub proof fn law_success_means_every_file(results: Seq<BulkItemResult>, n: nat)
    requires
        n <= results.len(),
    ensures
        good(results, n) == n <==> forall|i: int|
            0 <= i < n ==> (#[trigger] results[i]).result is Ok,
    decreases n,
{
    if n > 0 {
        law_success_means_every_file(results, (n - 1) as nat);
        lemma_good_bound(results, (n - 1) as nat);
    }
}

/// A text, filled up with spaces to a width of twelve.
pub open spec fn padded(s: Seq<char>) -> Seq<char>
    decreases 12 - s.len(),
{
    if s.len() < 12 {
        padded(s.push(' '))
    } else {
        s
    }
}

/// A text, filled up with spaces to a width of twelve.
fn pad(s: &str) -> (r: String)
    ensures
        r@ == padded(s@),
{
    let mut r: String = s.to_owned();
    let mut n: usize = chars_of(s).len();
    while n < 12
        invariant
            n == r@.len(),
            padded(r@) == padded(s@),
        decreases 12 - n,
    {
        r.push(' ');
        n = n + 1;
    }
    r
}

/// The lines about one way to install ffmpeg.
pub open spec fn option_lines(o: OptionV) -> Seq<char> {
    "  --method "@ + padded(o.id) + " "@ + o.label + (if o.recommended {
        "  (recomendado)"@
    } else {
        ""@
    }) + "\n      "@ + o.detail + "\n"@
}

/// The lines about the first `n` ways to install ffmpeg.
pub open spec fn all_lines(v: Seq<OptionV>, n: nat) -> Seq<char>
    decreases n,
{
    if n == 0 {
        seq![]
    } else {
        all_lines(v, (n - 1) as nat) + option_lines(v[n - 1])
    }
}

/// The way that is suggested, from `from` on.
pub open spec fn suggested_id(v: Seq<OptionV>, from: int) -> Seq<char>
    decreases v.len() - from,
{
    if from >= v.len() {
        "download"@
    } else if v[from].recommended {
        v[from].id
    } else {
        suggested_id(v, from + 1)
    }
}

/// What is said about the ways to install ffmpeg.
pub open spec fn listing(v: Seq<OptionV>) -> Seq<char> {
    "ffmpeg no está instalado. Formas de instalarlo en este sistema:\n\n"@ + all_lines(v, v.len())
        + "\nEjemplo: resizer-cli install-ffmpeg --method "@ + suggested_id(v, 0)
}

/// The lines about one way to install ffmpeg.
fn describe(o: &Option_) -> (r: String)
    ensures
        r@ == option_lines(o@),
{
    joined3("  --method ", &pad(o.id), " ").concat(o.label).concat(
        if o.recommended {
            "  (recomendado)"
        } else {
            ""
        },
    ).concat("\n      ").concat(&o.detail).concat("\n")
}

/// What is said about the ways to install ffmpeg.
fn list_options(options: &Vec<Option_>) -> (r: String)
    ensures
        r@ == listing(install::options_view(options@)),
{
    let ghost v = install::options_view(options@);
    let mut lines: String = String::new();
    let mut i: usize = 0;
    assert(lines@ =~= all_lines(v, 0));
    while i < options.len()
        invariant
            0 <= i <= options@.len(),
            v == install::options_view(options@),
            lines@ == all_lines(v, i as nat),
        decreases options@.len() - i,
    {
        assert(v[i as int] == options@[i as int]@);
        lines = lines.concat(&describe(&options[i]));
        i = i + 1;
    }
    let mut k: usize = 0;
    while k < options.len() && !options[k].recommended
        invariant
            0 <= k <= options@.len(),
            v == install::options_view(options@),
            suggested_id(v, 0) == suggested_id(v, k as int),
        decreases options@.len() - k,
    {
        assert(v[k as int] == options@[k as int]@);
        k = k + 1;
    }
    let id: &str = if k < options.len() {
        assert(v[k as int] == options@[k as int]@);
        options[k].id
    } else {
        "download"
    };
    joined3(
        "ffmpeg no está instalado. Formas de instalarlo en este sistema:\n\n",
        &lines,
        "\nEjemplo: resizer-cli install-ffmpeg --method ",
    ).concat(id)
}

/// What `install-ffmpeg` is to do.
#[derive(Debug)]
pub enum InstallRun {
    /// Say this and be done.
    Say(String),
    /// Install by this method.
    Install(Method),
    /// Refuse.
    Refuse(String),
}

/// The ids of the ways to install ffmpeg.
pub open spec fn ids(v: Seq<OptionV>) -> Seq<Seq<char>> {
    v.map_values(|o: OptionV| o.id)
}

/// What `install-ffmpeg` is to do: list the options, or run the chosen one.
pub fn run_install(available: bool, method: Option<&str>, options: &Vec<Option_>) -> (r: InstallRun)
    ensures
        ({
            let v = install::options_view(options@);
            match method {
                None => if available {
                    r is Say && r->Say_0@ == "ffmpeg ya está instalado y funcionando."@
                } else {
                    r is Say && r->Say_0@ == listing(v)
                },
                Some(m) => match install::method_of(m@) {
                    None => r is Refuse && r->Refuse_0@ == "método desconocido '"@ + m@ + "'"@,
                    Some(parsed) => if ids(v).contains(install::id_of(parsed)) {
                        r == InstallRun::Install(parsed)
                    } else {
                        r is Refuse && r->Refuse_0@ == "'"@ + m@
                            + "' no está disponible en este sistema (prueba: "@ + text::join(
                            ids(v),
                            ", "@,
                        ) + ")"@
                    },
                },
            }
        }),
{
    let method: &str = match method {
        None => {
            return if available {
                InstallRun::Say("ffmpeg ya está instalado y funcionando.".to_owned())
            } else {
                InstallRun::Say(list_options(options))
            };
        },
        Some(m) => m,
    };
    let parsed: Method = match Method::from_id(method) {
        Some(m) => m,
        None => {
            return InstallRun::Refuse(joined3("método desconocido '", method, "'"));
        },
    };
    let ghost v = install::options_view(options@);
    let mut known: Vec<String> = Vec::new();
    let mut i: usize = 0;
    assert(text::texts(known@) =~= ids(v).take(0));
    while i < options.len()
        invariant
            0 <= i <= options@.len(),
            v == install::options_view(options@),
            text::texts(known@) == ids(v).take(i as int),
        decreases options@.len() - i,
    {
        assert(v[i as int] == options@[i as int]@);
        put(&mut known, options[i].id);
        i = i + 1;
        assert(text::texts(known@) =~= ids(v).take(i as int));
    }
    assert(ids(v).take(i as int) =~= ids(v));
    if install::has_text(&known, parsed.id()) {
        InstallRun::Install(parsed)
    } else {
        InstallRun::Refuse(
            joined3("'", method, "' no está disponible en este sistema (prueba: ").concat(
                &join_texts(&known, ", "),
            ).concat(")"),
        )
    }
}

/// What is said once an installation has run through, where `version` is what
/// ffmpeg now answers.
pub fn installed(version: Option<&str>) -> (r: Result<String, String>)
    ensures
        match version {
            Some(v) => r is Ok && r->Ok_0@ == "Listo: "@ + v@,
            None => r is Err && r->Err_0@
                == "la instalación terminó pero ffmpeg sigue sin responder"@,
        },
{
    match version {
        Some(v) => Ok(joined("Listo: ", v)),
        None => Err("la instalación terminó pero ffmpeg sigue sin responder".to_owned()),
    }
}

/// What the arguments of the graphical program ask for.
#[derive(Debug, Clone, Copy, PartialEq, Eq, Structural)]
pub struct GuiArgs {
    pub port: u16,
    pub no_browser: bool,
    /// Only the version is asked for.
    pub version: bool,
}

/// A port number in a text; zero (any port) where there is none.
pub open spec fn port_of(s: Seq<char>) -> u16 {
    match text::number(s) {
        Some(n) => if n <= u16::MAX {
            n as u16
        } else {
            0
        },
        None => 0,
    }
}

/// What the arguments from `i` on ask for, on top of what was asked for before.
pub open spec fn gui_from(args: Seq<Seq<char>>, i: int, so_far: GuiArgs) -> GuiArgs
    decreases args.len() - i,
{
    if i >= args.len() {
        so_far
    } else if args[i] == "--port"@ {
        if i + 1 < args.len() {
            gui_from(args, i + 2, GuiArgs { port: port_of(args[i + 1]), ..so_far })
        } else {
            GuiArgs { port: 0, ..so_far }
        }
    } else if args[i] == "--no-browser"@ {
        gui_from(args, i + 1, GuiArgs { no_browser: true, ..so_far })
    } else if args[i] == "--version"@ || args[i] == "-V"@ {
        GuiArgs { version: true, ..so_far }
    } else {
        gui_from(args, i + 1, so_far)
    }
}

/// Minimal flag handling: the graphical program intentionally has no CLI
/// surface, but these help when debugging.
pub fn gui_args(args: &Vec<String>) -> (r: GuiArgs)
    ensures
        r == gui_from(
            text::texts(args@),
            0,
            GuiArgs { port: 0, no_browser: false, version: false },
        ),
{
    let ghost all = text::texts(args@);
    let ghost want = gui_from(all, 0, GuiArgs { port: 0, no_browser: false, version: false });
    let n: usize = args.len();
    let mut r = GuiArgs { port: 0, no_browser: false, version: false };
    let mut i: usize = 0;
    while i < n
        invariant
            n == args@.len(),
            all == text::texts(args@),
            i <= n,
            want == gui_from(all, 0, (GuiArgs { port: 0, no_browser: false, version: false })),
            want == gui_from(all, i as int, r),
        decreases n - i,
    {
        assert(all[i as int] == args@[i as int]@);
        if same(&args[i], "--port") {
            if n - i > 1 {
                assert(all[i + 1] == args@[i + 1]@);
                r.port = match parse_number(&args[i + 1]) {
                    Some(p) => if p <= 65535 {
                        p as u16
                    } else {
                        0
                    },
                    None => 0,
                };
                i = i + 2;
            } else {
                r.port = 0;
                return r;
            }
        } else if same(&args[i], "--no-browser") {
            r.no_browser = true;
            i = i + 1;
        } else if same(&args[i], "--version") || same(&args[i], "-V") {
            r.version = true;
            return r;
        } else {
            i = i + 1;
        }
    }
    r
}

} // verus!
