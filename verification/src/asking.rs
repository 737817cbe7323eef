//! What the user asks for, and what is made of it.
use crate::cli;
use crate::cli::ConvertFlags;
use crate::double;
use crate::double::Real;
use crate::jobs;
use crate::jobs::BulkItemResult;
use crate::json;
use crate::json::JsonV;
use crate::path;
use crate::path::Os;
use crate::plan;
use crate::plan::{EncodePlan, ImageFormat, Settings};
use crate::server;
use crate::server::{EntryV, Found, StateV};
use crate::text;
use vstd::prelude::*;

verus! {

/// The flags win over the preset, each over its own setting, and what no flag
/// speaks of is as in the preset. A flag for the quality of videos lifts the
/// size cap of a preset, unless a cap is asked for too. A frame rate of zero or
/// less lifts the cap on it. Audio that is to be kept is kept, whatever else is
/// said. A preset, a speed or an image format that is not offered is refused.
pub proof fn law_flags_win_over_the_preset(f: ConvertFlags)
    ensures
        ({
            let preset = plan::preset_settings(f.preset@);
            let format = f.image_format@;
            let offered = (f.speed@ == "veryfast"@ || f.speed@ == "medium"@ || f.speed@ == "slow"@)
                && (format == "keep"@ || format == "jpg"@ || format == "jpeg"@ || format == "webp"@
                || format == "png"@);
            &&& cli::wanted(f) is Ok <==> preset is Some && offered
            &&& cli::wanted(f) matches Ok(s) ==> {
                let base = preset->0;
                &&& s.ratio == base.ratio
                &&& s.max_width == if f.max_width is Some {
                    f.max_width->0
                } else {
                    base.max_width
                }
                &&& s.max_height == if f.max_height is Some {
                    f.max_height->0
                } else {
                    base.max_height
                }
                &&& f.max_mb is Some ==> s.max_mb == Some(f.max_mb->0@)
                &&& f.max_mb is None && f.crf is Some ==> s.max_mb is None
                &&& f.max_mb is None && f.crf is None ==> s.max_mb == base.max_mb
                &&& s.crf == if f.crf is Some {
                    f.crf->0
                } else {
                    base.crf
                }
                &&& f.fps is None ==> s.fps_cap == base.fps_cap
                &&& f.fps is Some && double::less(double::whole(0), f.fps->0@) ==> s.fps_cap == Some(
                    f.fps->0@,
                )
                &&& f.fps is Some && f.fps->0@ == double::whole(0) ==> s.fps_cap is None
                &&& f.keep_audio ==> !s.strip_audio
                &&& !f.keep_audio && f.no_audio ==> s.strip_audio
                &&& !f.keep_audio && !f.no_audio ==> s.strip_audio == base.strip_audio
                &&& s.x264_preset == f.speed@
                &&& s.image_quality == f.image_quality
                &&& match s.image_format {
                    ImageFormat::Keep => format == "keep"@,
                    ImageFormat::Jpg => format == "jpg"@ || format == "jpeg"@,
                    ImageFormat::Webp => format == "webp"@,
                    ImageFormat::Png => format == "png"@,
                }
            }
        }),
{
    double::lemma_whole_exact(0);
}

/// Results go where the user says; otherwise into `resized`, in the folder that
/// was given, or in the one that the file that was given is in.
pub proof fn law_results_go_beside_their_source(
    os: Os,
    dir: Seq<char>,
    name: Seq<char>,
    out: Seq<char>,
)
    ensures
        cli::results_dir(os, Some(out), name, true) == out,
        cli::results_dir(os, Some(out), name, false) == out,
        cli::results_dir(os, None, dir, true) == path::inside(os, dir, "resized"@),
        path::above(os, name) == Some(dir) ==> cli::results_dir(os, None, name, false)
            == cli::results_dir(os, None, dir, true),
{
}

/// The format of a result: a video becomes mp4, and an image what was asked for;
/// one that is to keep its format keeps it where it is a png or a webp, and
/// becomes a jpg otherwise.
pub proof fn law_results_have_the_format_asked_for(
    os: Os,
    input: Seq<char>,
    format: ImageFormat,
)
    ensures
        ({
            let image = jobs::ext_for(os, input, false, format);
            let own = match path::suffix(os, input) {
                Some(e) => text::lower(e),
                None => seq![],
            };
            &&& jobs::ext_for(os, input, true, format) == "mp4"@
            &&& format is Jpg ==> image == "jpg"@
            &&& format is Webp ==> image == "webp"@
            &&& format is Png ==> image == "png"@
            &&& format is Keep && (own == "png"@ || own == "webp"@) ==> image == own
            &&& format is Keep && own != "png"@ && own != "webp"@ ==> image == "jpg"@
        }),
{
    reveal_strlit("");
    reveal_strlit("png");
    reveal_strlit("webp");
    assert(""@.len() == 0 && "png"@.len() == 3 && "webp"@.len() == 4);
}

/// A preview is as long as its source, and two and a half seconds at most. The
/// whole of a source that is no longer weighs what its preview weighs.
pub proof fn law_previews_are_short(d: nat, p: EncodePlan, bytes: u64)
    requires
        0 < d,
        bytes < 0x20_0000_0000_0000,
    ensures
        ({
            let one = double::one();
            let clip = jobs::clip_of(Real::Finite(false, d));
            &&& 2 * d <= 5 * one ==> clip == Real::Finite(false, d)
            &&& 2 * d > 5 * one ==> (clip matches Real::Finite(false, c) && 2 * c == 5 * one)
            &&& 2 * d <= 5 * one && p.rate is Crf ==> jobs::estimate(
                p,
                Real::Finite(false, d),
                bytes,
            ) == bytes
        }),
{
    let o = double::one();
    plan::lemma_one_is_huge();
    vstd::arithmetic::power2::lemma_pow2_adds(1, 1073);
    vstd::arithmetic::power2::lemma2_to64();
    let half = vstd::arithmetic::power2::pow2(1073);
    assert(o == 2 * half);
    double::lemma_nearest_scaled(5 * half, 1, 2);
    double::lemma_nearest_exact(5, 1073);
    assert(5 * o == 2 * (5 * half));
    assert(double::nearest(5 * o, 2) == 5 * half);
    assert(double::literal(5, 2) == Real::Finite(false, 5 * half));
    if 2 * d <= 5 * o && p.rate is Crf {
        double::lemma_whole_exact(0);
        double::lemma_whole_exact(bytes as nat);
        assert(0 * o == 0);
        double::lemma_nearest_scaled(o, 1, d);
        assert(d * o == o * d && d * 1 == d) by (nonlinear_arith);
        double::lemma_nearest_exact(1, 1074);
        assert(double::quotient(Real::Finite(false, d), Real::Finite(false, d)) == Real::Finite(
            false,
            o,
        ));
        let b = bytes as nat;
        double::lemma_nearest_scaled(b * o, 1, o);
        assert((b * o) * o == o * (b * o)) by (nonlinear_arith);
        assert(o * 1 == o);
        double::lemma_nearest_exact(b, 1074);
        vstd::arithmetic::div_mod::lemma_div_multiples_vanish(b as int, o as int);
        assert(o * b == b * o) by (nonlinear_arith);
    }
}

/// A conversion that is asked for takes every file that waits, from the start,
/// and no other; nothing else is touched.
pub proof fn law_conversion_takes_what_waits(s: StateV, i: int)
    requires
        0 <= i < s.entries.len(),
    ensures
        ({
            let t = server::with_conversion(s);
            let (e, f) = (s.entries[i], t.entries[i]);
            &&& t.converting && t.entries.len() == s.entries.len()
            &&& t.settings == s.settings && t.out_dir == s.out_dir && t.jobs == s.jobs
            &&& t.next_id == s.next_id
            &&& e.status is Ready ==> f.status is Working && f.progress == double::whole(0) && f.id
                == e.id && f.path == e.path && f.name == e.name && f.info == e.info
            &&& !(e.status is Ready) ==> f == e
        }),
{
}

/// A batch works on the entries that are at work, all of them, in their order:
/// each by its own id and path.
pub proof fn law_batch_is_what_is_at_work(entries: Seq<EntryV>, n: nat)
    requires
        n <= entries.len(),
    ensures
        forall|i: int|
            0 <= i < n && (#[trigger] entries[i]).status is Working ==> server::at_work(
                entries,
                n,
            ).contains((entries[i].id, entries[i].path)),
        forall|j: int|
            0 <= j < server::at_work(entries, n).len() ==> is_at_work(
                entries,
                n,
                #[trigger] server::at_work(entries, n)[j],
            ),
    decreases n,
{
    if n > 0 {
        let m = (n - 1) as nat;
        law_batch_is_what_is_at_work(entries, m);
        let (a, b) = (server::at_work(entries, m), server::at_work(entries, n));
        let e = entries[n - 1];
        assert forall|i: int| 0 <= i < n && (#[trigger] entries[i]).status is Working implies b.contains(
            (entries[i].id, entries[i].path),
        ) by {
            if i < n - 1 {
                let x = (entries[i].id, entries[i].path);
                let k = choose|k: int| 0 <= k < a.len() && a[k] == x;
                assert(b[k] == x);
            } else {
                assert(b.last() == (e.id, e.path));
            }
        }
        assert forall|j: int| 0 <= j < b.len() implies is_at_work(entries, n, #[trigger] b[j]) by {
            if j < a.len() {
                assert(a[j] == b[j] && is_at_work(entries, m, a[j]));
                let i = choose|i: int|
                    0 <= i < m && (#[trigger] entries[i]).status is Working && (
                    entries[i].id,
                    entries[i].path,
                ) == a[j];
                assert(entries[i].status is Working);
            } else {
                assert(entries[n - 1].status is Working);
            }
        }
    }
}

/// Whether one of the first `n` entries is at work, under that id and at that
/// path.
pub open spec fn is_at_work(entries: Seq<EntryV>, n: nat, x: (u64, Seq<char>)) -> bool {
    exists|i: int|
        0 <= i < n && (#[trigger] entries[i]).status is Working && (entries[i].id, entries[i].path)
            == x
}

/// What is heard of a conversion is noted at the first entry of that id, and at
/// no other: how far it is; once it is done, its result and the size of that, or
/// else why it failed. What is heard of an id that is not in the list is let go.
pub proof fn law_news_reach_their_entry(
    s: StateV,
    id: u64,
    frac: Real,
    done: Option<BulkItemResult>,
    i: int,
)
    requires
        0 <= i <= s.entries.len(),
        i < s.entries.len() ==> s.entries[i].id == id,
        forall|k: int| 0 <= k < i ==> (#[trigger] s.entries[k]).id != id,
    ensures
        ({
            let t = server::with_event(s, id, frac, done);
            &&& t.entries.len() == s.entries.len()
            &&& forall|k: int|
                0 <= k < s.entries.len() && k != i ==> #[trigger] t.entries[k] == s.entries[k]
            &&& i < s.entries.len() ==> {
                let (e, f) = (s.entries[i], t.entries[i]);
                &&& f.id == id && f.path == e.path && f.name == e.name && f.info == e.info
                &&& f.progress == frac
                &&& match done {
                    None => f.status == e.status && f.out_path == e.out_path,
                    Some(item) => match item.result {
                        Ok((out, _, size)) => f.status is Done && f.out_path == Some(out@)
                            && f.out_size == Some(size),
                        Err(why) => f.status is Error && f.error == Some(why@),
                    },
                }
            }
        }),
{
    lemma_entry(s.entries, id, 0, i);
}

pub proof fn lemma_entry(entries: Seq<EntryV>, id: u64, from: int, i: int)
    requires
        0 <= from <= i <= entries.len(),
        i < entries.len() ==> entries[i].id == id,
        forall|k: int| from <= k < i ==> (#[trigger] entries[k]).id != id,
    ensures
        server::entry_from(entries, id, from) == i,
    decreases i - from,
{
    if from < i {
        assert(entries[from].id != id);
        lemma_entry(entries, id, from + 1, i);
    }
}

/// A folder is taken whole: every file that could be read is in the list
/// afterwards, once, by its path; what was in the list stays as it was, and what
/// could not be read is passed over.
pub proof fn law_folders_are_taken_whole(os: Os, s: StateV, found: Seq<Found>, n: nat)
    requires
        n <= found.len(),
    ensures
        ({
            let t = server::with_all_found(os, s, found, n);
            &&& s.entries.len() <= t.entries.len()
            &&& forall|k: int| 0 <= k < s.entries.len() ==> #[trigger] t.entries[k] == s.entries[k]
            &&& forall|j: int|
                0 <= j < n && (#[trigger] found[j]).info is Some ==> exists|k: int|
                    0 <= k < t.entries.len() && path::key(os, (#[trigger] t.entries[k]).path)
                        == path::key(os, found[j].path@)
            &&& forall|k: int|
                s.entries.len() <= k < t.entries.len() ==> is_found(
                    found,
                    n,
                    #[trigger] t.entries[k],
                )
            &&& t.settings == s.settings && t.out_dir == s.out_dir && t.converting == s.converting
        }),
    decreases n,
{
    if n > 0 {
        let m = (n - 1) as nat;
        law_folders_are_taken_whole(os, s, found, m);
        let (t, u) = (
            server::with_all_found(os, s, found, m),
            server::with_all_found(os, s, found, n),
        );
        assert forall|k: int| 0 <= k < t.entries.len() implies #[trigger] u.entries[k]
            == t.entries[k] by {}
        assert forall|j: int| 0 <= j < n && (#[trigger] found[j]).info is Some implies exists|k: int|
            0 <= k < u.entries.len() && path::key(os, (#[trigger] u.entries[k]).path) == path::key(
                os,
                found[j].path@,
            ) by {
            if j < m {
                let k = choose|k: int|
                    0 <= k < t.entries.len() && path::key(os, (#[trigger] t.entries[k]).path)
                        == path::key(os, found[j].path@);
                assert(u.entries[k] == t.entries[k]);
            } else if server::is_listed(os, t.entries, found[j].path@) {
                let k = choose|k: int|
                    0 <= k < t.entries.len() && path::key(os, (#[trigger] t.entries[k]).path)
                        == path::key(os, found[j].path@);
                assert(u.entries[k] == t.entries[k]);
            } else {
                assert(u.entries[u.entries.len() - 1].path == found[j].path@);
            }
        }
        assert forall|k: int| s.entries.len() <= k < u.entries.len() implies is_found(
            found,
            n,
            #[trigger] u.entries[k],
        ) by {
            if k < t.entries.len() {
                assert(is_found(found, m, t.entries[k]));
                let j = choose|j: int| 0 <= j < m && is_entry_of(#[trigger] found[j], t.entries[k]);
                assert(is_entry_of(found[j], u.entries[k]));
            } else {
                assert(is_entry_of(found[m as int], u.entries[k]));
            }
        }
    }
}

/// Whether an entry waits for the conversion of that file.
pub open spec fn is_entry_of(f: Found, e: EntryV) -> bool {
    &&& f.info == Some(e.info) && e.path == f.path@ && e.size == f.size
    &&& !e.uploaded && e.status is Ready && e.out_path is None && e.error is None
}

/// Whether an entry is that of one of the first `n` files.
pub open spec fn is_found(found: Seq<Found>, n: nat, e: EntryV) -> bool {
    exists|j: int| 0 <= j < n && is_entry_of(#[trigger] found[j], e)
}

/// Settings are changed as far as a request speaks of them: the number of jobs
/// stays between one and sixteen, and a folder for the results is one with a
/// name. Files are not touched.
pub proof fn law_settings_change_as_asked(
    s: StateV,
    body: JsonV,
    parsed: Option<Result<Settings, String>>,
)
    ensures
        ({
            let t = server::with_settings(s, body, parsed);
            &&& t.entries == s.entries && t.converting == s.converting && t.next_id == s.next_id
            &&& parsed matches Some(Ok(p)) ==> t.settings == p@
            &&& !(parsed matches Some(Ok(_))) ==> t.settings == s.settings
            &&& json::at(body, "jobs"@) matches JsonV::Uint(j) ==> (1 <= j <= 16 ==> t.jobs == j)
                && 1 <= t.jobs <= 16 && (j > 16 ==> t.jobs == 16)
            &&& json::at(body, "jobs"@) is Null ==> t.jobs == s.jobs
            &&& json::at(body, "out_dir"@) is Null ==> t.out_dir == s.out_dir
            &&& json::at(body, "out_dir"@) matches JsonV::Text(d) ==> t.out_dir == if text::trim(
                d,
            ).len() > 0 {
                text::trim(d)
            } else {
                s.out_dir
            }
        }),
{
}

/// A conversion in passes goes forward from none to all: a single pass is all of
/// it; of two, the first ends where the second begins, half way.
pub proof fn law_passes_follow_one_another(f: nat)
    ensures
        f <= double::one() && double::nearest(f, 1) == f ==> jobs::overall(
            0,
            1,
            Real::Finite(false, f),
        ) == Real::Finite(false, f),
        jobs::overall(0, 2, double::whole(0)) == Real::Finite(false, 0),
        jobs::overall(0, 2, double::whole(1)) == jobs::overall(1, 2, double::whole(0)),
        jobs::overall(1, 2, double::whole(1)) == double::whole(1),
{
    let o = double::one();
    plan::lemma_one_is_huge();
    double::lemma_whole_exact(0);
    double::lemma_whole_exact(1);
    double::lemma_whole_exact(2);
    assert(0 * o == 0 && 1 * o == o);
    double::lemma_nearest_none(0, o);
    double::lemma_nearest_none(0, 2 * o);
    double::lemma_nearest_none(0, 1);
    double::lemma_nearest_scaled(f, 1, o);
    assert(f * o == o * f && o * 1 == o) by (nonlinear_arith);
    vstd::arithmetic::power2::lemma_pow2_adds(1, 1073);
    vstd::arithmetic::power2::lemma2_to64();
    let half = vstd::arithmetic::power2::pow2(1073);
    vstd::arithmetic::power2::lemma_pow2_pos(1073);
    double::lemma_nearest_scaled(half, 1, 2 * o);
    assert(o * o == (2 * o) * half && (2 * o) * 1 == 2 * o) by (nonlinear_arith)
        requires
            o == 2 * half,
    ;
    double::lemma_nearest_exact(1, 1073);
    double::lemma_nearest_exact(1, 1074);
    assert(1 * half == half);
    assert(double::nearest(o * o, 2 * o) == half);
}

/// The directories of all uploads are removed with the list, and those of uploads
/// alone.
pub proof fn law_uploads_are_removed(os: Os, entries: Seq<EntryV>, n: nat, i: int)
    requires
        0 <= i < n <= entries.len(),
        entries[i].uploaded,
        path::above(os, entries[i].path) is Some,
    ensures
        server::upload_dirs(os, entries, n).contains(path::above(os, entries[i].path)->0),
    decreases n,
{
    let d = path::above(os, entries[i].path)->0;
    let all = server::upload_dirs(os, entries, n);
    if i == n - 1 {
        assert(all.last() == d);
    } else {
        law_uploads_are_removed(os, entries, (n - 1) as nat, i);
        let rest = server::upload_dirs(os, entries, (n - 1) as nat);
        let k = choose|k: int| 0 <= k < rest.len() && rest[k] == d;
        assert(all[k] == d);
    }
}

/// Progress is told by the quarter: what is reported of `f` units of the whole is
/// the number of whole quarters in them.
pub proof fn law_progress_is_told_by_the_quarter(f: nat)
    requires
        f <= double::one(),
        double::nearest(4 * f, 1) == 4 * f,
    ensures
        ({
            let q = cli::quarters(Real::Finite(false, f));
            q * double::one() <= 4 * f < (q + 1) * double::one()
        }),
{
    let o = double::one();
    plan::lemma_one_is_huge();
    double::lemma_whole_exact(4);
    double::lemma_nearest_scaled(4 * f, 1, o);
    assert(f * (4 * o) == o * (4 * f) && o * 1 == o) by (nonlinear_arith);
    let x = 4 * f;
    vstd::arithmetic::div_mod::lemma_fundamental_div_mod(x as int, o as int);
    let q = x / o;
    assert(q * o <= x < (q + 1) * o) by (nonlinear_arith)
        requires
            x == o * q + x % o,
            0 <= x % o < o,
    ;
    assert(q <= 4) by (nonlinear_arith)
        requires
            q * o <= x,
            x <= 4 * o,
            o > 0,
    ;
}

} // verus!
