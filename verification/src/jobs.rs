//! The conversion of one file and of many: which files are taken, what their
//! results are called, and what each step of an encode leads to.
use crate::decimal;
use crate::decimal::fixed_text;
use crate::double;
use crate::double::{Double, Real};
use crate::ffmpeg;
use crate::ffmpeg::{image_command, is_of, run_quiet, video_commands, Ran};
use crate::install::has_text;
use crate::path;
use crate::path::{extension, file_name, file_stem, join, lies_in, sorted_set, Os};
use crate::plan;
use crate::plan::{
    image_quality_ladder, jpeg_q_from_percent, EncodePlan, ImageFormat, MediaInfo, RateControl,
    Settings,
};
use crate::text;
use crate::text::{begins_with, decimal_text, joined, joined3, lower_text, put, same, wide_decimal_text};
use crate::tree;
use crate::tree::Node;
use vstd::prelude::*;

verus! {

/// Whether an extension, in small letters, is that of a video we accept.
pub open spec fn is_video_ext(e: Seq<char>) -> bool {
    e == "mp4"@ || e == "mov"@ || e == "m4v"@ || e == "mkv"@ || e == "webm"@ || e == "avi"@ || e
        == "gif"@ || e == "mts"@ || e == "wmv"@
}

/// Whether an extension, in small letters, is that of an image we accept.
pub open spec fn is_image_ext(e: Seq<char>) -> bool {
    e == "jpg"@ || e == "jpeg"@ || e == "png"@ || e == "webp"@ || e == "bmp"@ || e == "tif"@ || e
        == "tiff"@ || e == "heic"@
}

/// Whether the extension of a path is one that we accept as an input.
pub open spec fn is_media(os: Os, p: Seq<char>) -> bool {
    path::suffix(os, p) matches Some(e) && (is_video_ext(text::lower(e)) || is_image_ext(
        text::lower(e),
    ))
}

/// Whether the extension of a path is one that we accept as an input.
pub fn is_media_path(os: Os, p: &str) -> (r: bool)
    ensures
        r == is_media(os, p@),
{
    match extension(os, p) {
        Some(e) => {
            let e: String = lower_text(&e);
            same(&e, "mp4") || same(&e, "mov") || same(&e, "m4v") || same(&e, "mkv") || same(
                &e,
                "webm",
            ) || same(&e, "avi") || same(&e, "gif") || same(&e, "mts") || same(&e, "wmv") || same(
                &e,
                "jpg",
            ) || same(&e, "jpeg") || same(&e, "png") || same(&e, "webp") || same(&e, "bmp")
                || same(&e, "tif") || same(&e, "tiff") || same(&e, "heic")
        },
        None => false,
    }
}

/// Whether a path is passed over: its name begins with a point, or it has
/// none.
pub open spec fn is_hidden(os: Os, p: Seq<char>) -> bool {
    match path::name(os, p) {
        Some(n) => text::holds_at(n, "."@, 0),
        None => true,
    }
}

/// Whether a path is passed over.
fn hidden(os: Os, p: &str) -> (r: bool)
    ensures
        r == is_hidden(os, p@),
{
    match file_name(os, p) {
        Some(n) => begins_with(&n, "."),
        None => true,
    }
}

/// Whether something is the directory to leave out, or lies in it.
pub open spec fn is_excluded(os: Os, canonical: Seq<char>, exclude: Option<Seq<char>>) -> bool {
    exclude matches Some(e) && path::within(os, canonical, e)
}

/// Whether something is the directory to leave out, or lies in it.
pub fn excluded(os: Os, canonical: &str, exclude: Option<&str>) -> (r: bool)
    ensures
        r == is_excluded(os, canonical@, ffmpeg::maybe(exclude)),
{
    match exclude {
        Some(e) => lies_in(os, canonical, e),
        None => false,
    }
}

/// Whether a walk enters a directory that it meets. What is in one that it does
/// not enter is of no account.
pub open spec fn is_entered(
    os: Os,
    path: Seq<char>,
    canonical: Seq<char>,
    recursive: bool,
    exclude: Option<Seq<char>>,
) -> bool {
    recursive && !is_hidden(os, path) && !is_excluded(os, canonical, exclude)
}

/// Whether a walk enters a directory that it meets.
pub fn entered(os: Os, path: &str, canonical: &str, recursive: bool, exclude: Option<&str>) -> (r:
    bool)
    ensures
        r == is_entered(os, path@, canonical@, recursive, ffmpeg::maybe(exclude)),
{
    recursive && !hidden(os, path) && !excluded(os, canonical, exclude)
}

/// The files that something in a directory gives.
pub open spec fn taken(os: Os, n: Node, recursive: bool, exclude: Option<Seq<char>>) -> Seq<
    Seq<char>,
>
    decreases n, 0nat,
{
    match n {
        Node::File { path, canonical } => if !is_hidden(os, path@) && is_media(os, path@)
            && !is_excluded(os, canonical@, exclude) {
            seq![path@]
        } else {
            seq![]
        },
        Node::Dir { path, canonical, entries } => if is_entered(
            os,
            path@,
            canonical@,
            recursive,
            exclude,
        ) {
            taken_all(os, entries, true, exclude, entries@.len())
        } else {
            seq![]
        },
    }
}

/// The files that the first `k` entries of a directory give.
pub open spec fn taken_all(
    os: Os,
    entries: Vec<Node>,
    recursive: bool,
    exclude: Option<Seq<char>>,
    k: nat,
) -> Seq<Seq<char>>
    decreases entries, k,
{
    if k == 0 || k > entries@.len() {
        seq![]
    } else {
        taken_all(os, entries, recursive, exclude, (k - 1) as nat) + taken(
            os,
            entries@[k - 1],
            recursive,
            exclude,
        )
    }
}

/// Appends the files that the entries of a directory give.
fn walk_dir(
    os: Os,
    entries: &Vec<Node>,
    recursive: bool,
    exclude: Option<&str>,
    out: &mut Vec<String>,
)
    ensures
        text::texts(final(out)@) == text::texts(old(out)@) + taken_all(
            os,
            *entries,
            recursive,
            ffmpeg::maybe(exclude),
            entries@.len(),
        ),
    decreases entries,
{
    let ghost ex = ffmpeg::maybe(exclude);
    let ghost start = text::texts(out@);
    let mut i: usize = 0;
    assert(text::texts(out@) =~= start + taken_all(os, *entries, recursive, ex, 0));
    while i < entries.len()
        invariant
            0 <= i <= entries@.len(),
            ex == ffmpeg::maybe(exclude),
            text::texts(out@) == start + taken_all(os, *entries, recursive, ex, i as nat),
        decreases entries@.len() - i,
    {
        let n: &Node = &entries[i];
        let ghost before = text::texts(out@);
        match n {
            Node::File { path, canonical } => {
                if !hidden(os, path) && is_media_path(os, path) && !excluded(
                    os,
                    canonical,
                    exclude,
                ) {
                    put(out, path);
                }
            },
            Node::Dir { path, canonical, entries: inner } => {
                if entered(os, path, canonical, recursive, exclude) {
                    walk_dir(os, inner, true, exclude, out);
                }
            },
        }
        assert(text::texts(out@) =~= before + taken(os, *n, recursive, ex));
        i = i + 1;
        assert(text::texts(out@) =~= start + taken_all(os, *entries, recursive, ex, i as nat));
    }
}

/// The files that an input gives: a directory those in it, a file itself.
pub open spec fn given(os: Os, n: Node, recursive: bool, exclude: Option<Seq<char>>) -> Seq<
    Seq<char>,
> {
    match n {
        Node::Dir { canonical, entries, .. } => if !is_excluded(os, canonical@, exclude) {
            taken_all(os, entries, recursive, exclude, entries@.len())
        } else {
            seq![]
        },
        Node::File { path, canonical } => if is_media(os, path@) && !is_excluded(
            os,
            canonical@,
            exclude,
        ) {
            seq![path@]
        } else {
            seq![]
        },
    }
}

/// The files that the first `k` inputs give.
pub open spec fn gathered(
    os: Os,
    inputs: Seq<Node>,
    recursive: bool,
    exclude: Option<Seq<char>>,
    k: nat,
) -> Seq<Seq<char>>
    decreases k,
{
    if k == 0 {
        seq![]
    } else {
        gathered(os, inputs, recursive, exclude, (k - 1) as nat) + given(
            os,
            inputs[k - 1],
            recursive,
            exclude,
        )
    }
}

/// Whether a path is that of a file among the inputs which does not lie in the
/// directory `x`.
pub open spec fn lies_outside(os: Os, inputs: Seq<Node>, path: Seq<char>, x: Seq<char>) -> bool {
    exists|k: int, c: Seq<char>|
        0 <= k < inputs.len() && #[trigger] tree::holds_file(inputs[k], path, c) && !path::within(
            os,
            c,
            x,
        )
}

/// Collect media files from a mix of files and directories.
/// Directories are walked recursively when `recursive` is set, otherwise only
/// their direct children are taken. Hidden files are skipped, and so is
/// `exclude` (the canonical path of the output directory) with all that lies in
/// it, so re-running a conversion never re-ingests its own results.
pub fn collect_inputs(
    os: Os,
    inputs: &Vec<Node>,
    recursive: bool,
    exclude: Option<&str>,
) -> (r: Vec<String>)
    ensures
        path::is_sorted_set(
            os,
            gathered(os, inputs@, recursive, ffmpeg::maybe(exclude), inputs@.len()),
            text::texts(r@),
        ),
        exclude matches Some(x) ==> forall|i: int|
            0 <= i < r@.len() ==> lies_outside(os, inputs@, #[trigger] text::texts(r@)[i], x@),
{
    let ghost ex = ffmpeg::maybe(exclude);
    let mut out: Vec<String> = Vec::new();
    let mut i: usize = 0;
    assert(text::texts(out@) =~= gathered(os, inputs@, recursive, ex, 0));
    while i < inputs.len()
        invariant
            0 <= i <= inputs@.len(),
            ex == ffmpeg::maybe(exclude),
            text::texts(out@) == gathered(os, inputs@, recursive, ex, i as nat),
        decreases inputs@.len() - i,
    {
        let ghost before = text::texts(out@);
        match &inputs[i] {
            Node::Dir { canonical, entries, .. } => {
                if !excluded(os, canonical, exclude) {
                    walk_dir(os, entries, recursive, exclude, &mut out);
                }
            },
            Node::File { path, canonical } => {
                if is_media_path(os, path) && !excluded(os, canonical, exclude) {
                    put(&mut out, path);
                }
            },
        }
        assert(text::texts(out@) =~= before + given(os, inputs@[i as int], recursive, ex));
        i = i + 1;
        assert(text::texts(out@) =~= gathered(os, inputs@, recursive, ex, i as nat));
    }
    let r: Vec<String> = sorted_set(os, &out);
    proof {
        if let Some(x) = exclude {
            law_results_are_not_taken_in(os, inputs@, recursive, x@, text::texts(r@));
        }
    }
    r
}

/// Whether every path of a list is media.
pub open spec fn all_media(os: Os, v: Seq<Seq<char>>) -> bool {
    forall|i: int| 0 <= i < v.len() ==> is_media(os, #[trigger] v[i])
}

/// Whether no path of a list is hidden.
pub open spec fn none_hidden(os: Os, v: Seq<Seq<char>>) -> bool {
    forall|i: int| 0 <= i < v.len() ==> !is_hidden(os, #[trigger] v[i])
}

/// What a walk takes is media, and none of it is hidden.
pub proof fn law_walk_takes_visible_media(
    os: Os,
    entries: Vec<Node>,
    recursive: bool,
    exclude: Option<Seq<char>>,
    k: nat,
)
    ensures
        all_media(os, taken_all(os, entries, recursive, exclude, k)),
        none_hidden(os, taken_all(os, entries, recursive, exclude, k)),
    decreases entries, k,
{
    if k > 0 && k <= entries@.len() {
        law_walk_takes_visible_media(os, entries, recursive, exclude, (k - 1) as nat);
        lemma_node_gives_visible_media(os, entries@[k - 1], recursive, exclude);
    }
}

proof fn lemma_node_gives_visible_media(
    os: Os,
    n: Node,
    recursive: bool,
    exclude: Option<Seq<char>>,
)
    ensures
        all_media(os, taken(os, n, recursive, exclude)),
        none_hidden(os, taken(os, n, recursive, exclude)),
    decreases n, 0nat,
{
    if let Node::Dir { entries, .. } = n {
        law_walk_takes_visible_media(os, entries, true, exclude, entries@.len());
    }
}

/// What is collected is media, and comes from the inputs.
pub proof fn law_collected_is_media(
    os: Os,
    inputs: Seq<Node>,
    recursive: bool,
    exclude: Option<Seq<char>>,
    k: nat,
)
    requires
        k <= inputs.len(),
    ensures
        all_media(os, gathered(os, inputs, recursive, exclude, k)),
    decreases k,
{
    if k > 0 {
        law_collected_is_media(os, inputs, recursive, exclude, (k - 1) as nat);
        if let Node::Dir { entries, .. } = inputs[k - 1] {
            law_walk_takes_visible_media(os, entries, recursive, exclude, entries@.len());
        }
    }
}

/// The directory to leave out gives nothing, whatever it holds, and neither does
/// anything in it: not as an input, and not on a walk. Without recursion no
/// directory inside another gives anything.
pub proof fn law_output_dir_is_not_taken(
    os: Os,
    n: Node,
    canonical: Seq<char>,
    recursive: bool,
    exclude: Seq<char>,
)
    requires
        match n {
            Node::Dir { canonical: c, .. } => c@ == canonical,
            Node::File { canonical: c, .. } => c@ == canonical,
        },
    ensures
        path::within(os, canonical, exclude) ==> given(os, n, recursive, Some(exclude)) == Seq::<
            Seq<char>,
        >::empty(),
        path::within(os, canonical, exclude) || (n is Dir && !recursive) ==> taken(
            os,
            n,
            recursive,
            Some(exclude),
        ) == Seq::<Seq<char>>::empty(),
{
}

/// Results are never taken in again: all that is collected are files that do
/// not lie in the directory to leave out.
pub proof fn law_results_are_not_taken_in(
    os: Os,
    inputs: Seq<Node>,
    recursive: bool,
    exclude: Seq<char>,
    r: Seq<Seq<char>>,
)
    requires
        path::is_sorted_set(
            os,
            gathered(os, inputs, recursive, Some(exclude), inputs.len()),
            r,
        ),
    ensures
        forall|i: int| 0 <= i < r.len() ==> lies_outside(os, inputs, #[trigger] r[i], exclude),
{
    let all = gathered(os, inputs, recursive, Some(exclude), inputs.len());
    assert forall|i: int| 0 <= i < r.len() implies lies_outside(
        os,
        inputs,
        #[trigger] r[i],
        exclude,
    ) by {
        assert(path::is_first_of(os, all, r[i]));
        let k = choose|k: int|
            0 <= k < all.len() && #[trigger] all[k] == r[i] && !path::has_key(
                os,
                all.take(k),
                path::key(os, r[i]),
            );
        lemma_gathered_outside(os, inputs, recursive, exclude, inputs.len(), k);
    }
}

proof fn lemma_gathered_outside(
    os: Os,
    inputs: Seq<Node>,
    recursive: bool,
    exclude: Seq<char>,
    k: nat,
    j: int,
)
    requires
        k <= inputs.len(),
        0 <= j < gathered(os, inputs, recursive, Some(exclude), k).len(),
    ensures
        lies_outside(
            os,
            inputs,
            gathered(os, inputs, recursive, Some(exclude), k)[j],
            exclude,
        ),
    decreases k,
{
    if k > 0 {
        let before = gathered(os, inputs, recursive, Some(exclude), (k - 1) as nat);
        let n = inputs[k - 1];
        let own = given(os, n, recursive, Some(exclude));
        if j < before.len() {
            lemma_gathered_outside(os, inputs, recursive, exclude, (k - 1) as nat, j);
        } else {
            let p = own[j - before.len()];
            let c = match n {
                Node::File { path, canonical } => {
                    assert(own == seq![path@]);
                    assert(tree::holds_file(n, path@, canonical@));
                    canonical@
                },
                Node::Dir { entries, .. } => {
                    let (i, c) = lemma_walk_outside(
                        os,
                        entries,
                        recursive,
                        exclude,
                        entries@.len(),
                        j - before.len(),
                    );
                    tree::lemma_holds_file(n, i, p, c);
                    c
                },
            };
            assert(tree::holds_file(inputs[k - 1], p, c));
        }
    }
}

/// Finds the file that a walk took.
proof fn lemma_walk_outside(
    os: Os,
    entries: Vec<Node>,
    recursive: bool,
    exclude: Seq<char>,
    k: nat,
    j: int,
) -> (r: (int, Seq<char>))
    requires
        0 <= j < taken_all(os, entries, recursive, Some(exclude), k).len(),
    ensures
        0 <= r.0 < entries@.len(),
        tree::holds_file(
            entries@[r.0],
            taken_all(os, entries, recursive, Some(exclude), k)[j],
            r.1,
        ),
        !path::within(os, r.1, exclude),
    decreases entries, k,
{
    let before = taken_all(os, entries, recursive, Some(exclude), (k - 1) as nat);
    if j < before.len() {
        lemma_walk_outside(os, entries, recursive, exclude, (k - 1) as nat, j)
    } else {
        let c = lemma_node_outside(os, entries@[k - 1], recursive, exclude, j - before.len());
        (k - 1, c)
    }
}

proof fn lemma_node_outside(os: Os, n: Node, recursive: bool, exclude: Seq<char>, j: int) -> (r: Seq<
    char,
>)
    requires
        0 <= j < taken(os, n, recursive, Some(exclude)).len(),
    ensures
        tree::holds_file(n, taken(os, n, recursive, Some(exclude))[j], r),
        !path::within(os, r, exclude),
    decreases n, 0nat,
{
    match n {
        Node::File { path, canonical } => {
            assert(taken(os, n, recursive, Some(exclude)) == seq![path@]);
            assert(tree::holds_file(n, path@, canonical@));
            canonical@
        },
        Node::Dir { entries, .. } => {
            let (i, c) = lemma_walk_outside(os, entries, true, exclude, entries@.len(), j);
            tree::lemma_holds_file(n, i, taken(os, n, recursive, Some(exclude))[j], c);
            c
        },
    }
}

/// The output extension for a source.
pub open spec fn ext_for(os: Os, input: Seq<char>, is_video: bool, format: ImageFormat) -> Seq<
    char,
> {
    let src = match path::suffix(os, input) {
        Some(e) => text::lower(e),
        None => ""@,
    };
    if is_video {
        "mp4"@
    } else if format is Webp || (format is Keep && src == "webp"@) {
        "webp"@
    } else if format is Png || (format is Keep && src == "png"@) {
        "png"@
    } else {
        "jpg"@
    }
}

/// Decide the output extension for a source file under the given settings.
/// Exotic sources (heic, tiff, bmp) become web-friendly jpg.
pub fn output_ext(os: Os, input: &str, info: &MediaInfo, s: &Settings) -> (r: String)
    ensures
        r@ == ext_for(os, input@, info.is_video, s.image_format),
        forall|dir: Seq<char>| #[trigger] ends_names(os, dir, r@),
{
    proof {
        reveal_strlit("mp4");
        reveal_strlit("jpg");
        reveal_strlit("png");
        reveal_strlit("webp");
    }
    if info.is_video {
        return "mp4".to_owned();
    }
    let src: String = match extension(os, input) {
        Some(e) => lower_text(&e),
        None => "".to_owned(),
    };
    match s.image_format {
        ImageFormat::Jpg => "jpg".to_owned(),
        ImageFormat::Webp => "webp".to_owned(),
        ImageFormat::Png => "png".to_owned(),
        ImageFormat::Keep => if same(&src, "webp") {
            "webp".to_owned()
        } else if same(&src, "png") {
            "png".to_owned()
        } else {
            "jpg".to_owned()
        },
    }
}

/// The stem of the file that is read.
pub open spec fn stem_for(os: Os, input: Seq<char>) -> Seq<char> {
    match path::stem(os, input) {
        Some(s) => s,
        None => "media"@,
    }
}

/// The `n`th name for the output of a file: `<out_dir>/<stem>-web.<ext>`, and
/// from the second on `<out_dir>/<stem>-web-<n>.<ext>`.
pub open spec fn nth_output(
    os: Os,
    out_dir: Seq<char>,
    stem: Seq<char>,
    ext: Seq<char>,
    n: nat,
) -> Seq<char> {
    path::inside(
        os,
        out_dir,
        if n <= 1 {
            stem + "-web."@ + ext
        } else {
            stem + "-web-"@ + text::decimal(n) + "."@ + ext
        },
    )
}

/// Whether `n` is the first number from one on whose name is not taken.
pub open spec fn is_first_free(
    os: Os,
    out_dir: Seq<char>,
    stem: Seq<char>,
    ext: Seq<char>,
    taken: Seq<Seq<char>>,
    n: nat,
) -> bool {
    &&& n >= 1
    &&& !taken.contains(nth_output(os, out_dir, stem, ext, n))
    &&& forall|k: nat|
        1 <= k < n ==> taken.contains(#[trigger] nth_output(os, out_dir, stem, ext, k))
}

/// Whether an extension ends the names in a directory. Behind a prefix that is
/// taken word for word, one with a separator in it can lead out of the name
/// again, and then no number tells one name from another.
pub open spec fn ends_names(os: Os, out_dir: Seq<char>, ext: Seq<char>) -> bool {
    path::is_verbatim(path::prefix(os, out_dir).shape) ==> forall|i: int|
        0 <= i < ext.len() ==> !path::is_separator(os, #[trigger] ext[i])
}

/// Two names that begin alike stay two names inside a directory.
proof fn lemma_inside_told_apart(
    os: Os,
    dir: Seq<char>,
    p: Seq<char>,
    t: Seq<char>,
    u: Seq<char>,
)
    requires
        (path::drive_len(os, p + t) > 0) == (path::drive_len(os, p + u) > 0),
        path::drive_len(os, p + t) == 0 ==> path::has_root(os, p + t) == path::has_root(os, p + u),
        p.len() >= path::last_at(p) + 3,
        path::is_verbatim(path::prefix(os, dir).shape) ==> forall|i: int|
            0 <= i < t.len() ==> !path::splits(path::Style::Windows, #[trigger] t[i]),
        path::is_verbatim(path::prefix(os, dir).shape) ==> forall|i: int|
            0 <= i < u.len() ==> !path::splits(path::Style::Windows, #[trigger] u[i]),
        path::inside(os, dir, p + t) == path::inside(os, dir, p + u),
    ensures
        t == u,
{
    let (a, b) = (p + t, p + u);
    let start = if path::drive_len(os, a) > 0 {
        p
    } else if path::is_verbatim(path::prefix(os, dir).shape) {
        let c = path::last_at(p);
        path::lemma_ends_anew(os, dir, p, t);
        path::lemma_ends_anew(os, dir, p, u);
        path::start_of(os, dir, p.take(c)) + p.skip(c)
    } else if path::has_root(os, a) {
        dir.take(path::drive_len(os, dir) as int) + p
    } else {
        path::inside(os, dir, seq![]) + p
    };
    path::lemma_last_at(p);
    assert(path::drive_len(os, Seq::<char>::empty()) == 0);
    assert(path::inside(os, dir, a) =~= start + t);
    assert(path::inside(os, dir, b) =~= start + u);
    assert((start + t).skip(start.len() as int) =~= t);
    assert((start + u).skip(start.len() as int) =~= u);
}

/// The names for an output are all different, where the extension ends them.
pub proof fn law_output_names_differ(
    os: Os,
    out_dir: Seq<char>,
    stem: Seq<char>,
    ext: Seq<char>,
    n: nat,
    m: nat,
)
    requires
        1 <= n < m,
        ends_names(os, out_dir, ext),
    ensures
        nth_output(os, out_dir, stem, ext, n) != nth_output(os, out_dir, stem, ext, m),
{
    let (x, y) = (number_part(n), number_part(m));
    let (p, e) = (stem + "-web"@, "."@ + ext);
    let (a, b) = (p + x + e, p + y + e);
    lemma_nth_name(os, out_dir, stem, ext, n);
    lemma_nth_name(os, out_dir, stem, ext, m);
    if nth_output(os, out_dir, stem, ext, n) == nth_output(os, out_dir, stem, ext, m) {
        let (t, u) = (x + e, y + e);
        assert(a =~= p + t && b =~= p + u);
        lemma_web_is_a_name(stem);
        assert forall|i: int| 0 <= i < e.len() && path::is_verbatim(
            path::prefix(os, out_dir).shape,
        ) implies !path::splits(path::Style::Windows, #[trigger] e[i]) by {
            reveal_strlit(".");
            path::lemma_prefix(os, out_dir);
            if i > 0 {
                assert(e[i] == ext[i - 1]);
                assert(!path::is_separator(os, ext[i - 1]));
            }
        }
        lemma_inside_told_apart(os, out_dir, p, t, u);
        assert(x.len() == y.len());
        assert(t.take(x.len() as int) =~= x);
        assert(u.take(y.len() as int) =~= y);
        reveal_strlit("-");
        assert(x.skip(1) =~= text::decimal(n));
        assert(y.skip(1) =~= text::decimal(m));
        text::law_decimal_reads_back(n);
        text::law_decimal_reads_back(m);
    }
}

/// What tells the `n`th name for an output from the first.
spec fn number_part(n: nat) -> Seq<char> {
    if n <= 1 {
        seq![]
    } else {
        "-"@ + text::decimal(n)
    }
}

/// The `n`th name for an output, which leads as far as the first does.
proof fn lemma_nth_name(os: Os, out_dir: Seq<char>, stem: Seq<char>, ext: Seq<char>, n: nat)
    ensures
        ({
            let (p, e) = (stem + "-web"@, "."@ + ext);
            let a = p + number_part(n) + e;
            &&& nth_output(os, out_dir, stem, ext, n) == path::inside(os, out_dir, a)
            &&& forall|i: int|
                0 <= i < number_part(n).len() ==> !path::splits(
                    path::Style::Windows,
                    #[trigger] number_part(n)[i],
                )
            &&& (path::drive_len(os, a) > 0) == (path::drive_len(os, p + e) > 0)
            &&& path::drive_len(os, p + e) == 0 ==> path::has_root(os, a) == path::has_root(
                os,
                p + e,
            )
        }),
{
    reveal_strlit("-web.");
    reveal_strlit("-web-");
    reveal_strlit("-web");
    reveal_strlit(".");
    reveal_strlit("-");
    let (p, x, e) = (stem + "-web"@, number_part(n), "."@ + ext);
    let a = p + x + e;
    text::law_decimal_reads_back(n);
    assert forall|i: int| 0 <= i < x.len() implies !path::splits(
        path::Style::Windows,
        #[trigger] x[i],
    ) by {
        if i > 0 {
            assert(x[i] == text::decimal(n)[i - 1]);
        }
    }
    assert(p.last() == 'b');
    path::lemma_prefix_stays(os, p, x, e);
    if n <= 1 {
        assert(a =~= stem + "-web."@ + ext);
    } else {
        assert(a =~= stem + "-web-"@ + text::decimal(n) + "."@ + ext);
    }
}

/// The last name of an output is no shorter than its mark.
proof fn lemma_web_is_a_name(stem: Seq<char>)
    ensures
        (stem + "-web"@).len() >= path::last_at(stem + "-web"@) + 3,
{
    reveal_strlit("-web");
    let p = stem + "-web"@;
    path::lemma_last_at(p);
    let c = path::last_at(p);
    if p.len() < c + 3 {
        assert(p[c - 1] == "-web"@[c - 1 - stem.len()]);
    }
}

/// As many names as are taken, and not one more, can all be taken.
proof fn lemma_some_name_is_free(
    os: Os,
    out_dir: Seq<char>,
    stem: Seq<char>,
    ext: Seq<char>,
    taken: Seq<Seq<char>>,
    n: nat,
)
    requires
        ends_names(os, out_dir, ext),
        forall|k: nat|
            1 <= k <= n ==> taken.contains(#[trigger] nth_output(os, out_dir, stem, ext, k)),
    ensures
        n <= taken.len(),
{
    let names = Seq::new(n, |i: int| nth_output(os, out_dir, stem, ext, (i + 1) as nat));
    assert forall|i: int, j: int| 0 <= i < names.len() && 0 <= j < names.len() && i
        != j implies names[i] != names[j] by {
        if i < j {
            law_output_names_differ(os, out_dir, stem, ext, (i + 1) as nat, (j + 1) as nat);
        } else {
            law_output_names_differ(os, out_dir, stem, ext, (j + 1) as nat, (i + 1) as nat);
        }
    }
    names.unique_seq_to_set();
    taken.lemma_cardinality_of_set();
    assert forall|x: Seq<char>| names.to_set().contains(x) implies taken.to_set().contains(x) by {
        let i = choose|i: int| 0 <= i < names.len() && names[i] == x;
        assert(taken.contains(nth_output(os, out_dir, stem, ext, (i + 1) as nat)));
    }
    vstd::seq_lib::seq_to_set_is_finite(taken);
    vstd::set_lib::lemma_len_subset(names.to_set(), taken.to_set());
}

/// The `n`th name for the output of a file.
fn output_name(os: Os, out_dir: &str, stem: &str, ext: &str, n: u128) -> (r: String)
    ensures
        r@ == nth_output(os, out_dir@, stem@, ext@, n as nat),
{
    let name: String = if n <= 1 {
        joined3(stem, "-web.", ext)
    } else {
        joined3(stem, "-web-", &wide_decimal_text(n)).concat(".").concat(ext)
    };
    join(os, out_dir, &name)
}

/// Build a non-clobbering output path: `<out_dir>/<stem>-web.<ext>`,
/// adding `-2`, `-3`, ... if that name is taken.
pub fn output_path(
    os: Os,
    out_dir: &str,
    input: &str,
    ext: &str,
    taken: &Vec<String>,
) -> (r: String)
    requires
        ends_names(os, out_dir@, ext@),
    ensures
        exists|n: nat|
            is_first_free(
                os,
                out_dir@,
                stem_for(os, input@),
                ext@,
                text::texts(taken@),
                n,
            ) && r@ == #[trigger] nth_output(os, out_dir@, stem_for(os, input@), ext@, n),
        !text::texts(taken@).contains(r@),
{
    let stem: String = match file_stem(os, input) {
        Some(s) => s,
        None => "media".to_owned(),
    };
    let ghost names = text::texts(taken@);
    let count: usize = taken.len();
    let mut n: u128 = 1;
    loop
        invariant
            stem@ == stem_for(os, input@),
            names == text::texts(taken@),
            names.len() == count,
            1 <= n <= count + 1,
            ends_names(os, out_dir@, ext@),
            forall|k: nat|
                1 <= k < n ==> names.contains(#[trigger] nth_output(os, out_dir@, stem@, ext@, k)),
        decreases count + 1 - n,
    {
        let candidate: String = output_name(os, out_dir, &stem, ext, n);
        if !has_text(taken, &candidate) {
            assert(is_first_free(os, out_dir@, stem@, ext@, names, n as nat));
            return candidate;
        }
        proof {
            lemma_some_name_is_free(os, out_dir@, stem@, ext@, names, n as nat);
        }
        n = n + 1;
    }
}

/// Names that are not to be used again: those of files that are there, and
/// those that other jobs will write.
#[derive(Debug)]
pub struct Names {
    pub taken: Vec<String>,
}

impl Names {
    /// Picks the output path for a file and keeps it from being picked again.
    pub fn reserve(&mut self, os: Os, out_dir: &str, input: &str, ext: &str) -> (r: String)
        requires
            ends_names(os, out_dir@, ext@),
        ensures
            exists|n: nat|
                is_first_free(
                    os,
                    out_dir@,
                    stem_for(os, input@),
                    ext@,
                    text::texts(old(self).taken@),
                    n,
                ) && r@ == #[trigger] nth_output(os, out_dir@, stem_for(os, input@), ext@, n),
            !text::texts(old(self).taken@).contains(r@),
            text::texts(final(self).taken@) == text::texts(old(self).taken@).push(r@),
    {
        let r: String = output_path(os, out_dir, input, ext, &self.taken);
        put(&mut self.taken, &r);
        r
    }
}

/// Whether `out` is what the first files of a batch are called: each by the
/// first name that is neither taken nor given to one before.
pub open spec fn are_planned(
    os: Os,
    out_dir: Seq<char>,
    inputs: Seq<Seq<char>>,
    exts: Seq<Seq<char>>,
    taken: Seq<Seq<char>>,
    out: Seq<Seq<char>>,
) -> bool {
    forall|i: int|
        0 <= i < out.len() ==> is_planned(
            os,
            out_dir,
            stem_for(os, inputs[i]),
            exts[i],
            taken + out.take(i),
            #[trigger] out[i],
        )
}

/// Whether a path is the first free one for a file.
pub open spec fn is_planned(
    os: Os,
    out_dir: Seq<char>,
    stem: Seq<char>,
    ext: Seq<char>,
    taken: Seq<Seq<char>>,
    out: Seq<char>,
) -> bool {
    exists|n: nat|
        is_first_free(os, out_dir, stem, ext, taken, n) && out == #[trigger] nth_output(
            os,
            out_dir,
            stem,
            ext,
            n,
        )
}

/// The output paths of a whole batch, none of which clobbers a file that is
/// there or another of the batch.
pub fn plan_output_names(
    os: Os,
    out_dir: &str,
    inputs: &Vec<String>,
    exts: &Vec<String>,
    taken: Vec<String>,
) -> (r: Vec<String>)
    requires
        exts@.len() == inputs@.len(),
        forall|i: int| 0 <= i < exts@.len() ==> ends_names(os, out_dir@, #[trigger] exts@[i]@),
    ensures
        r@.len() == inputs@.len(),
        are_planned(
            os,
            out_dir@,
            text::texts(inputs@),
            text::texts(exts@),
            text::texts(taken@),
            text::texts(r@),
        ),
{
    let ghost before = text::texts(taken@);
    let mut names: Names = Names { taken };
    let mut r: Vec<String> = Vec::new();
    let mut i: usize = 0;
    assert(before + text::texts(r@) =~= before);
    while i < inputs.len()
        invariant
            0 <= i <= inputs@.len(),
            exts@.len() == inputs@.len(),
            forall|i: int| 0 <= i < exts@.len() ==> ends_names(os, out_dir@, #[trigger] exts@[i]@),
            r@.len() == i,
            text::texts(names.taken@) == before + text::texts(r@),
            are_planned(
                os,
                out_dir@,
                text::texts(inputs@),
                text::texts(exts@),
                before,
                text::texts(r@),
            ),
        decreases inputs@.len() - i,
    {
        let ghost known = text::texts(r@);
        assert(text::texts(inputs@)[i as int] == inputs@[i as int]@);
        assert(text::texts(exts@)[i as int] == exts@[i as int]@);
        let name: String = names.reserve(os, out_dir, &inputs[i], &exts[i]);
        put(&mut r, &name);
        let ghost out = text::texts(r@);
        proof {
            assert(out.take(i as int) =~= known);
            assert(known.push(name@) == out);
            assert((before + known).push(name@) =~= before + out);
            assert forall|j: int| 0 <= j < out.len() implies is_planned(
                os,
                out_dir@,
                stem_for(os, text::texts(inputs@)[j]),
                text::texts(exts@)[j],
                before + out.take(j),
                #[trigger] out[j],
            ) by {
                if j < i {
                    assert(out[j] == known[j]);
                    assert(out.take(j) =~= known.take(j));
                }
            }
            assert(text::texts(r@).len() == r@.len());
        }
        i = i + 1;
    }
    r
}

/// No name of a batch clobbers a file that is there, nor another of the batch.
pub proof fn law_batch_never_clobbers(
    os: Os,
    out_dir: Seq<char>,
    inputs: Seq<Seq<char>>,
    exts: Seq<Seq<char>>,
    taken: Seq<Seq<char>>,
    out: Seq<Seq<char>>,
    i: int,
    j: int,
)
    requires
        are_planned(os, out_dir, inputs, exts, taken, out),
        0 <= i < j < out.len(),
    ensures
        out[i] != out[j],
        !taken.contains(out[i]),
        !taken.contains(out[j]),
{
    lemma_planned_is_new(os, out_dir, inputs, exts, taken, out, i);
    lemma_planned_is_new(os, out_dir, inputs, exts, taken, out, j);
    assert(out.take(j)[i] == out[i]);
    assert((taken + out.take(j))[taken.len() + i] == out[i]);
}

proof fn lemma_planned_is_new(
    os: Os,
    out_dir: Seq<char>,
    inputs: Seq<Seq<char>>,
    exts: Seq<Seq<char>>,
    taken: Seq<Seq<char>>,
    out: Seq<Seq<char>>,
    i: int,
)
    requires
        are_planned(os, out_dir, inputs, exts, taken, out),
        0 <= i < out.len(),
    ensures
        !(taken + out.take(i)).contains(out[i]),
        !taken.contains(out[i]),
{
    assert(is_planned(
        os,
        out_dir,
        stem_for(os, inputs[i]),
        exts[i],
        taken + out.take(i),
        out[i],
    ));
    if taken.contains(out[i]) {
        let k = choose|k: int| 0 <= k < taken.len() && taken[k] == out[i];
        assert((taken + out.take(i))[k] == out[i]);
    }
}

/// What a file is called does not change it: a converted file never replaces
/// its source, as long as the source is there.
pub proof fn law_source_is_never_replaced(
    os: Os,
    out_dir: Seq<char>,
    input: Seq<char>,
    ext: Seq<char>,
    taken: Seq<Seq<char>>,
    out: Seq<char>,
)
    requires
        is_planned(os, out_dir, stem_for(os, input), ext, taken, out),
        taken.contains(input),
    ensures
        out != input,
{
}

/// The name of the x264 statistics of one job.
pub open spec fn passlog_name(pid: u32, n: u64) -> Seq<char> {
    "x264-pass-"@ + text::decimal(pid as nat) + "-"@ + text::decimal(n as nat)
}

/// Unique passlog prefix so parallel two-pass jobs never collide: `n` counts
/// the jobs of this process.
pub fn passlog_prefix(os: Os, scratch: &str, pid: u32, n: u64) -> (r: String)
    ensures
        r@ == path::inside(os, scratch@, passlog_name(pid, n)),
{
    let name: String = joined3("x264-pass-", &decimal_text(pid as u64), "-").concat(
        &decimal_text(n),
    );
    join(os, scratch, &name)
}

/// Whether a file is one that x264 writes for the prefix of that name:
/// "<prefix>-0.log" and "<prefix>-0.log.mbtree".
pub open spec fn is_passlog(prefix: Seq<char>, file: Seq<char>) -> bool {
    text::holds_at(file, prefix + "-"@, 0)
}

/// Whether a file in the scratch directory is to go with the passlog of that
/// name.
pub fn belongs_to_passlog(os: Os, prefix: &str, file: &str) -> (r: bool)
    ensures
        r == (path::name(os, prefix@) matches Some(n) && is_passlog(n, file@)),
{
    match file_name(os, prefix) {
        Some(n) => begins_with(file, &joined(&n, "-")),
        None => false,
    }
}

/// The files of two jobs are never mixed up: none belongs to both.
pub proof fn law_passlogs_never_collide(pid: u32, n: u64, m: u64, file: Seq<char>)
    requires
        is_passlog(passlog_name(pid, n), file),
        is_passlog(passlog_name(pid, m), file),
    ensures
        n == m,
{
    reveal_strlit("-");
    let start = "x264-pass-"@ + text::decimal(pid as nat) + "-"@;
    let (x, y) = (text::decimal(n as nat), text::decimal(m as nat));
    let (a, b) = (passlog_name(pid, n) + "-"@, passlog_name(pid, m) + "-"@);
    text::law_decimal_reads_back(n as nat);
    text::law_decimal_reads_back(m as nat);
    assert(a =~= start + x + "-"@ && b =~= start + y + "-"@);
    assert(file.subrange(0, a.len() as int) == a && file.subrange(0, b.len() as int) == b);
    let at = start.len() as int;
    assert(x.len() == y.len()) by {
        if x.len() < y.len() {
            assert(file[at + x.len()] == a[at + x.len()]);
            assert(file[at + x.len()] == b[at + x.len()]);
            assert(b[at + x.len()] == y[x.len() as int]);
        } else if y.len() < x.len() {
            assert(file[at + y.len()] == b[at + y.len()]);
            assert(file[at + y.len()] == a[at + y.len()]);
            assert(a[at + y.len()] == x[y.len() as int]);
        }
    }
    assert forall|i: int| 0 <= i < x.len() implies x[i] == y[i] by {
        assert(file[at + i] == a[at + i]);
        assert(file[at + i] == b[at + i]);
    }
    assert(x =~= y);
}

#[derive(Debug)]
pub struct ConvertOutcome {
    pub output: String,
    pub out_bytes: u64,
}

/// What a conversion that ran through came to: a file that is not empty.
pub fn convert_file(output: &str, out_bytes: u64) -> (r: Result<ConvertOutcome, String>)
    ensures
        r is Ok == (out_bytes > 0),
        r is Ok ==> r->Ok_0.output@ == output@ && r->Ok_0.out_bytes == out_bytes,
        r is Err ==> r->Err_0@ == "output file is empty"@,
{
    if out_bytes == 0 {
        Err("output file is empty".to_owned())
    } else {
        Ok(ConvertOutcome { output: output.to_owned(), out_bytes })
    }
}

/// The passes of a video conversion.
pub fn convert_video(
    os: Os,
    input: &str,
    output: &str,
    plan: &EncodePlan,
    settings: &Settings,
    passlog: &str,
) -> (r: Vec<Vec<String>>)
    ensures
        r@.map_values(|a: Vec<String>| text::texts(a@)) == ffmpeg::passes(
            os,
            input@,
            output@,
            *plan,
            settings.x264_preset@,
            passlog@,
            None,
        ),
{
    video_commands(os, input, output, plan, &settings.x264_preset, passlog, None)
}

/// How far a conversion is, where `f` is how far pass `i` of `n` is.
pub open spec fn overall(i: nat, n: nat, f: Real) -> Real {
    double::sum(
        double::quotient(double::whole(i), double::whole(n)),
        double::quotient(f, double::whole(n)),
    )
}

/// How far a conversion is, where `f` is how far pass `i` of `n` is.
pub fn overall_progress(i: usize, n: usize, f: Double) -> (r: Double)
    ensures
        r@ == overall(i as nat, n as nat, f@),
{
    let count: Double = Double::from_u64(n as u64);
    Double::from_u64(i as u64).div(count).add(f.div(count))
}

/// How an image is encoded.
#[derive(Debug, Clone, Copy, PartialEq, Eq, Structural)]
pub enum ImageMode {
    /// PNG is lossless: there is no quality ladder to walk. Encode once and
    /// be honest if the result cannot meet the budget.
    Lossless(Double),
    /// Auto-tune: walk the quality ladder until the file fits the budget.
    Ladder(Double, ImageFormat),
    /// Encode once at this quality.
    Once(u32),
}

/// How an image is encoded to an output under the given settings.
pub open spec fn mode_for(os: Os, output: Seq<char>, s: Settings) -> ImageMode {
    let webp = ffmpeg::has_extension(os, output, "webp"@);
    match s.max_mb {
        Some(mb) => if ffmpeg::has_extension(os, output, "png"@) {
            ImageMode::Lossless(mb)
        } else if webp {
            ImageMode::Ladder(mb, ImageFormat::Webp)
        } else {
            ImageMode::Ladder(mb, ImageFormat::Jpg)
        },
        None => if webp {
            ImageMode::Once(plan::slider(s.image_quality) as u32)
        } else {
            ImageMode::Once(plan::jpeg_q(s.image_quality) as u32)
        },
    }
}

/// How an image is encoded to an output under the given settings.
pub fn image_mode(os: Os, output: &str, settings: &Settings) -> (r: ImageMode)
    ensures
        r == mode_for(os, output@, *settings),
{
    let is_webp: bool = is_of(os, output, "webp");
    match settings.max_mb {
        Some(mb) => if is_of(os, output, "png") {
            ImageMode::Lossless(mb)
        } else if is_webp {
            ImageMode::Ladder(mb, ImageFormat::Webp)
        } else {
            ImageMode::Ladder(mb, ImageFormat::Jpg)
        },
        None => if is_webp {
            let q: u8 = settings.image_quality;
            ImageMode::Once(
                if q < 1 {
                    1
                } else if q > 100 {
                    100
                } else {
                    q as u32
                },
            )
        } else {
            ImageMode::Once(jpeg_q_from_percent(settings.image_quality))
        },
    }
}

/// The qualities that are tried, one after the other.
pub open spec fn attempts(mode: ImageMode) -> Seq<u32> {
    match mode {
        ImageMode::Lossless(_) => seq![0u32],
        ImageMode::Ladder(_, format) => plan::ladder(format),
        ImageMode::Once(q) => seq![q],
    }
}

/// The qualities that are tried, one after the other.
fn qualities(mode: ImageMode) -> (r: Vec<u32>)
    ensures
        r@ == attempts(mode),
        r@.len() > 0,
{
    match mode {
        ImageMode::Lossless(_) => vec![0],
        ImageMode::Ladder(_, format) => image_quality_ladder(format),
        ImageMode::Once(q) => vec![q],
    }
}

/// The arguments of attempt `k`, where there is one.
pub fn image_attempt(
    os: Os,
    input: &str,
    output: &str,
    plan: &EncodePlan,
    mode: ImageMode,
    k: usize,
) -> (r: Option<Vec<String>>)
    ensures
        r is Some == (k < attempts(mode).len()),
        r is Some ==> text::texts(r->0@) == ffmpeg::image(
            os,
            input@,
            output@,
            *plan,
            attempts(mode)[k as int],
            !(mode is Lossless) && ffmpeg::has_extension(os, output@, "webp"@),
        ),
{
    let q: Vec<u32> = qualities(mode);
    if k >= q.len() {
        return None;
    }
    let is_webp: bool = match mode {
        ImageMode::Lossless(_) => false,
        _ => is_of(os, output, "webp"),
    };
    Some(image_command(os, input, output, plan, q[k], is_webp))
}

/// The budget in bytes.
pub open spec fn budget_bytes(mb: Real) -> nat {
    double::whole_part(
        double::product(double::product(mb, double::whole(1024)), double::whole(1024)),
        u64::MAX as nat,
    )
}

/// What follows an attempt to encode an image.
#[derive(Debug)]
pub enum Verdict {
    /// The image is done.
    Done,
    /// Try the next quality.
    Again,
    /// The encode failed.
    Failed(String),
    /// The image cannot meet the budget; its file is to be removed.
    TooBig(String),
}

/// What follows an attempt to encode an image.
pub ghost enum VerdictV {
    Done,
    Again,
    Failed(Seq<char>),
    TooBig(Seq<char>),
}

impl View for Verdict {
    type V = VerdictV;

    open spec fn view(&self) -> VerdictV {
        match *self {
            Verdict::Done => VerdictV::Done,
            Verdict::Again => VerdictV::Again,
            Verdict::Failed(e) => VerdictV::Failed(e@),
            Verdict::TooBig(e) => VerdictV::TooBig(e@),
        }
    }
}

/// What is said of an image that is too big: what it is, its size and the cap,
/// and what helps.
pub open spec fn too_big(what: Seq<char>, size: u64, mb: Real, advice: Seq<char>) -> Seq<char> {
    what + " cannot be compressed below the size cap ("@ + decimal::fixed(
        double::quotient(double::whole(size as nat), double::whole(1048576)),
    ) + " MB > "@ + decimal::fixed(mb) + " MB). "@ + advice
}

/// What helps where a PNG is too big.
pub open spec fn png_advice() -> Seq<char> {
    "Use webp or jpg output for this one."@
}

/// What helps where an image is too big at the lowest quality.
pub open spec fn ladder_advice() -> Seq<char> {
    "Use a smaller size or a higher cap for this one."@
}

/// What follows attempt `k`, which came out like that and left a file of that
/// size (none where that is not known). A file whose size is not known is taken
/// not to fit while there is another quality to try; after the last one it
/// stands, and `convert_file` judges whether there is anything in it.
pub open spec fn judged(mode: ImageMode, k: int, ran: Ran, size: Option<u64>) -> VerdictV {
    match ffmpeg::quiet_result(ran) {
        Err(e) => VerdictV::Failed(e),
        Ok(_) => match mode {
            ImageMode::Once(_) => VerdictV::Done,
            ImageMode::Lossless(mb) => match size {
                Some(n) if n > budget_bytes(mb@) => VerdictV::TooBig(
                    too_big("PNG"@, n, mb@, png_advice()),
                ),
                _ => VerdictV::Done,
            },
            ImageMode::Ladder(mb, format) => {
                let last = k + 1 >= plan::ladder(format).len();
                match size {
                    Some(n) => if n <= budget_bytes(mb@) {
                        VerdictV::Done
                    } else if last {
                        VerdictV::TooBig(too_big("image"@, n, mb@, ladder_advice()))
                    } else {
                        VerdictV::Again
                    },
                    None => if last || budget_bytes(mb@) == u64::MAX {
                        VerdictV::Done
                    } else {
                        VerdictV::Again
                    },
                }
            },
        },
    }
}

/// The budget in bytes.
fn bytes_of(mb: Double) -> (r: u64)
    ensures
        r == budget_bytes(mb@),
{
    let k: Double = Double::from_u64(1024);
    mb.mul(k).mul(k).to_u64()
}

/// What is said of an image that is too big.
fn too_big_text(what: &str, size: u64, mb: Double, advice: &str) -> (r: String)
    ensures
        r@ == too_big(what@, size, mb@, advice@),
{
    let mega: Double = Double::from_u64(size).div(Double::from_u64(1048576));
    joined3(what, " cannot be compressed below the size cap (", &fixed_text(mega)).concat(
        " MB > ",
    ).concat(&fixed_text(mb)).concat(" MB). ").concat(advice)
}

/// What follows attempt `k`, which came out like that and left a file of that
/// size (none where that is not known). The cap is a hard one: an image that is
/// over it at the lowest quality is refused.
pub fn convert_image(mode: ImageMode, k: usize, ran: &Ran, size: Option<u64>) -> (r: Verdict)
    requires
        k < attempts(mode).len(),
    ensures
        r@ == judged(mode, k as int, *ran, size),
{
    if let Err(e) = run_quiet(ran) {
        return Verdict::Failed(e);
    }
    match mode {
        ImageMode::Once(_) => Verdict::Done,
        ImageMode::Lossless(mb) => {
            let budget: u64 = bytes_of(mb);
            let size: u64 = match size {
                Some(n) => n,
                None => 0,
            };
            if size > budget {
                Verdict::TooBig(
                    too_big_text("PNG", size, mb, "Use webp or jpg output for this one."),
                )
            } else {
                Verdict::Done
            }
        },
        ImageMode::Ladder(mb, format) => {
            let budget: u64 = bytes_of(mb);
            let ladder: Vec<u32> = image_quality_ladder(format);
            let last: bool = k + 1 >= ladder.len();
            match size {
                Some(n) => if n <= budget {
                    Verdict::Done
                } else if last {
                    Verdict::TooBig(
                        too_big_text(
                            "image",
                            n,
                            mb,
                            "Use a smaller size or a higher cap for this one.",
                        ),
                    )
                } else {
                    Verdict::Again
                },
                None => if last || budget == 0xFFFF_FFFF_FFFF_FFFF {
                    Verdict::Done
                } else {
                    Verdict::Again
                },
            }
        },
    }
}

/// The most bytes that an image may have, where there is a cap.
pub open spec fn cap_of(mode: ImageMode) -> Option<nat> {
    match mode {
        ImageMode::Lossless(mb) => Some(budget_bytes(mb@)),
        ImageMode::Ladder(mb, _) => Some(budget_bytes(mb@)),
        ImageMode::Once(_) => None,
    }
}

/// The cap on the size of an image is a hard one: what is done fits, and what
/// is refused as too big does not. The ladder always ends, and ends at the first
/// rung whose file fits: what is tried again did not fit.
pub proof fn law_ladder_stops_when_it_fits(mode: ImageMode, k: int, ran: Ran, size: Option<u64>)
    requires
        0 <= k < attempts(mode).len(),
    ensures
        judged(mode, k, ran, size) is Done && !(mode is Once) && size is Some ==> size->0
            <= cap_of(mode)->0,
        judged(mode, k, ran, size) is TooBig ==> !(mode is Once) && size is Some && size->0
            > cap_of(mode)->0 && k + 1 == attempts(mode).len(),
        judged(mode, k, ran, size) is Again ==> k + 1 < attempts(mode).len(),
        judged(mode, k, ran, size) is Again ==> mode is Ladder && (size is Some ==> size->0
            > cap_of(mode)->0),
{
}

/// How long a preview is, at most two seconds and a half.
pub open spec fn clip_of(duration: Real) -> Real {
    double::lesser(duration, double::literal(5, 2))
}

/// How long a preview is, at most two seconds and a half.
pub fn preview_clip(info: &MediaInfo) -> (r: Double)
    ensures
        r@ == clip_of(info.duration_s@),
{
    info.duration_s.min(Double::ratio(5, 2))
}

/// The file of a preview.
pub open spec fn preview_file(os: Os, scratch: Seq<char>, id: u64, ext: Seq<char>) -> Seq<char> {
    path::inside(os, scratch, "preview-"@ + text::decimal(id as nat) + "."@ + ext)
}

/// The file of a preview of that source.
pub fn preview_output(
    os: Os,
    scratch: &str,
    id: u64,
    input: &str,
    info: &MediaInfo,
    settings: &Settings,
) -> (r: String)
    ensures
        r@ == preview_file(
            os,
            scratch@,
            id,
            ext_for(os, input@, info.is_video, settings.image_format),
        ),
{
    let ext: String = output_ext(os, input, info, settings);
    join(os, scratch, &joined3("preview-", &decimal_text(id), ".").concat(&ext))
}

/// What the whole result will weigh, where its preview weighs `bytes`.
pub open spec fn estimate(p: EncodePlan, duration: Real, bytes: u64) -> nat {
    match p.rate {
        RateControl::TwoPass { video_kbps } => {
            let audio: nat = match p.audio_kbps {
                Some(k) => k as nat,
                None => 0,
            };
            let bits = double::product(
                double::product(double::whole(video_kbps as nat + audio), double::whole(1000)),
                duration,
            );
            double::whole_part(
                double::product(double::quotient(bits, double::whole(8)), double::literal(104, 100)),
                u64::MAX as nat,
            )
        },
        RateControl::Crf(_) => if double::less(double::whole(0), clip_of(duration)) {
            double::whole_part(
                double::product(
                    double::whole(bytes as nat),
                    double::quotient(duration, clip_of(duration)),
                ),
                u64::MAX as nat,
            )
        } else {
            bytes as nat
        },
    }
}

/// What the whole result will weigh: where the planned bitrate is known
/// exactly, by that with ~4% mux overhead; otherwise by the bytes of the
/// preview, extrapolated to the full duration.
fn estimated(plan: &EncodePlan, info: &MediaInfo, bytes: u64) -> (r: u64)
    ensures
        r == estimate(*plan, info.duration_s@, bytes),
{
    match plan.rate {
        RateControl::TwoPass { video_kbps } => {
            let audio: u64 = match plan.audio_kbps {
                Some(k) => k as u64,
                None => 0,
            };
            let kbps: Double = Double::from_u64(video_kbps as u64 + audio);
            kbps.mul(Double::from_u64(1000)).mul(info.duration_s).div(Double::from_u64(8)).mul(
                Double::ratio(104, 100),
            ).to_u64()
        },
        RateControl::Crf(_) => {
            let clip: Double = preview_clip(info);
            if Double::from_u64(0).lt(clip) {
                Double::from_u64(bytes).mul(info.duration_s.div(clip)).to_u64()
            } else {
                bytes
            }
        },
    }
}

/// A short, fast preview of a video (or a scaled image) reflecting the current
/// settings, once it is encoded and weighs `bytes`: its file, and the estimated
/// bytes of the whole result.
pub fn make_preview(
    os: Os,
    scratch: &str,
    id: u64,
    input: &str,
    info: &MediaInfo,
    settings: &Settings,
    plan: &EncodePlan,
    bytes: u64,
) -> (r: (String, u64))
    ensures
        r.0@ == preview_file(
            os,
            scratch@,
            id,
            ext_for(os, input@, info.is_video, settings.image_format),
        ),
        r.1 == if info.is_video {
            estimate(*plan, info.duration_s@, bytes)
        } else {
            bytes as nat
        },
{
    let out: String = preview_output(os, scratch, id, input, info, settings);
    if info.is_video {
        (out, estimated(plan, info, bytes))
    } else {
        (out, bytes)
    }
}

/// Result of one queue item.
#[derive(Debug)]
pub struct BulkItemResult {
    /// Ok((output_path, input_bytes, output_bytes)) or the failure message.
    pub result: Result<(String, u64, u64), String>,
}

/// The result of a queue item whose source has `in_bytes`.
pub fn bulk_item(res: Result<ConvertOutcome, String>, in_bytes: u64) -> (r: BulkItemResult)
    ensures
        match res {
            Ok(o) => r.result is Ok && r.result->Ok_0.0@ == o.output@ && r.result->Ok_0.1
                == in_bytes && r.result->Ok_0.2 == o.out_bytes,
            Err(e) => r.result is Err && r.result->Err_0@ == e@,
        },
{
    match res {
        Ok(o) => BulkItemResult { result: Ok((o.output, in_bytes, o.out_bytes)) },
        Err(e) => BulkItemResult { result: Err(e) },
    }
}

/// How many workers a queue of `n` items gets: as many as were asked for, but
/// no more than there are items, and at least one.
pub fn worker_count(jobs: usize, n: usize) -> (r: usize)
    ensures
        r == plan::at_most(plan::at_least(jobs as int, 1), plan::at_least(n as int, 1)),
{
    let jobs: usize = if jobs < 1 {
        1
    } else {
        jobs
    };
    let n: usize = if n < 1 {
        1
    } else {
        n
    };
    if jobs > n {
        n
    } else {
        jobs
    }
}

/// The results that are there, in the order of the queue.
pub open spec fn those_done(v: Seq<Option<BulkItemResult>>, n: nat) -> Seq<BulkItemResult>
    decreases n,
{
    if n == 0 {
        seq![]
    } else {
        match v[n - 1] {
            Some(r) => those_done(v, (n - 1) as nat).push(r),
            None => those_done(v, (n - 1) as nat),
        }
    }
}

/// What a queue comes to, once the workers have stopped: the result of each
/// item in the order of the queue, whichever worker took it and whenever it
/// was done.
pub fn run_bulk(results: Vec<Option<BulkItemResult>>) -> (r: Vec<BulkItemResult>)
    ensures
        r@ == those_done(results@, results@.len()),
{
    let ghost all = results@;
    let mut rest: Vec<Option<BulkItemResult>> = results;
    let mut back: Vec<BulkItemResult> = Vec::new();
    assert(those_done(all, all.len()) =~= those_done(all, all.len()) + back@.reverse());
    while rest.len() > 0
        invariant
            rest@.len() <= all.len(),
            rest@ == all.take(rest@.len() as int),
            those_done(all, all.len()) == those_done(all, rest@.len()) + back@.reverse(),
        decreases rest@.len(),
    {
        let ghost (r0, b0) = (rest@, back@);
        let last: Option<BulkItemResult> = rest.pop().unwrap();
        assert(rest@ =~= all.take(rest@.len() as int));
        assert(last == all[rest@.len() as int]);
        if let Some(item) = last {
            back.push(item);
            assert(back@.reverse() =~= seq![item] + b0.reverse());
            let ghost known = those_done(all, rest@.len());
            assert(known.push(item) + b0.reverse() =~= known + back@.reverse());
        }
    }
    let mut r: Vec<BulkItemResult> = Vec::new();
    let ghost want = back@.reverse();
    assert(want =~= r@ + back@.reverse());
    while back.len() > 0
        invariant
            want == r@ + back@.reverse(),
        decreases back@.len(),
    {
        let ghost (r0, b0) = (r@, back@);
        let item: BulkItemResult = back.pop().unwrap();
        r.push(item);
        assert(b0.reverse() =~= seq![item] + back@.reverse());
        assert(r@ + back@.reverse() =~= r0 + b0.reverse());
    }
    assert(back@.reverse() =~= seq![]);
    assert(r@ =~= want);
    assert(those_done(all, 0) + want =~= want);
    r
}

/// Every item of a queue that was worked off is reported, in its place.
pub proof fn law_every_item_is_reported(v: Seq<Option<BulkItemResult>>, n: nat)
    requires
        n <= v.len(),
        forall|i: int| 0 <= i < n ==> (#[trigger] v[i]) is Some,
    ensures
        those_done(v, n).len() == n,
        forall|i: int| 0 <= i < n ==> v[i] == Some(#[trigger] those_done(v, n)[i]),
    decreases n,
{
    if n > 0 {
        law_every_item_is_reported(v, (n - 1) as nat);
    }
}

/// Default parallel jobs: half the cores, between 1 and 8; two where the cores
/// are not known.
pub fn default_jobs(cores: Option<usize>) -> (r: usize)
    ensures
        r == match cores {
            Some(n) => plan::at_most(plan::at_least(n as int / 2, 1), 8),
            None => 2,
        },
        1 <= r <= 8,
{
    match cores {
        Some(n) => if n / 2 < 1 {
            1
        } else if n / 2 > 8 {
            8
        } else {
            n / 2
        },
        None => 2,
    }
}

} // verus!
