//! Which files are collected from what the user names.
use crate::jobs;
use crate::path;
use crate::path::Os;
use crate::text;
use crate::tree::Node;
use vstd::prelude::*;

verus! {

/// Whether a path ends with a name that does not begin with a point.
pub open spec fn is_visible(os: Os, p: Seq<char>) -> bool {
    path::name(os, p) matches Some(n) && !(n.len() > 0 && n[0] == '.')
}

/// The extensions of videos and of images that are accepted.
pub open spec fn accepted() -> Seq<Seq<char>> {
    seq![
        "mp4"@,
        "mov"@,
        "m4v"@,
        "mkv"@,
        "webm"@,
        "avi"@,
        "gif"@,
        "mts"@,
        "wmv"@,
        "jpg"@,
        "jpeg"@,
        "png"@,
        "webp"@,
        "bmp"@,
        "tif"@,
        "tiff"@,
        "heic"@,
    ]
}

/// Whether a path ends with a name that has one of the accepted extensions, in
/// small letters or capitals.
pub open spec fn is_accepted(os: Os, p: Seq<char>) -> bool {
    path::suffix(os, p) matches Some(e) && accepted().contains(text::lower(e))
}

/// Media is told by the extension of a file, whatever its letters, and what is
/// hidden by the point that its name begins with.
pub proof fn law_media_and_hidden_files(os: Os, p: Seq<char>)
    ensures
        jobs::is_media(os, p) == is_accepted(os, p),
        jobs::is_hidden(os, p) == !is_visible(os, p),
{
    let all = accepted();
    if let Some(e) = path::suffix(os, p) {
        let l = text::lower(e);
        if all.contains(l) {
            let i = choose|i: int| 0 <= i < all.len() && all[i] == l;
            assert(0 <= i < 17);
        }
        assert(all[0] == "mp4"@ && all[1] == "mov"@ && all[2] == "m4v"@ && all[3] == "mkv"@);
        assert(all[4] == "webm"@ && all[5] == "avi"@ && all[6] == "gif"@ && all[7] == "mts"@);
        assert(all[8] == "wmv"@ && all[9] == "jpg"@ && all[10] == "jpeg"@ && all[11] == "png"@);
        assert(all[12] == "webp"@ && all[13] == "bmp"@ && all[14] == "tif"@);
        assert(all[15] == "tiff"@ && all[16] == "heic"@);
    }
    if let Some(n) = path::name(os, p) {
        reveal_strlit(".");
        if n.len() > 0 {
            assert(n.subrange(0, 1) =~= seq![n[0]]);
            assert("."@ =~= seq!['.']);
            assert(n.subrange(0, 1)[0] == n[0] && "."@[0] == '.');
        }
    }
}

/// Whether something does not lie in the directory to leave out, where there is
/// one.
pub open spec fn is_outside(os: Os, canonical: Seq<char>, exclude: Option<Seq<char>>) -> bool {
    exclude matches Some(x) ==> !path::within(os, canonical, x)
}

/// Whether a walk that meets `n` comes upon the file at `p`: `n` is that file, or
/// a directory on the way to it. All that is met on the way, the file included,
/// is visible and outside the directory to leave out, and directories are only
/// entered on a walk through all levels.
pub open spec fn comes_upon(
    os: Os,
    n: Node,
    p: Seq<char>,
    recursive: bool,
    exclude: Option<Seq<char>>,
) -> bool
    decreases n,
{
    match n {
        Node::File { path, canonical } => path@ == p && is_visible(os, p) && is_outside(
            os,
            canonical@,
            exclude,
        ),
        Node::Dir { path, canonical, entries } => {
            &&& recursive && is_visible(os, path@) && is_outside(os, canonical@, exclude)
            &&& exists|i: int|
                0 <= i < entries@.len() && comes_upon(
                    os,
                    #[trigger] entries@[i],
                    p,
                    recursive,
                    exclude,
                )
        },
    }
}

/// Whether an input leads to the file at `p`: it is that file, or a directory
/// whose walk comes upon it. What the user names may be hidden itself.
pub open spec fn leads_to(
    os: Os,
    n: Node,
    p: Seq<char>,
    recursive: bool,
    exclude: Option<Seq<char>>,
) -> bool {
    match n {
        Node::File { path, canonical } => path@ == p && is_outside(os, canonical@, exclude),
        Node::Dir { canonical, entries, .. } => is_outside(os, canonical@, exclude) && exists|i: int|
            0 <= i < entries@.len() && comes_upon(
                os,
                #[trigger] entries@[i],
                p,
                recursive,
                exclude,
            ),
    }
}

/// Nothing is left out and nothing is added. With `r` collected from the inputs,
/// every media file that an input leads to, at any depth on a walk through all
/// levels, is in `r` by its path; and whatever is in `r` is a media file that an
/// input leads to.
pub proof fn law_walk_is_complete(
    os: Os,
    inputs: Seq<Node>,
    recursive: bool,
    exclude: Option<Seq<char>>,
    r: Seq<Seq<char>>,
)
    requires
        path::is_sorted_set(
            os,
            jobs::gathered(os, inputs, recursive, exclude, inputs.len()),
            r,
        ),
    ensures
        forall|k: int, p: Seq<char>|
            0 <= k < inputs.len() && #[trigger] leads_to(os, inputs[k], p, recursive, exclude)
                && is_accepted(os, p) ==> path::has_key(os, r, path::key(os, p)),
        forall|i: int|
            0 <= i < r.len() ==> is_accepted(os, #[trigger] r[i]) && exists|k: int|
                0 <= k < inputs.len() && leads_to(os, #[trigger] inputs[k], r[i], recursive, exclude),
{
    let all = jobs::gathered(os, inputs, recursive, exclude, inputs.len());
    assert forall|k: int, p: Seq<char>|
        0 <= k < inputs.len() && #[trigger] leads_to(os, inputs[k], p, recursive, exclude)
            && is_accepted(os, p) implies path::has_key(os, r, path::key(os, p)) by {
        let j = lemma_gathers(os, inputs, recursive, exclude, inputs.len(), k, p);
        assert(all[j] == p);
        assert(path::has_key(os, r, path::key(os, all[j])));
    }
    assert forall|i: int| 0 <= i < r.len() implies is_accepted(os, #[trigger] r[i]) && exists|k: int|
        0 <= k < inputs.len() && leads_to(os, #[trigger] inputs[k], r[i], recursive, exclude) by {
        assert(path::is_first_of(os, all, r[i]));
        let j = choose|j: int|
            0 <= j < all.len() && #[trigger] all[j] == r[i] && !path::has_key(
                os,
                all.take(j),
                path::key(os, r[i]),
            );
        let k = lemma_gathered(os, inputs, recursive, exclude, inputs.len(), j);
        assert(leads_to(os, inputs[k], r[i], recursive, exclude));
    }
}

/// Where an input leads to a media file, that is gathered.
proof fn lemma_gathers(
    os: Os,
    inputs: Seq<Node>,
    recursive: bool,
    exclude: Option<Seq<char>>,
    n: nat,
    k: int,
    p: Seq<char>,
) -> (j: int)
    requires
        0 <= k < n <= inputs.len(),
        leads_to(os, inputs[k], p, recursive, exclude),
        is_accepted(os, p),
    ensures
        0 <= j < jobs::gathered(os, inputs, recursive, exclude, n).len(),
        jobs::gathered(os, inputs, recursive, exclude, n)[j] == p,
    decreases n,
{
    let before = jobs::gathered(os, inputs, recursive, exclude, (n - 1) as nat);
    if k < n - 1 {
        lemma_gathers(os, inputs, recursive, exclude, (n - 1) as nat, k, p)
    } else {
        law_media_and_hidden_files(os, p);
        match inputs[k] {
            Node::File { .. } => before.len() as int,
            Node::Dir { entries, .. } => {
                let i = choose|i: int|
                    0 <= i < entries@.len() && comes_upon(
                        os,
                        #[trigger] entries@[i],
                        p,
                        recursive,
                        exclude,
                    );
                before.len() + lemma_walk_takes(
                    os,
                    entries,
                    recursive,
                    exclude,
                    entries@.len(),
                    i,
                    p,
                )
            },
        }
    }
}

proof fn lemma_walk_takes(
    os: Os,
    entries: Vec<Node>,
    recursive: bool,
    exclude: Option<Seq<char>>,
    n: nat,
    i: int,
    p: Seq<char>,
) -> (j: int)
    requires
        0 <= i < n <= entries@.len(),
        comes_upon(os, entries@[i], p, recursive, exclude),
        is_accepted(os, p),
    ensures
        0 <= j < jobs::taken_all(os, entries, recursive, exclude, n).len(),
        jobs::taken_all(os, entries, recursive, exclude, n)[j] == p,
    decreases entries, n,
{
    let before = jobs::taken_all(os, entries, recursive, exclude, (n - 1) as nat);
    if i < n - 1 {
        lemma_walk_takes(os, entries, recursive, exclude, (n - 1) as nat, i, p)
    } else {
        before.len() + lemma_node_takes(os, entries@[i], recursive, exclude, p)
    }
}

proof fn lemma_node_takes(
    os: Os,
    n: Node,
    recursive: bool,
    exclude: Option<Seq<char>>,
    p: Seq<char>,
) -> (j: int)
    requires
        comes_upon(os, n, p, recursive, exclude),
        is_accepted(os, p),
    ensures
        0 <= j < jobs::taken(os, n, recursive, exclude).len(),
        jobs::taken(os, n, recursive, exclude)[j] == p,
    decreases n, 0nat,
{
    law_media_and_hidden_files(os, p);
    match n {
        Node::File { .. } => 0,
        Node::Dir { path, entries, .. } => {
            law_media_and_hidden_files(os, path@);
            let i = choose|i: int|
                0 <= i < entries@.len() && comes_upon(
                    os,
                    #[trigger] entries@[i],
                    p,
                    recursive,
                    exclude,
                );
            lemma_walk_takes(os, entries, recursive, exclude, entries@.len(), i, p)
        },
    }
}

/// What is gathered is a media file that an input leads to.
proof fn lemma_gathered(
    os: Os,
    inputs: Seq<Node>,
    recursive: bool,
    exclude: Option<Seq<char>>,
    n: nat,
    j: int,
) -> (k: int)
    requires
        n <= inputs.len(),
        0 <= j < jobs::gathered(os, inputs, recursive, exclude, n).len(),
    ensures
        ({
            let p = jobs::gathered(os, inputs, recursive, exclude, n)[j];
            0 <= k < n && leads_to(os, inputs[k], p, recursive, exclude) && is_accepted(os, p)
        }),
    decreases n,
{
    let before = jobs::gathered(os, inputs, recursive, exclude, (n - 1) as nat);
    if j < before.len() {
        lemma_gathered(os, inputs, recursive, exclude, (n - 1) as nat, j)
    } else {
        let own = jobs::given(os, inputs[n - 1], recursive, exclude);
        let p = own[j - before.len()];
        match inputs[n - 1] {
            Node::File { path, .. } => {
                assert(own == seq![path@]);
                law_media_and_hidden_files(os, p);
            },
            Node::Dir { entries, .. } => {
                let i = lemma_walk_taken(
                    os,
                    entries,
                    recursive,
                    exclude,
                    entries@.len(),
                    j - before.len(),
                );
                assert(comes_upon(os, entries@[i], p, recursive, exclude));
            },
        }
        n - 1
    }
}

proof fn lemma_walk_taken(
    os: Os,
    entries: Vec<Node>,
    recursive: bool,
    exclude: Option<Seq<char>>,
    n: nat,
    j: int,
) -> (i: int)
    requires
        0 <= j < jobs::taken_all(os, entries, recursive, exclude, n).len(),
    ensures
        ({
            let p = jobs::taken_all(os, entries, recursive, exclude, n)[j];
            &&& 0 <= i < n <= entries@.len()
            &&& comes_upon(os, entries@[i], p, recursive, exclude)
            &&& is_accepted(os, p)
        }),
    decreases entries, n,
{
    let before = jobs::taken_all(os, entries, recursive, exclude, (n - 1) as nat);
    if j < before.len() {
        lemma_walk_taken(os, entries, recursive, exclude, (n - 1) as nat, j)
    } else {
        lemma_node_taken(os, entries@[n - 1], recursive, exclude, j - before.len());
        n - 1
    }
}

proof fn lemma_node_taken(os: Os, n: Node, recursive: bool, exclude: Option<Seq<char>>, j: int)
    requires
        0 <= j < jobs::taken(os, n, recursive, exclude).len(),
    ensures
        comes_upon(os, n, jobs::taken(os, n, recursive, exclude)[j], recursive, exclude),
        is_accepted(os, jobs::taken(os, n, recursive, exclude)[j]),
    decreases n, 0nat,
{
    let p = jobs::taken(os, n, recursive, exclude)[j];
    law_media_and_hidden_files(os, p);
    match n {
        Node::File { path, .. } => {
            assert(jobs::taken(os, n, recursive, exclude) == seq![path@]);
        },
        Node::Dir { path, entries, .. } => {
            law_media_and_hidden_files(os, path@);
            let i = lemma_walk_taken(os, entries, recursive, exclude, entries@.len(), j);
            assert(comes_upon(os, entries@[i], p, recursive, exclude));
        },
    }
}

} // verus!
