//! A directory as it was found: a value that can be searched without touching
//! the disk again.
use crate::path;
use crate::path::{file_name, Os};
use crate::text::same;
use vstd::prelude::*;

verus! {

/// Something that a directory holds.
#[derive(Debug)]
pub enum Node {
    /// Anything that is not a directory. `canonical` is its canonical path, or
    /// its own where it has none.
    File { path: String, canonical: String },
    /// A directory, with its canonical path likewise; `entries` are in the order in which they were listed, and none
    /// where the directory could not be read.
    Dir { path: String, canonical: String, entries: Vec<Node> },
}

impl Node {
    /// The path of a node.
    pub open spec fn place(self) -> Seq<char> {
        match self {
            Node::File { path, .. } => path@,
            Node::Dir { path, .. } => path@,
        }
    }
}

/// Whether something is a file, or holds one, of that path and that canonical
/// path.
pub open spec fn holds_file(n: Node, path: Seq<char>, canonical: Seq<char>) -> bool
    decreases n,
{
    match n {
        Node::File { path: p, canonical: c } => p@ == path && c@ == canonical,
        Node::Dir { entries, .. } => exists|i: int|
            0 <= i < entries@.len() && holds_file(#[trigger] entries@[i], path, canonical),
    }
}

/// A directory holds what one of its entries holds.
pub proof fn lemma_holds_file(n: Node, i: int, path: Seq<char>, canonical: Seq<char>)
    requires
        n is Dir,
        0 <= i < n->entries@.len(),
        holds_file(n->entries@[i], path, canonical),
    ensures
        holds_file(n, path, canonical),
{
}

/// Whether a node is a file of that name.
pub open spec fn is_named(os: Os, n: Node, name: Seq<char>) -> bool {
    n matches Node::File { path, .. } && path::name(os, path@) == Some(name)
}

/// The path of the first file of that name directly among `entries`, from `i`
/// on.
pub open spec fn found_here(os: Os, entries: Seq<Node>, name: Seq<char>, i: int) -> Option<
    Seq<char>,
>
    decreases entries.len() - i,
{
    if i >= entries.len() {
        None
    } else if is_named(os, entries[i], name) {
        Some(entries[i].place())
    } else {
        found_here(os, entries, name, i + 1)
    }
}

/// The path of the first file of that name that one of the directories among
/// `entries`, from `i` on, holds at most `depth` levels down.
pub open spec fn found_below(os: Os, entries: Seq<Node>, name: Seq<char>, depth: nat, i: int) -> Option<
    Seq<char>,
>
    decreases depth, 0int, entries.len() - i,
{
    if i >= entries.len() || depth == 0 {
        None
    } else {
        let inner = match entries[i] {
            Node::Dir { entries: e, .. } => found(os, e@, name, (depth - 1) as nat),
            Node::File { .. } => None,
        };
        match inner {
            Some(p) => Some(p),
            None => found_below(os, entries, name, depth, i + 1),
        }
    }
}

/// The path of a file of that name: directly among `entries`, or else at most
/// `depth` levels down.
pub open spec fn found(os: Os, entries: Seq<Node>, name: Seq<char>, depth: nat) -> Option<Seq<char>>
    decreases depth, 1int, 0int,
{
    match found_here(os, entries, name, 0) {
        Some(p) => Some(p),
        None => found_below(os, entries, name, depth, 0),
    }
}

/// Breadth-limited search for a file by name inside an extracted archive.
pub fn find_file(os: Os, entries: &Vec<Node>, name: &str, depth: u32) -> (r: Option<String>)
    ensures
        r is Some == found(os, entries@, name@, depth as nat) is Some,
        r is Some ==> r->0@ == found(os, entries@, name@, depth as nat)->0,
    decreases depth,
{
    let ghost all = entries@;
    let n: usize = entries.len();
    let mut i: usize = 0;
    while i < n
        invariant
            n == entries@.len(),
            all == entries@,
            0 <= i <= n,
            found_here(os, all, name@, 0) == found_here(os, all, name@, i as int),
        decreases n - i,
    {
        if let Node::File { path, .. } = &entries[i] {
            if let Some(f) = file_name(os, path) {
                if same(&f, name) {
                    return Some(path.clone());
                }
            }
        }
        i = i + 1;
    }
    if depth == 0 {
        return None;
    }
    let mut i: usize = 0;
    while i < n
        invariant
            n == entries@.len(),
            all == entries@,
            0 <= i <= n,
            depth > 0,
            found_here(os, all, name@, 0) is None,
            found_below(os, all, name@, depth as nat, 0) == found_below(
                os,
                all,
                name@,
                depth as nat,
                i as int,
            ),
        decreases n - i,
    {
        if let Node::Dir { entries: inner, .. } = &entries[i] {
            if let Some(p) = find_file(os, inner, name, depth - 1) {
                return Some(p);
            }
        }
        i = i + 1;
    }
    None
}

/// What is found has the name that was looked for.
pub proof fn law_found_is_named(os: Os, entries: Seq<Node>, name: Seq<char>, depth: nat)
    ensures
        found(os, entries, name, depth) matches Some(p) ==> path::name(os, p) == Some(name),
    decreases depth, 1int, 0int,
{
    lemma_here_is_named(os, entries, name, 0);
    lemma_below_is_named(os, entries, name, depth, 0);
}

proof fn lemma_here_is_named(os: Os, entries: Seq<Node>, name: Seq<char>, i: int)
    ensures
        found_here(os, entries, name, i) matches Some(p) ==> path::name(os, p) == Some(name),
    decreases entries.len() - i,
{
    if i < entries.len() && !is_named(os, entries[i], name) {
        lemma_here_is_named(os, entries, name, i + 1);
    }
}

proof fn lemma_below_is_named(os: Os, entries: Seq<Node>, name: Seq<char>, depth: nat, i: int)
    ensures
        found_below(os, entries, name, depth, i) matches Some(p) ==> path::name(os, p) == Some(
            name,
        ),
    decreases depth, 0int, entries.len() - i,
{
    if i < entries.len() && depth > 0 {
        if let Node::Dir { entries: e, .. } = entries[i] {
            law_found_is_named(os, e@, name, (depth - 1) as nat);
        }
        lemma_below_is_named(os, entries, name, depth, i + 1);
    }
}

/// Whether a file of that name is among `entries`, or at most `depth` levels
/// below.
pub open spec fn is_there(os: Os, entries: Seq<Node>, name: Seq<char>, depth: nat) -> bool
    decreases depth,
{
    ||| exists|i: int| 0 <= i < entries.len() && is_named(os, #[trigger] entries[i], name)
    ||| depth > 0 && exists|i: int|
        0 <= i < entries.len() && (#[trigger] entries[i] matches Node::Dir { entries: e, .. }
            && is_there(os, e@, name, (depth - 1) as nat))
}

/// What is there is found, and what is not there is not; and what is there right
/// among the entries is found before anything below them.
pub proof fn law_what_is_there_is_found(os: Os, entries: Seq<Node>, name: Seq<char>, depth: nat)
    ensures
        found(os, entries, name, depth) is Some <==> is_there(os, entries, name, depth),
        (exists|i: int| 0 <= i < entries.len() && is_named(os, #[trigger] entries[i], name))
            ==> exists|i: int|
            0 <= i < entries.len() && is_named(os, #[trigger] entries[i], name) && found(
                os,
                entries,
                name,
                depth,
            ) == Some(entries[i].place()),
    decreases depth, 1int, 0int,
{
    lemma_found_here(os, entries, name, 0);
    lemma_found_below(os, entries, name, depth, 0);
}

proof fn lemma_found_here(os: Os, entries: Seq<Node>, name: Seq<char>, from: int)
    requires
        0 <= from,
    ensures
        found_here(os, entries, name, from) is Some <==> exists|i: int|
            from <= i < entries.len() && is_named(os, #[trigger] entries[i], name),
        found_here(os, entries, name, from) matches Some(p) ==> exists|i: int|
            from <= i < entries.len() && is_named(os, #[trigger] entries[i], name) && p
                == entries[i].place(),
    decreases entries.len() - from,
{
    if from < entries.len() && !is_named(os, entries[from], name) {
        lemma_found_here(os, entries, name, from + 1);
    }
}

proof fn lemma_found_below(os: Os, entries: Seq<Node>, name: Seq<char>, depth: nat, from: int)
    requires
        0 <= from,
    ensures
        found_below(os, entries, name, depth, from) is Some <==> depth > 0 && exists|i: int|
            from <= i < entries.len() && (#[trigger] entries[i] matches Node::Dir { entries: e, .. }
                && is_there(os, e@, name, (depth - 1) as nat)),
    decreases depth, 0int, entries.len() - from,
{
    if from < entries.len() && depth > 0 {
        if let Node::Dir { entries: e, .. } = entries[from] {
            law_what_is_there_is_found(os, e@, name, (depth - 1) as nat);
        }
        lemma_found_below(os, entries, name, depth, from + 1);
    }
}

} // verus!
