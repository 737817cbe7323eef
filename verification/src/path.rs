//! Paths as texts: what they are made of, which of them are the same, and in
//! what order they come.
use crate::text;
use crate::text::{chars_of, joined, string_of};
use vstd::prelude::*;

verus! {

/// The systems that this program tells apart.
#[derive(Debug, Clone, Copy, PartialEq, Eq, Structural)]
pub enum Os {
    Windows,
    Macos,
    /// Linux and the other Unixes.
    Other,
}

/// What a part of a path is.
#[derive(Debug, Clone, Copy, PartialEq, Eq, Structural)]
pub enum Kind {
    /// What a path on Windows may begin with: a drive, a network share, or
    /// another prefix of its own.
    Drive,
    /// The separator that a path from the root begins with.
    Root,
    /// `.`, at the beginning of a path.
    Current,
    /// `..`
    Parent,
    /// The name of a file or a directory.
    Name,
}

/// A part of a path: the places from `from` up to `to`.
#[derive(Debug, Clone, Copy, PartialEq, Eq, Structural)]
pub struct Part {
    pub kind: Kind,
    pub from: usize,
    pub to: usize,
}

/// A part of a path: what it is, and its places.
pub ghost struct PartV {
    pub kind: Kind,
    pub from: int,
    pub to: int,
}

impl View for Part {
    type V = PartV;

    open spec fn view(&self) -> PartV {
        PartV { kind: self.kind, from: self.from as int, to: self.to as int }
    }
}

/// What the parts of a list are.
pub open spec fn seen(v: Seq<Part>) -> Seq<PartV> {
    v.map_values(|p: Part| p@)
}

/// Whether a character separates the parts of a path.
pub open spec fn is_separator(os: Os, c: char) -> bool {
    c == '/' || (os is Windows && c == '\\')
}

fn separates(os: Os, c: char) -> (r: bool)
    ensures
        r == is_separator(os, c),
{
    c == '/' || (os == Os::Windows && c == '\\')
}

/// Whether a character is an ASCII letter.
pub open spec fn is_letter(c: char) -> bool {
    'a' <= c <= 'z' || 'A' <= c <= 'Z'
}

/// How a path is cut into pieces.
#[derive(Debug, Clone, Copy, PartialEq, Eq, Structural)]
pub enum Style {
    /// At `/`.
    Unix,
    /// At `/` and at `\`.
    Windows,
    /// At `\` alone, behind a prefix that is taken word for word.
    Verbatim,
}

/// Whether a character stands between two pieces.
pub open spec fn splits(style: Style, c: char) -> bool {
    match style {
        Style::Unix => c == '/',
        Style::Windows => c == '/' || c == '\\',
        Style::Verbatim => c == '\\',
    }
}

fn is_split(style: Style, c: char) -> (r: bool)
    ensures
        r == splits(style, c),
{
    match style {
        Style::Unix => c == '/',
        Style::Windows => c == '/' || c == '\\',
        Style::Verbatim => c == '\\',
    }
}

/// Where the piece that begins at `at` ends.
pub open spec fn piece_end(style: Style, s: Seq<char>, at: int) -> int
    decreases s.len() - at,
{
    if at >= s.len() {
        s.len() as int
    } else if splits(style, s[at]) {
        at
    } else {
        piece_end(style, s, at + 1)
    }
}

pub proof fn lemma_piece_end(style: Style, s: Seq<char>, at: int)
    requires
        0 <= at <= s.len(),
    ensures
        at <= piece_end(style, s, at) <= s.len(),
    decreases s.len() - at,
{
    if at < s.len() && !splits(style, s[at]) {
        lemma_piece_end(style, s, at + 1);
    }
}

/// Where the piece that begins at `at` ends.
fn end_of_piece(style: Style, v: &Vec<char>, at: usize) -> (r: usize)
    requires
        at <= v@.len(),
    ensures
        r == piece_end(style, v@, at as int),
        at <= r <= v@.len(),
{
    let mut to: usize = at;
    while to < v.len() && !is_split(style, v[to])
        invariant
            at <= to <= v@.len(),
            piece_end(style, v@, at as int) == piece_end(style, v@, to as int),
        decreases v@.len() - to,
    {
        to = to + 1;
    }
    to
}

/// The shapes of the prefix that a path may begin with. Only paths on Windows
/// have one.
#[derive(Debug, Clone, Copy, PartialEq, Eq, Structural)]
pub enum Shape {
    /// No prefix.
    Bare,
    /// `\\?\name`
    Verbatim,
    /// `\\?\UNC\server\share`
    VerbatimShare,
    /// `\\?\C:`
    VerbatimDrive,
    /// `\\.\name`
    Device,
    /// `\\server\share`
    Share,
    /// `C:`
    Drive,
}

/// The prefix that a path begins with: it ends at `to`. The name of a device,
/// of a server or of a drive lies from `from` up to `mid`, and that of a share
/// behind `mid`.
pub ghost struct Prefix {
    pub shape: Shape,
    pub from: int,
    pub mid: int,
    pub to: int,
}

/// Whether the letter of a drive and its colon stand at `at`.
pub open spec fn is_drive_at(s: Seq<char>, at: int) -> bool {
    at + 2 <= s.len() && is_letter(s[at]) && s[at + 1] == ':'
}

/// A server from `at` on, and its share where one follows.
pub open spec fn share_at(shape: Shape, style: Style, s: Seq<char>, at: int) -> Prefix {
    let mid = piece_end(style, s, at);
    let end = piece_end(style, s, mid + 1);
    Prefix {
        shape,
        from: at,
        mid,
        to: if mid < s.len() && end > mid + 1 {
            end
        } else {
            mid
        },
    }
}

/// No prefix.
pub open spec fn bare() -> Prefix {
    Prefix { shape: Shape::Bare, from: 0, mid: 0, to: 0 }
}

/// The prefix that a path begins with.
pub open spec fn prefix(os: Os, s: Seq<char>) -> Prefix {
    if !(os is Windows) {
        bare()
    } else if !(s.len() >= 2 && is_separator(os, s[0]) && is_separator(os, s[1])) {
        if is_drive_at(s, 0) {
            Prefix { shape: Shape::Drive, from: 0, mid: 1, to: 2 }
        } else {
            bare()
        }
    } else if s.len() >= 4 && s[0] == '\\' && s[1] == '\\' && s[2] == '?' && s[3] == '\\' {
        if s.len() >= 8 && s[4] == 'U' && s[5] == 'N' && s[6] == 'C' && is_separator(os, s[7]) {
            share_at(Shape::VerbatimShare, Style::Verbatim, s, 8)
        } else if is_drive_at(s, 4) && (s.len() == 6 || is_separator(os, s[6])) {
            Prefix { shape: Shape::VerbatimDrive, from: 4, mid: 5, to: 6 }
        } else {
            let end = piece_end(Style::Verbatim, s, 4);
            Prefix { shape: Shape::Verbatim, from: 4, mid: end, to: end }
        }
    } else if s.len() >= 4 && s[2] == '.' && is_separator(os, s[3]) {
        let end = piece_end(Style::Windows, s, 4);
        Prefix { shape: Shape::Device, from: 4, mid: end, to: end }
    } else {
        let p = share_at(Shape::Share, Style::Windows, s, 2);
        if p.from < p.mid < p.to {
            p
        } else {
            bare()
        }
    }
}

pub proof fn lemma_prefix(os: Os, s: Seq<char>)
    ensures
        ({
            let p = prefix(os, s);
            &&& 0 <= p.from <= p.mid <= p.to <= s.len()
            &&& p.shape is Bare == (p.to == 0)
            &&& p.shape is Drive || p.shape is VerbatimDrive ==> p.from < s.len()
            &&& !(os is Windows) ==> p.shape is Bare
        }),
{
    if os is Windows && s.len() >= 2 {
        lemma_piece_end(Style::Windows, s, 2);
        let mid = piece_end(Style::Windows, s, 2);
        if mid < s.len() {
            lemma_piece_end(Style::Windows, s, mid + 1);
        }
        if s.len() >= 4 {
            lemma_piece_end(Style::Windows, s, 4);
            lemma_piece_end(Style::Verbatim, s, 4);
        }
        if s.len() >= 8 {
            lemma_piece_end(Style::Verbatim, s, 8);
            let mid = piece_end(Style::Verbatim, s, 8);
            if mid < s.len() {
                lemma_piece_end(Style::Verbatim, s, mid + 1);
            }
        }
    }
}

/// How long the prefix is that a path begins with: its drive, its network
/// share or the like.
pub open spec fn drive_len(os: Os, s: Seq<char>) -> nat {
    prefix(os, s).to as nat
}

/// Whether a prefix has what follows it taken word for word.
pub open spec fn is_verbatim(shape: Shape) -> bool {
    shape is Verbatim || shape is VerbatimShare || shape is VerbatimDrive
}

/// How a path is cut into pieces.
pub open spec fn style(os: Os, s: Seq<char>) -> Style {
    if is_verbatim(prefix(os, s).shape) {
        Style::Verbatim
    } else if os is Windows {
        Style::Windows
    } else {
        Style::Unix
    }
}

/// Whether a separator follows the prefix of a path.
pub open spec fn has_root(os: Os, s: Seq<char>) -> bool {
    drive_len(os, s) < s.len() && is_separator(os, s[drive_len(os, s) as int])
}

/// Whether a prefix stands for a root of its own.
pub open spec fn implies_root(shape: Shape) -> bool {
    shape is Share || shape is Device
}

fn letter(c: char) -> (r: bool)
    ensures
        r == is_letter(c),
{
    ('a' <= c && c <= 'z') || ('A' <= c && c <= 'Z')
}

fn drive_at(v: &Vec<char>, at: usize) -> (r: bool)
    requires
        at <= v@.len(),
    ensures
        r == is_drive_at(v@, at as int),
{
    v.len() - at >= 2 && letter(v[at]) && v[at + 1] == ':'
}

/// A server from `at` on, and its share where one follows: their ends.
fn share_of(style: Style, v: &Vec<char>, at: usize) -> (r: (usize, usize))
    requires
        at <= v@.len(),
    ensures
        forall|shape: Shape| #[trigger]
            share_at(shape, style, v@, at as int) == (Prefix {
                shape,
                from: at as int,
                mid: r.0 as int,
                to: r.1 as int,
            }),
        at <= r.0 <= r.1 <= v@.len(),
{
    let mid: usize = end_of_piece(style, v, at);
    if mid < v.len() {
        let end: usize = end_of_piece(style, v, mid + 1);
        if end > mid + 1 {
            return (mid, end);
        }
    }
    (mid, mid)
}

/// The prefix that a path begins with: its shape, and its places.
fn prefix_of(os: Os, v: &Vec<char>) -> (r: (Shape, usize, usize, usize))
    ensures
        prefix(os, v@) == (Prefix {
            shape: r.0,
            from: r.1 as int,
            mid: r.2 as int,
            to: r.3 as int,
        }),
        r.1 <= r.2 <= r.3 <= v@.len(),
        r.0 is Bare == (r.3 == 0),
{
    proof {
        lemma_prefix(os, v@);
    }
    let n: usize = v.len();
    if os != Os::Windows {
        return (Shape::Bare, 0, 0, 0);
    }
    if !(n >= 2 && separates(os, v[0]) && separates(os, v[1])) {
        return if drive_at(v, 0) {
            (Shape::Drive, 0, 1, 2)
        } else {
            (Shape::Bare, 0, 0, 0)
        };
    }
    if n >= 4 && v[0] == '\\' && v[1] == '\\' && v[2] == '?' && v[3] == '\\' {
        if n >= 8 && v[4] == 'U' && v[5] == 'N' && v[6] == 'C' && separates(os, v[7]) {
            let (mid, to) = share_of(Style::Verbatim, v, 8);
            return (Shape::VerbatimShare, 8, mid, to);
        }
        if drive_at(v, 4) && (n == 6 || separates(os, v[6])) {
            return (Shape::VerbatimDrive, 4, 5, 6);
        }
        let end: usize = end_of_piece(Style::Verbatim, v, 4);
        return (Shape::Verbatim, 4, end, end);
    }
    if n >= 4 && v[2] == '.' && separates(os, v[3]) {
        let end: usize = end_of_piece(Style::Windows, v, 4);
        return (Shape::Device, 4, end, end);
    }
    let (mid, to) = share_of(Style::Windows, v, 2);
    if 2 < mid && mid < to {
        (Shape::Share, 2, mid, to)
    } else {
        (Shape::Bare, 0, 0, 0)
    }
}

/// How a path is cut into pieces.
fn style_of(os: Os, shape: Shape) -> (r: Style)
    ensures
        forall|s: Seq<char>| prefix(os, s).shape == shape ==> r == #[trigger] style(os, s),
{
    match shape {
        Shape::Verbatim => Style::Verbatim,
        Shape::VerbatimShare => Style::Verbatim,
        Shape::VerbatimDrive => Style::Verbatim,
        _ => if os == Os::Windows {
            Style::Windows
        } else {
            Style::Unix
        },
    }
}

/// What a piece is, or none where it says nothing: an empty piece, and a `.`
/// where it does not count.
pub open spec fn piece_kind(p: Seq<char>, dot: bool) -> Option<Kind> {
    if p.len() == 0 {
        None
    } else if p == seq!['.'] {
        if dot {
            Some(Kind::Current)
        } else {
            None
        }
    } else if p == seq!['.', '.'] {
        Some(Kind::Parent)
    } else {
        Some(Kind::Name)
    }
}

/// The parts of a path from `at` on; `first` tells whether nothing comes
/// before them.
pub open spec fn parts_from(style: Style, s: Seq<char>, at: int, first: bool) -> Seq<PartV>
    decreases s.len() + 1 - at,
    when 0 <= at
    via parts_from_ends
{
    if at >= s.len() {
        seq![]
    } else {
        let to = piece_end(style, s, at);
        let rest = parts_from(style, s, to + 1, false);
        match piece_kind(s.subrange(at, to), first || style is Verbatim) {
            Some(kind) => seq![PartV { kind, from: at, to }] + rest,
            None => rest,
        }
    }
}

#[via_fn]
proof fn parts_from_ends(style: Style, s: Seq<char>, at: int, first: bool) {
    if at < s.len() {
        lemma_piece_end(style, s, at);
    }
}

/// Where the parts behind the prefix and the root begin.
pub open spec fn body_at(os: Os, s: Seq<char>) -> int {
    if has_root(os, s) {
        (drive_len(os, s) + 1) as int
    } else {
        drive_len(os, s) as int
    }
}

/// The parts of a path behind the prefix and the root.
pub open spec fn body(os: Os, s: Seq<char>) -> Seq<PartV> {
    parts_from(style(os, s), s, body_at(os, s), body_at(os, s) == 0)
}

/// The parts of a path.
pub open spec fn parts(os: Os, s: Seq<char>) -> Seq<PartV> {
    let d = drive_len(os, s);
    let drive: Seq<PartV> = if d > 0 {
        seq![PartV { kind: Kind::Drive, from: 0, to: d as int }]
    } else {
        seq![]
    };
    let root: Seq<PartV> = if has_root(os, s) {
        seq![PartV { kind: Kind::Root, from: d as int, to: (d + 1) as int }]
    } else if implies_root(prefix(os, s).shape) {
        seq![PartV { kind: Kind::Root, from: d as int, to: d as int }]
    } else {
        seq![]
    };
    drive + root + body(os, s)
}

/// What the piece of `v` from `from` up to `to` is.
fn kind_of(v: &Vec<char>, from: usize, to: usize, first: bool) -> (r: Option<Kind>)
    requires
        from <= to <= v@.len(),
    ensures
        r == piece_kind(v@.subrange(from as int, to as int), first),
{
    let ghost p = v@.subrange(from as int, to as int);
    if from == to {
        None
    } else if to - from == 1 && v[from] == '.' {
        assert(p =~= seq!['.']);
        if first {
            Some(Kind::Current)
        } else {
            None
        }
    } else if to - from == 2 && v[from] == '.' && v[from + 1] == '.' {
        assert(p =~= seq!['.', '.']);
        Some(Kind::Parent)
    } else {
        assert(p != seq!['.']) by {
            assert(p[0] == v@[from as int]);
        }
        assert(p != seq!['.', '.']) by {
            assert(p[0] == v@[from as int]);
            if p.len() == 2 {
                assert(p[1] == v@[from + 1]);
            }
        }
        Some(Kind::Name)
    }
}

/// The parts of a path.
pub fn parts_of(os: Os, v: &Vec<char>) -> (r: Vec<Part>)
    ensures
        seen(r@) == parts(os, v@),
        forall|i: int|
            0 <= i < r@.len() ==> (#[trigger] r@[i]).from <= r@[i].to <= v@.len(),
{
    let ghost s = v@;
    let n: usize = v.len();
    let mut r: Vec<Part> = Vec::new();
    let (shape, _, _, d) = prefix_of(os, v);
    let how: Style = style_of(os, shape);
    let mut at: usize = d;
    if d > 0 {
        r.push(Part { kind: Kind::Drive, from: 0, to: d });
    }
    if at < n && separates(os, v[at]) {
        r.push(Part { kind: Kind::Root, from: at, to: at + 1 });
        at = at + 1;
    } else if shape == Shape::Share || shape == Shape::Device {
        r.push(Part { kind: Kind::Root, from: at, to: at });
    }
    let mut first: bool = at == 0;
    assert(how == style(os, s));
    assert(seen(r@) + parts_from(how, s, at as int, first) =~= parts(os, s));
    while at < n
        invariant
            n == v@.len(),
            s == v@,
            at <= n,
            seen(r@) + parts_from(how, s, at as int, first) == parts(os, s),
            forall|i: int|
                0 <= i < r@.len() ==> (#[trigger] r@[i]).from <= r@[i].to <= v@.len(),
        decreases n - at,
    {
        let ghost r0 = seen(r@);
        let to: usize = end_of_piece(how, v, at);
        let ghost rest = parts_from(how, s, to + 1, false);
        if let Some(kind) = kind_of(v, at, to, first || how == Style::Verbatim) {
            r.push(Part { kind, from: at, to });
            assert(seen(r@) + rest =~= r0 + parts_from(how, s, at as int, first));
        }
        first = false;
        if to < n {
            at = to + 1;
        } else {
            at = n;
            assert(rest =~= Seq::<PartV>::empty());
            assert(parts_from(how, s, n as int, false) =~= Seq::<PartV>::empty());
        }
    }
    assert(seen(r@) + parts_from(how, s, at as int, first) =~= seen(r@));
    r
}

/// The name that a path ends with, where it ends with one.
pub open spec fn name(os: Os, s: Seq<char>) -> Option<Seq<char>> {
    let p = parts(os, s);
    if p.len() > 0 && p.last().kind is Name {
        Some(s.subrange(p.last().from as int, p.last().to as int))
    } else {
        None
    }
}

/// The name that a path ends with, where it ends with one.
pub fn file_name(os: Os, path: &str) -> (r: Option<String>)
    ensures
        r is Some == name(os, path@) is Some,
        r is Some ==> r->0@ == name(os, path@)->0,
{
    let v = chars_of(path);
    let p = parts_of(os, &v);
    if p.len() == 0 {
        return None;
    }
    let last: Part = p[p.len() - 1];
    assert(seen(p@).last() == last@);
    match last.kind {
        Kind::Name => Some(string_of(&v, last.from, last.to)),
        _ => None,
    }
}

/// The last place of a point, or -1.
pub open spec fn last_point(s: Seq<char>) -> int
    decreases s.len(),
{
    if s.len() == 0 {
        -1
    } else if s.last() == '.' {
        s.len() - 1
    } else {
        last_point(s.drop_last())
    }
}

/// A name without its extension. (A name that begins with its only point has
/// none.)
pub open spec fn stem_of(name: Seq<char>) -> Seq<char> {
    if last_point(name) > 0 {
        name.take(last_point(name))
    } else {
        name
    }
}

/// The extension of a name: what follows its last point.
pub open spec fn extension_of(name: Seq<char>) -> Option<Seq<char>> {
    if last_point(name) > 0 {
        Some(name.skip(last_point(name) + 1))
    } else {
        None
    }
}

/// The last place of a point in `v`, where there is one.
fn find_last_point(v: &Vec<char>) -> (r: Option<usize>)
    ensures
        r is Some == (last_point(v@) >= 0),
        r is Some ==> r->0 == last_point(v@) && r->0 < v@.len(),
{
    let mut i: usize = v.len();
    assert(v@.take(i as int) =~= v@);
    while i > 0
        invariant
            i <= v@.len(),
            last_point(v@) == last_point(v@.take(i as int)),
        decreases i,
    {
        let ghost t = v@.take(i as int);
        i = i - 1;
        assert(t.last() == v@[i as int]);
        assert(t.drop_last() =~= v@.take(i as int));
        if v[i] == '.' {
            return Some(i);
        }
    }
    None
}

/// The extension of the file at a path.
pub open spec fn suffix(os: Os, path: Seq<char>) -> Option<Seq<char>> {
    match name(os, path) {
        Some(n) => extension_of(n),
        None => None,
    }
}

/// The extension of the file at a path.
pub fn extension(os: Os, path: &str) -> (r: Option<String>)
    ensures
        r is Some == suffix(os, path@) is Some,
        r is Some ==> r->0@ == suffix(os, path@)->0,
{
    match file_name(os, path) {
        Some(n) => {
            let v = chars_of(&n);
            let len: usize = v.len();
            match find_last_point(&v) {
                Some(i) => if i > 0 {
                    assert(v@.subrange(i + 1, v@.len() as int) =~= v@.skip(i + 1));
                    Some(string_of(&v, i + 1, len))
                } else {
                    None
                },
                None => None,
            }
        },
        None => None,
    }
}

/// The name of the file at a path, without its extension.
pub open spec fn stem(os: Os, path: Seq<char>) -> Option<Seq<char>> {
    match name(os, path) {
        Some(n) => Some(stem_of(n)),
        None => None,
    }
}

/// The name of the file at a path, without its extension.
pub fn file_stem(os: Os, path: &str) -> (r: Option<String>)
    ensures
        r is Some == stem(os, path@) is Some,
        r is Some ==> r->0@ == stem(os, path@)->0,
{
    match file_name(os, path) {
        Some(n) => {
            let v = chars_of(&n);
            match find_last_point(&v) {
                Some(i) => if i > 0 {
                    assert(v@.subrange(0, i as int) =~= v@.take(i as int));
                    Some(string_of(&v, 0, i))
                } else {
                    Some(n)
                },
                None => Some(n),
            }
        },
        None => None,
    }
}

/// The path without its last part, where that is not a root or a drive.
pub open spec fn above(os: Os, s: Seq<char>) -> Option<Seq<char>> {
    let p = parts(os, s);
    if p.len() == 0 || p.last().kind is Root || p.last().kind is Drive {
        None
    } else if p.len() == 1 {
        Some(seq![])
    } else {
        Some(s.take(p[p.len() - 2].to as int))
    }
}

/// The path without its last part.
pub fn parent(os: Os, path: &str) -> (r: Option<String>)
    ensures
        r is Some == above(os, path@) is Some,
        r is Some ==> r->0@ == above(os, path@)->0,
{
    let v = chars_of(path);
    let p = parts_of(os, &v);
    if p.len() == 0 {
        return None;
    }
    assert(seen(p@).last() == p@.last()@);
    match p[p.len() - 1].kind {
        Kind::Root => None,
        Kind::Drive => None,
        _ => if p.len() == 1 {
            Some(String::new())
        } else {
            let to: usize = p[p.len() - 2].to;
            assert(seen(p@)[p@.len() - 2] == p@[p@.len() - 2]@);
            assert(v@.subrange(0, to as int) =~= v@.take(to as int));
            Some(string_of(&v, 0, to))
        },
    }
}

/// The separator that is written between two parts.
pub open spec fn separator(os: Os) -> Seq<char> {
    if os is Windows {
        "\\"@
    } else {
        "/"@
    }
}

/// The separator that is written on Windows.
pub open spec fn backslash() -> Seq<char> {
    "\\"@
}

/// A part of a path by itself: what it is, and its text.
pub open spec fn part_text(s: Seq<char>, p: PartV) -> (Kind, Seq<char>) {
    (
        p.kind,
        if p.kind is Root {
            backslash()
        } else {
            s.subrange(p.from, p.to)
        },
    )
}

/// The parts of a path by themselves.
pub open spec fn part_texts(os: Os, s: Seq<char>) -> Seq<(Kind, Seq<char>)> {
    parts(os, s).map_values(|p: PartV| part_text(s, p))
}

/// Where one more part leads from a place: a root back to the prefix, `.`
/// nowhere, `..` out of a directory again, and a name into one.
pub open spec fn stepped(at: Seq<(Kind, Seq<char>)>, c: (Kind, Seq<char>)) -> Seq<
    (Kind, Seq<char>),
> {
    match c.0 {
        Kind::Root => if at.len() > 0 {
            at.take(1).push(c)
        } else {
            at.push(c)
        },
        Kind::Current => at,
        Kind::Parent => if at.len() > 0 && at.last().0 is Name {
            at.drop_last()
        } else {
            at
        },
        _ => at.push(c),
    }
}

/// Where parts lead from a place, one after the other.
pub open spec fn walked(at: Seq<(Kind, Seq<char>)>, steps: Seq<(Kind, Seq<char>)>) -> Seq<
    (Kind, Seq<char>),
>
    decreases steps.len(),
{
    if steps.len() == 0 {
        at
    } else {
        stepped(walked(at, steps.drop_last()), steps.last())
    }
}

/// Parts written one behind the other, with a separator between those that are
/// not the root.
pub open spec fn spelled(v: Seq<(Kind, Seq<char>)>) -> Seq<char>
    decreases v.len(),
{
    if v.len() == 0 {
        seq![]
    } else {
        spelled(v.drop_last()) + (if v.len() >= 2 && !(v[v.len() - 2].0 is Root) && !(v.last().0
            is Root) {
            backslash()
        } else {
            seq![]
        }) + v.last().1
    }
}

/// A name inside a directory. A name that starts from a root or a prefix of its
/// own is not inside: it stands alone, but for the prefix of the directory
/// where it has none. Behind a prefix that is taken word for word, nothing
/// would undo doubled separators and dots later, so the path is spelled anew.
pub open spec fn inside(os: Os, dir: Seq<char>, name: Seq<char>) -> Seq<char> {
    let d = drive_len(os, dir);
    if drive_len(os, name) > 0 {
        name
    } else if is_verbatim(prefix(os, dir).shape) && name.len() > 0 {
        spelled(walked(part_texts(os, dir), part_texts(os, name)))
    } else if has_root(os, name) {
        dir.take(d as int) + name
    } else if dir.len() == 0 || is_separator(os, dir.last()) || (prefix(os, dir).shape is Drive
        && dir.len() == d) {
        dir + name
    } else {
        dir + separator(os) + name
    }
}

/// What parts say.
spec fn said(v: Seq<(Kind, String)>) -> Seq<(Kind, Seq<char>)> {
    v.map_values(|p: (Kind, String)| (p.0, p.1@))
}

/// The parts of a path by themselves.
fn texts_of_parts(os: Os, v: &Vec<char>) -> (r: Vec<(Kind, String)>)
    ensures
        said(r@) == part_texts(os, v@),
{
    let p = parts_of(os, v);
    let mut r: Vec<(Kind, String)> = Vec::new();
    let mut i: usize = 0;
    while i < p.len()
        invariant
            i <= p@.len(),
            r@.len() == i,
            seen(p@) == parts(os, v@),
            forall|j: int| 0 <= j < p@.len() ==> (#[trigger] p@[j]).from <= p@[j].to <= v@.len(),
            forall|j: int| 0 <= j < i ==> said(r@)[j] == part_text(v@, #[trigger] seen(p@)[j]),
        decreases p@.len() - i,
    {
        let part: Part = p[i];
        assert(part@ == seen(p@)[i as int] && part == p@[i as int]);
        let ghost before = said(r@);
        let t: String = match part.kind {
            Kind::Root => "\\".to_owned(),
            _ => string_of(v, part.from, part.to),
        };
        r.push((part.kind, t));
        assert(said(r@) =~= before.push(part_text(v@, part@)));
        i = i + 1;
    }
    assert(said(r@) =~= part_texts(os, v@));
    r
}

/// Takes one more part from a place.
fn take_step(at: &mut Vec<(Kind, String)>, c: (Kind, String))
    ensures
        said(final(at)@) == stepped(said(old(at)@), (c.0, c.1@)),
{
    let ghost start = at@;
    match c.0 {
        Kind::Root => {
            while at.len() > 1
                invariant
                    at@.len() <= start.len(),
                    at@ == start.take(at@.len() as int),
                    start.len() > 0 ==> at@.len() > 0,
                decreases at@.len(),
            {
                let ghost now = at@;
                at.pop();
                assert(at@ =~= start.take(at@.len() as int)) by {
                    assert(at@ =~= now.drop_last());
                }
            }
            at.push(c);
            assert(said(at@) =~= stepped(said(start), (c.0, c.1@)));
        },
        Kind::Current => {},
        Kind::Parent => {
            if at.len() > 0 {
                let last: Kind = at[at.len() - 1].0;
                assert(said(start).last().0 == last);
                if last == Kind::Name {
                    at.pop();
                    assert(said(at@) =~= said(start).drop_last());
                }
            }
        },
        _ => {
            at.push(c);
            assert(said(at@) =~= said(start).push((c.0, c.1@)));
        },
    }
}

/// Parts written one behind the other.
fn spell(v: &Vec<(Kind, String)>) -> (r: String)
    ensures
        r@ == spelled(said(v@)),
{
    let ghost all = said(v@);
    let mut r: String = String::new();
    let mut i: usize = 0;
    assert(r@ =~= spelled(all.take(0)));
    while i < v.len()
        invariant
            i <= v@.len(),
            all == said(v@),
            r@ == spelled(all.take(i as int)),
        decreases v@.len() - i,
    {
        proof {
            let now = all.take(i + 1);
            assert(now.drop_last() =~= all.take(i as int));
            assert(now.last() == (v@[i as int].0, v@[i as int].1@));
            if i > 0 {
                assert(now[i - 1] == (v@[i - 1].0, v@[i - 1].1@));
            }
        }
        let kind: Kind = v[i].0;
        let apart: bool = i > 0 && v[i - 1].0 != Kind::Root && kind != Kind::Root;
        let ghost before = r@;
        if apart {
            r = r.concat("\\");
        }
        r = r.concat(&v[i].1);
        assert(r@ =~= before + (if apart {
            backslash()
        } else {
            seq![]
        }) + v@[i as int].1@);
        i = i + 1;
    }
    assert(all.take(v@.len() as int) =~= all);
    r
}

/// A name inside a directory whose prefix is taken word for word.
fn join_anew(os: Os, v: &Vec<char>, w: &Vec<char>) -> (r: String)
    ensures
        r@ == spelled(walked(part_texts(os, v@), part_texts(os, w@))),
{
    let mut at: Vec<(Kind, String)> = texts_of_parts(os, v);
    let steps: Vec<(Kind, String)> = texts_of_parts(os, w);
    let ghost (start, all) = (said(at@), said(steps@));
    let mut i: usize = 0;
    assert(all.take(0) =~= seq![]);
    while i < steps.len()
        invariant
            i <= steps@.len(),
            all == said(steps@),
            said(at@) == walked(start, all.take(i as int)),
        decreases steps@.len() - i,
    {
        proof {
            let now = all.take(i + 1);
            assert(now.drop_last() =~= all.take(i as int));
            assert(now.last() == (steps@[i as int].0, steps@[i as int].1@));
        }
        let c: (Kind, String) = (steps[i].0, steps[i].1.clone());
        take_step(&mut at, c);
        i = i + 1;
    }
    assert(all.take(steps@.len() as int) =~= all);
    spell(&at)
}

/// A name inside a directory.
pub fn join(os: Os, dir: &str, name: &str) -> (r: String)
    ensures
        r@ == inside(os, dir@, name@),
{
    let v = chars_of(dir);
    let w = chars_of(name);
    let (shape, _, _, d) = prefix_of(os, &v);
    let (_, _, _, own) = prefix_of(os, &w);
    if own > 0 {
        name.to_owned()
    } else if w.len() > 0 && (shape == Shape::Verbatim || shape == Shape::VerbatimShare || shape
        == Shape::VerbatimDrive) {
        join_anew(os, &v, &w)
    } else if w.len() > 0 && separates(os, w[0]) {
        assert(v@.subrange(0, d as int) =~= v@.take(d as int));
        joined(&string_of(&v, 0, d), name)
    } else if v.len() == 0 || separates(os, v[v.len() - 1]) || (shape == Shape::Drive && v.len()
        == d) {
        joined(dir, name)
    } else if os == Os::Windows {
        joined(dir, "\\").concat(name)
    } else {
        joined(dir, "/").concat(name)
    }
}

/// Whether a text can be the name of a file: it is not empty, leads nowhere
/// else, and holds no separator.
pub open spec fn is_plain_name(os: Os, name: Seq<char>) -> bool {
    &&& name.len() > 0 && name != seq!['.'] && name != seq!['.', '.']
    &&& drive_len(os, name) == 0
    &&& forall|i: int| 0 <= i < name.len() ==> !is_separator(os, #[trigger] name[i])
}

/// The name of what is inside a directory is the name that it has there. (On
/// Windows a directory that is only the beginning of a prefix, such as a server
/// without a share, takes the name into that prefix instead.)
pub proof fn law_name_inside(os: Os, dir: Seq<char>, name: Seq<char>)
    requires
        is_plain_name(os, name),
        drive_len(os, inside(os, dir, name)) == drive_len(os, dir),
    ensures
        self::name(os, inside(os, dir, name)) == Some(name),
{
    reveal_strlit("/");
    reveal_strlit("\\");
    assert(!is_separator(os, name[0]));
    let s = inside(os, dir, name);
    let d = drive_len(os, dir);
    let anew = is_verbatim(prefix(os, dir).shape);
    let front = if anew {
        start_of(os, dir, seq![])
    } else if dir.len() == 0 || is_separator(os, dir.last()) || (prefix(os, dir).shape is Drive
        && dir.len() == d) {
        dir
    } else {
        dir + separator(os)
    };
    lemma_prefix(os, dir);
    lemma_prefix(os, s);
    let how = style(os, s);
    if anew {
        assert(seq![] + name =~= name);
        lemma_inside_anew(os, dir, seq![], name);
        lemma_start_is_long(os, dir);
    } else {
        assert(s =~= front + name);
        assert(how == style(os, dir)) by {
            if os is Windows && dir.len() >= 4 {
                assert(s[0] == dir[0] && s[1] == dir[1] && s[2] == dir[2] && s[3] == dir[3]);
            }
        }
    }
    let root = has_root(os, s);
    assert(root ==> d < front.len()) by {
        if root && d == front.len() {
            assert(s[d as int] == name[0]);
        }
    }
    let at = body_at(os, s);
    if front.len() > 0 && !splits(how, front.last()) {
        assert(front.len() == d && front == dir);
    } else if front.len() > 0 {
        assert(s[front.len() - 1] == front.last());
    }
    assert(s.subrange(front.len() as int, s.len() as int) =~= name);
    assert forall|i: int| front.len() <= i < s.len() implies !splits(how, #[trigger] s[i]) by {
        assert(s[i] == name[i - front.len()]);
        assert(!is_separator(os, name[i - front.len()]));
    }
    lemma_last_part(how, s, front.len() as int, at, at == 0);
    let p = parts(os, s);
    let tail = body(os, s);
    assert(p.last() == tail.last());
}

/// The parts, by themselves, of a text without a prefix that is empty or ends
/// with a separator.
pub open spec fn lead(q: Seq<char>) -> Seq<(Kind, Seq<char>)> {
    let root = q.len() > 0 && splits(Style::Windows, q[0]);
    (if root {
        seq![(Kind::Root, backslash())]
    } else {
        seq![]
    }) + parts_from(
        Style::Windows,
        q,
        if root {
            1
        } else {
            0
        },
        !root,
    ).map_values(|p: PartV| part_text(q, p))
}

/// What stands before the last name where a path is spelled anew, and the names
/// before the last lead through `q`.
pub open spec fn start_of(os: Os, dir: Seq<char>, q: Seq<char>) -> Seq<char> {
    let at = walked(part_texts(os, dir), lead(q));
    spelled(at) + if at.len() > 0 && !(at.last().0 is Root) {
        backslash()
    } else {
        seq![]
    }
}

/// Where a path is spelled anew, its last name ends it.
pub proof fn lemma_inside_anew(os: Os, dir: Seq<char>, q: Seq<char>, z: Seq<char>)
    requires
        is_verbatim(prefix(os, dir).shape),
        drive_len(os, q + z) == 0,
        q.len() > 0 ==> splits(Style::Windows, q.last()),
        z.len() > 0 && z != seq!['.'] && z != seq!['.', '.'],
        forall|i: int| 0 <= i < z.len() ==> !splits(Style::Windows, #[trigger] z[i]),
    ensures
        inside(os, dir, q + z) == start_of(os, dir, q) + z,
{
    let s = q + z;
    lemma_prefix(os, dir);
    lemma_prefix(os, s);
    let st = Style::Windows;
    let root = has_root(os, s);
    let at: int = body_at(os, s);
    assert(s[0] == if q.len() > 0 {
        q[0]
    } else {
        z[0]
    });
    assert(root == (q.len() > 0 && splits(st, q[0])));
    lemma_parts_end(st, q, z, at, !root);
    lemma_names_are_plain(st, q, at, !root);
    let front = parts_from(st, q, at, !root);
    let last = PartV { kind: Kind::Name, from: q.len() as int, to: s.len() as int };
    let (all, steps) = (part_texts(os, s), lead(q).push((Kind::Name, z)));
    assert(all =~= steps) by {
        assert(s.subrange(q.len() as int, s.len() as int) =~= z);
        let k: int = if root {
            1
        } else {
            0
        };
        assert(parts(os, s).len() == k + front.len() + 1);
        assert forall|i: int| 0 <= i < all.len() implies all[i] == steps[i] by {
            if k <= i < k + front.len() {
                let p = front[i - k];
                assert(parts(os, s)[i] == p);
                assert(looks_plain(st, q, p));
                assert(s.subrange(p.from, p.to) =~= q.subrange(p.from, p.to));
            }
        }
    }
    assert(steps.drop_last() =~= lead(q));
    let place = walked(part_texts(os, dir), lead(q));
    let there = place.push((Kind::Name, z));
    assert(walked(part_texts(os, dir), steps) == there);
    assert(there.drop_last() =~= place);
}

/// Where the last name of a text begins: behind its last separator.
pub open spec fn last_at(s: Seq<char>) -> int
    decreases s.len(),
{
    if s.len() == 0 || splits(Style::Windows, s.last()) {
        s.len() as int
    } else {
        last_at(s.drop_last())
    }
}

pub proof fn lemma_last_at(s: Seq<char>)
    ensures
        0 <= last_at(s) <= s.len(),
        last_at(s) > 0 ==> splits(Style::Windows, s[last_at(s) - 1]),
        forall|i: int| last_at(s) <= i < s.len() ==> !splits(Style::Windows, #[trigger] s[i]),
    decreases s.len(),
{
    if s.len() > 0 && !splits(Style::Windows, s.last()) {
        let t = s.drop_last();
        lemma_last_at(t);
        assert(last_at(t) > 0 ==> t[last_at(t) - 1] == s[last_at(t) - 1]);
        assert forall|i: int| last_at(s) <= i < s.len() implies !splits(
            Style::Windows,
            #[trigger] s[i],
        ) by {
            if i < t.len() {
                assert(t[i] == s[i]);
            }
        }
    }
}

/// Where a path is spelled anew, what follows the last name of a text ends it.
pub proof fn lemma_ends_anew(os: Os, dir: Seq<char>, p: Seq<char>, t: Seq<char>)
    requires
        is_verbatim(prefix(os, dir).shape),
        drive_len(os, p + t) == 0,
        p.len() >= last_at(p) + 3,
        forall|i: int| 0 <= i < t.len() ==> !splits(Style::Windows, #[trigger] t[i]),
    ensures
        inside(os, dir, p + t) == start_of(os, dir, p.take(last_at(p))) + p.skip(last_at(p)) + t,
{
    lemma_last_at(p);
    let c = last_at(p);
    let (q, z) = (p.take(c), p.skip(c) + t);
    assert(q + z =~= p + t);
    assert forall|i: int| 0 <= i < z.len() implies !splits(Style::Windows, #[trigger] z[i]) by {
        if i < p.len() - c {
            assert(z[i] == p[i + c]);
        } else {
            assert(z[i] == t[i - (p.len() - c)]);
        }
    }
    lemma_inside_anew(os, dir, q, z);
    assert(start_of(os, dir, q) + z =~= start_of(os, dir, q) + p.skip(c) + t);
}

/// The parts of a text up to its last separator, and the name that follows.
proof fn lemma_parts_end(style: Style, q: Seq<char>, z: Seq<char>, at: int, first: bool)
    requires
        0 <= at <= q.len(),
        at < q.len() ==> splits(style, q.last()),
        z.len() > 0 && z != seq!['.'] && z != seq!['.', '.'],
        forall|i: int| 0 <= i < z.len() ==> !splits(style, #[trigger] z[i]),
    ensures
        parts_from(style, q + z, at, first) == parts_from(style, q, at, first).push(
            PartV { kind: Kind::Name, from: q.len() as int, to: (q + z).len() as int },
        ),
    decreases q.len() - at,
{
    let s = q + z;
    let to = piece_end(style, s, at);
    if at == q.len() {
        assert forall|i: int| at <= i < s.len() implies !splits(style, #[trigger] s[i]) by {
            assert(s[i] == z[i - at]);
        }
        lemma_piece_to_end(style, s, at);
        assert(s.subrange(at, to) =~= z);
        assert(parts_from(style, s, to + 1, false) =~= seq![]);
        assert(parts_from(style, q, at, first) =~= seq![]);
    } else {
        lemma_piece_stops(style, q, at, q.len() - 1);
        assert(q =~= s.take(q.len() as int));
        lemma_piece_same(style, q, s, at);
        lemma_parts_end(style, q, z, to + 1, false);
        assert(s.subrange(at, to) =~= q.subrange(at, to));
        let (rest, own) = (
            parts_from(style, s, to + 1, false),
            parts_from(style, q, to + 1, false),
        );
        assert(parts_from(style, s, at, first) =~= parts_from(style, q, at, first).push(
            PartV { kind: Kind::Name, from: q.len() as int, to: s.len() as int },
        ));
    }
}

/// A piece that ends inside a text ends there in any longer text.
proof fn lemma_piece_same(style: Style, q: Seq<char>, s: Seq<char>, at: int)
    requires
        0 <= at <= q.len() <= s.len(),
        q == s.take(q.len() as int),
        piece_end(style, q, at) < q.len(),
    ensures
        piece_end(style, s, at) == piece_end(style, q, at),
    decreases q.len() - at,
{
    assert(q[at] == s[at]);
    if !splits(style, q[at]) {
        lemma_piece_same(style, q, s, at + 1);
    }
}

/// A directory that is spelled anew begins with its prefix, and a separator
/// follows.
proof fn lemma_start_is_long(os: Os, dir: Seq<char>)
    requires
        is_verbatim(prefix(os, dir).shape),
    ensures
        start_of(os, dir, seq![]).len() > drive_len(os, dir),
        start_of(os, dir, seq![]).last() == '\\',
{
    reveal_strlit("\\");
    lemma_prefix(os, dir);
    let v = part_texts(os, dir);
    assert(lead(seq![]) =~= seq![]);
    assert(parts(os, dir)[0] == (PartV { kind: Kind::Drive, from: 0, to: drive_len(os, dir) as int }));
    assert(v[0].0 is Drive && v[0].1.len() == drive_len(os, dir));
    lemma_spelled_is_long(v);
    if v.last().0 is Root {
        lemma_spelled_is_long(v.drop_last());
        assert(v.drop_last()[0] == v[0]);
        lemma_roots_are_written(os, dir, v.len() - 1);
    }
}

proof fn lemma_roots_are_written(os: Os, s: Seq<char>, i: int)
    requires
        0 <= i < part_texts(os, s).len(),
        part_texts(os, s)[i].0 is Root,
    ensures
        part_texts(os, s)[i].1 == backslash(),
{
}

proof fn lemma_spelled_is_long(v: Seq<(Kind, Seq<char>)>)
    requires
        v.len() > 0,
    ensures
        spelled(v).len() >= v[0].1.len(),
    decreases v.len(),
{
    if v.len() > 1 {
        lemma_spelled_is_long(v.drop_last());
        assert(v.drop_last()[0] == v[0]);
    }
}

/// What follows the last separator is the last part, where it is a name.
proof fn lemma_last_part(style: Style, s: Seq<char>, cut: int, at: int, first: bool)
    requires
        0 <= at <= cut < s.len(),
        at < cut ==> splits(style, s[cut - 1]),
        forall|i: int| cut <= i < s.len() ==> !splits(style, #[trigger] s[i]),
        s.subrange(cut, s.len() as int) != seq!['.'],
        s.subrange(cut, s.len() as int) != seq!['.', '.'],
    ensures
        ({
            let p = parts_from(style, s, at, first);
            p.len() > 0 && p.last() == (PartV {
                kind: Kind::Name,
                from: cut,
                to: s.len() as int,
            })
        }),
    decreases s.len() - at,
{
    let to = piece_end(style, s, at);
    lemma_piece_end(style, s, at);
    if at == cut {
        lemma_piece_to_end(style, s, at);
        assert(parts_from(style, s, to + 1, false) =~= seq![]);
    } else {
        lemma_piece_stops(style, s, at, cut - 1);
        lemma_last_part(style, s, cut, to + 1, false);
        let rest = parts_from(style, s, to + 1, false);
        let all = parts_from(style, s, at, first);
        assert(all.last() == rest.last());
    }
}

proof fn lemma_piece_to_end(style: Style, s: Seq<char>, at: int)
    requires
        0 <= at <= s.len(),
        forall|i: int| at <= i < s.len() ==> !splits(style, #[trigger] s[i]),
    ensures
        piece_end(style, s, at) == s.len(),
    decreases s.len() - at,
{
    if at < s.len() {
        lemma_piece_to_end(style, s, at + 1);
    }
}

proof fn lemma_piece_stops(style: Style, s: Seq<char>, at: int, stop: int)
    requires
        0 <= at <= stop < s.len(),
        splits(style, s[stop]),
    ensures
        at <= piece_end(style, s, at) <= stop,
    decreases stop - at,
{
    if !splits(style, s[at]) {
        lemma_piece_stops(style, s, at + 1, stop);
    }
}

/// The name that a path ends with can be taken to any other directory, and is
/// the name of what is there then. (On Windows a name that begins like a drive
/// leads to that drive instead, one that is taken word for word may hold what
/// separates names elsewhere, and a directory that is only the beginning of a
/// prefix takes the name into that prefix.)
pub proof fn law_names_can_be_moved(os: Os, s: Seq<char>, dir: Seq<char>)
    requires
        self::name(os, s) is Some,
        drive_len(os, self::name(os, s)->0) == 0,
        style(os, s) is Verbatim ==> is_plain_name(os, self::name(os, s)->0),
        drive_len(os, inside(os, dir, self::name(os, s)->0)) == drive_len(os, dir),
    ensures
        self::name(os, inside(os, dir, self::name(os, s)->0)) == self::name(os, s),
{
    let n = self::name(os, s)->0;
    lemma_name_is_plain(os, s);
    if !(style(os, s) is Verbatim) {
        assert forall|i: int| 0 <= i < n.len() implies !is_separator(os, #[trigger] n[i]) by {
            assert(!splits(style(os, s), n[i]));
        }
    }
    law_name_inside(os, dir, n);
}

/// The name that a path ends with lies inside it and looks like one.
proof fn lemma_name_is_plain(os: Os, s: Seq<char>)
    requires
        self::name(os, s) is Some,
    ensures
        ({
            let n = self::name(os, s)->0;
            &&& 0 < n.len() <= s.len()
            &&& n != seq!['.'] && n != seq!['.', '.']
            &&& forall|i: int| 0 <= i < n.len() ==> !splits(style(os, s), #[trigger] n[i])
        }),
{
    lemma_prefix(os, s);
    let (how, at) = (style(os, s), body_at(os, s));
    let tail = body(os, s);
    lemma_names_are_plain(how, s, at, at == 0);
    let p = parts(os, s);
    assert(p.last() == tail.last()) by {
        if tail.len() == 0 {
            assert(p.last().kind is Drive || p.last().kind is Root);
        }
    }
    assert(looks_plain(how, s, tail[tail.len() - 1]));
}

/// The parts of a path that are names lie inside it and look like names.
proof fn lemma_names_are_plain(style: Style, s: Seq<char>, at: int, first: bool)
    requires
        0 <= at,
    ensures
        forall|i: int| 0 <= i < parts_from(style, s, at, first).len() ==> looks_plain(
            style,
            s,
            #[trigger] parts_from(style, s, at, first)[i],
        ),
    decreases s.len() + 1 - at,
{
    if at < s.len() {
        lemma_piece_end(style, s, at);
        lemma_piece_is_whole(style, s, at);
        let to = piece_end(style, s, at);
        lemma_names_are_plain(style, s, to + 1, false);
        let rest = parts_from(style, s, to + 1, false);
        let all = parts_from(style, s, at, first);
        assert forall|i: int| 0 <= i < all.len() implies looks_plain(style, s, #[trigger] all[i]) by {
            if piece_kind(s.subrange(at, to), first || style is Verbatim) is Some {
                if i > 0 {
                    assert(all[i] == rest[i - 1]);
                }
            } else {
                assert(all[i] == rest[i]);
            }
        }
    }
}

/// Whether a part lies inside a path and, where it is a name, looks like one.
spec fn looks_plain(style: Style, s: Seq<char>, p: PartV) -> bool {
    &&& 0 <= p.from < p.to <= s.len()
    &&& p.kind is Name || p.kind is Parent || p.kind is Current
    &&& p.kind is Name ==> {
        let n = s.subrange(p.from, p.to);
        &&& n != seq!['.'] && n != seq!['.', '.']
        &&& forall|i: int| 0 <= i < n.len() ==> !splits(style, #[trigger] n[i])
    }
}

proof fn lemma_piece_is_whole(style: Style, s: Seq<char>, at: int)
    requires
        0 <= at <= s.len(),
    ensures
        forall|j: int| at <= j < piece_end(style, s, at) ==> !splits(style, #[trigger] s[j]),
    decreases s.len() - at,
{
    if at < s.len() && !splits(style, s[at]) {
        lemma_piece_is_whole(style, s, at + 1);
    }
}

proof fn lemma_piece_at_split(style: Style, s: Seq<char>, at: int)
    requires
        0 <= at <= s.len(),
    ensures
        piece_end(style, s, at) < s.len() ==> splits(style, s[piece_end(style, s, at)]),
    decreases s.len() - at,
{
    if at < s.len() && !splits(style, s[at]) {
        lemma_piece_at_split(style, s, at + 1);
    }
}

proof fn lemma_piece_skip(style: Style, s: Seq<char>, at: int, k: int)
    requires
        0 <= at <= k <= s.len(),
        forall|j: int| at <= j < k ==> !splits(style, #[trigger] s[j]),
    ensures
        piece_end(style, s, at) == piece_end(style, s, k),
    decreases k - at,
{
    if at < k {
        lemma_piece_skip(style, s, at + 1, k);
    }
}

proof fn lemma_piece_shift(style: Style, s: Seq<char>, e: Seq<char>, i: int)
    requires
        0 <= i <= e.len() <= s.len(),
        s.skip(s.len() - e.len()) == e,
    ensures
        piece_end(style, s, s.len() - e.len() + i) == s.len() - e.len() + piece_end(style, e, i),
    decreases e.len() - i,
{
    if i < e.len() {
        assert(e[i] == s[s.len() - e.len() + i]);
        lemma_piece_shift(style, s, e, i + 1);
    }
}

/// Where the server of a share ends, and whether a share follows, in a text
/// `p + m + e` of which `m` holds no separator.
spec fn names_share(p: Seq<char>, e: Seq<char>) -> bool {
    let k = piece_end(Style::Windows, p, 2);
    let j = piece_end(Style::Windows, e, 0);
    if k < p.len() {
        k > 2 && !splits(Style::Windows, p[k + 1])
    } else {
        j + 1 < e.len() && !splits(Style::Windows, e[j + 1])
    }
}

proof fn lemma_names_share(p: Seq<char>, m: Seq<char>, e: Seq<char>)
    requires
        p.len() >= 4,
        !splits(Style::Windows, p.last()),
        forall|i: int| 0 <= i < m.len() ==> !splits(Style::Windows, #[trigger] m[i]),
    ensures
        ({
            let q = share_at(Shape::Share, Style::Windows, p + m + e, 2);
            (q.from < q.mid < q.to) == names_share(p, e)
        }),
{
    let st = Style::Windows;
    let s = p + m + e;
    let k = piece_end(st, p, 2);
    lemma_piece_end(st, p, 2);
    lemma_piece_is_whole(st, p, 2);
    lemma_piece_at_split(st, p, 2);
    assert forall|i: int| 2 <= i < k implies !splits(st, #[trigger] s[i]) by {
        assert(s[i] == p[i]);
    }
    lemma_piece_skip(st, s, 2, k);
    if k < p.len() {
        assert(s[k] == p[k]);
        assert(k + 1 < p.len());
        assert(s[k + 1] == p[k + 1]);
        lemma_piece_end(st, s, k + 2);
        assert(piece_end(st, s, 2) == k);
    } else {
        let at = (p.len() + m.len()) as int;
        assert forall|i: int| k <= i < at implies !splits(st, #[trigger] s[i]) by {
            assert(s[i] == m[i - k]);
        }
        lemma_piece_skip(st, s, k, at);
        assert(s.skip(at) =~= e);
        assert(at == s.len() - e.len());
        lemma_piece_shift(st, s, e, 0);
        lemma_piece_end(st, e, 0);
        let j = piece_end(st, e, 0);
        if j + 1 < e.len() {
            assert(s[at + j + 1] == e[j + 1]);
            lemma_piece_end(st, s, at + j + 2);
        }
    }
}

/// What is put among the later characters of a text, and holds no separator,
/// changes neither whether the text has a prefix nor whether it has a root.
pub proof fn lemma_prefix_stays(os: Os, p: Seq<char>, m: Seq<char>, e: Seq<char>)
    requires
        p.len() >= 4,
        !splits(Style::Windows, p.last()),
        forall|i: int| 0 <= i < m.len() ==> !splits(Style::Windows, #[trigger] m[i]),
    ensures
        (drive_len(os, p + m + e) > 0) == (drive_len(os, p + e) > 0),
        drive_len(os, p + e) == 0 ==> has_root(os, p + m + e) == has_root(os, p + e),
{
    let (a, b) = (p + m + e, p + e);
    lemma_names_share(p, m, e);
    lemma_names_share(p, seq![], e);
    assert(p + Seq::<char>::empty() + e =~= b);
    lemma_prefix(os, a);
    lemma_prefix(os, b);
    assert(a[0] == p[0] && a[1] == p[1] && a[2] == p[2] && a[3] == p[3]);
    assert(b[0] == p[0] && b[1] == p[1] && b[2] == p[2] && b[3] == p[3]);
    if a.len() >= 8 {
        lemma_piece_end(Style::Verbatim, a, 8);
    }
    if b.len() >= 8 {
        lemma_piece_end(Style::Verbatim, b, 8);
    }
    lemma_piece_end(Style::Verbatim, a, 4);
    lemma_piece_end(Style::Verbatim, b, 4);
    lemma_piece_end(Style::Windows, a, 4);
    lemma_piece_end(Style::Windows, b, 4);
}

/// The rank of a part: drives before roots, those before names.
pub open spec fn rank(k: Kind) -> u32 {
    match k {
        Kind::Drive => 1,
        Kind::Root => 2,
        Kind::Current => 3,
        Kind::Parent => 4,
        Kind::Name => 5,
    }
}

/// A drive letter made big.
pub open spec fn upper(c: char) -> u32 {
    if 'a' <= c <= 'z' {
        (c as u32 - 32) as u32
    } else {
        c as u32
    }
}

/// What a text weighs.
pub open spec fn codes(t: Seq<char>) -> Seq<u32> {
    t.map_values(|c: char| (c as u32 + 1) as u32)
}

/// The rank of a prefix.
pub open spec fn shape_rank(shape: Shape) -> u32 {
    match shape {
        Shape::Bare => 0,
        Shape::Verbatim => 1,
        Shape::VerbatimShare => 2,
        Shape::VerbatimDrive => 3,
        Shape::Device => 4,
        Shape::Share => 5,
        Shape::Drive => 6,
    }
}

/// What a prefix weighs: its rank, then what it names.
pub open spec fn prefix_key(s: Seq<char>, p: Prefix) -> Seq<u32> {
    seq![shape_rank(p.shape)] + if p.shape is Drive || p.shape is VerbatimDrive {
        seq![upper(s[p.from])]
    } else {
        codes(s.subrange(p.from, p.mid)) + seq![0u32] + codes(
            s.subrange(
                if p.to > p.mid {
                    p.mid + 1
                } else {
                    p.to
                },
                p.to,
            ),
        )
    }
}

/// What a part weighs in the order of paths: its rank, then the text of a name
/// or what a prefix weighs, then an end that comes before any further text.
pub open spec fn part_key(os: Os, s: Seq<char>, p: PartV) -> Seq<u32> {
    let body: Seq<u32> = match p.kind {
        Kind::Name => codes(s.subrange(p.from, p.to)),
        Kind::Drive => prefix_key(s, prefix(os, s)),
        _ => seq![],
    };
    seq![rank(p.kind)] + body + seq![0u32]
}

/// What the first `n` parts weigh.
pub open spec fn parts_key(os: Os, s: Seq<char>, p: Seq<PartV>, n: nat) -> Seq<u32>
    decreases n,
{
    if n == 0 {
        seq![]
    } else {
        parts_key(os, s, p, (n - 1) as nat) + part_key(os, s, p[n - 1])
    }
}

/// What a path weighs: two paths are the same where their keys are, and come
/// in the order of their keys.
#[verifier::opaque]
pub open spec fn key(os: Os, s: Seq<char>) -> Seq<u32> {
    parts_key(os, s, parts(os, s), parts(os, s).len())
}

/// Whether one key comes before another, from place `i` on.
pub open spec fn less_from(a: Seq<u32>, b: Seq<u32>, i: nat) -> bool
    decreases a.len() + b.len() - i,
{
    if i >= b.len() {
        false
    } else if i >= a.len() {
        true
    } else if a[i as int] == b[i as int] {
        less_from(a, b, i + 1)
    } else {
        a[i as int] < b[i as int]
    }
}

/// Whether one key comes before another.
pub open spec fn less(a: Seq<u32>, b: Seq<u32>) -> bool {
    less_from(a, b, 0)
}

/// Keys are ordered in one line.
pub proof fn law_order_total(a: Seq<u32>, b: Seq<u32>)
    ensures
        a == b ==> !less(a, b),
        a != b ==> less(a, b) != less(b, a),
{
    lemma_total_from(a, b, 0);
    if a != b && a.len() == b.len() {
        assert(exists|i: int| 0 <= i < a.len() && a[i] != b[i]) by {
            if forall|i: int| 0 <= i < a.len() ==> a[i] == b[i] {
                assert(a =~= b);
            }
        }
    }
}

proof fn lemma_total_from(a: Seq<u32>, b: Seq<u32>, i: nat)
    ensures
        a == b ==> !less_from(a, b, i),
        i <= a.len() && i <= b.len() && (a.len() != b.len() || exists|j: int|
            i <= j < a.len() && a[j] != b[j]) ==> less_from(a, b, i) != less_from(b, a, i),
    decreases a.len() + b.len() - i,
{
    if i < a.len() && i < b.len() && a[i as int] == b[i as int] {
        lemma_total_from(a, b, i + 1);
        if a.len() == b.len() && exists|j: int| i <= j < a.len() && a[j] != b[j] {
            let j = choose|j: int| i <= j < a.len() && a[j] != b[j];
            assert(i + 1 <= j);
        }
    }
}

/// What comes before something that comes before a third comes before that.
pub proof fn law_order_transitive(a: Seq<u32>, b: Seq<u32>, c: Seq<u32>)
    requires
        less(a, b),
        less(b, c),
    ensures
        less(a, c),
{
    lemma_transitive_from(a, b, c, 0);
}

proof fn lemma_transitive_from(a: Seq<u32>, b: Seq<u32>, c: Seq<u32>, i: nat)
    requires
        less_from(a, b, i),
        less_from(b, c, i),
    ensures
        less_from(a, c, i),
    decreases a.len() + b.len() + c.len() - i,
{
    if i < a.len() && i < b.len() && i < c.len() && a[i as int] == b[i as int] && b[i as int]
        == c[i as int] {
        lemma_transitive_from(a, b, c, i + 1);
    }
}

/// The code point of a character.
fn code(c: char) -> (r: u32)
    ensures
        r == c as u32,
        r <= 0x10_FFFF,
{
    c as u32
}

/// Appends what the text of `v` from `from` up to `to` weighs.
fn put_codes(r: &mut Vec<u32>, v: &Vec<char>, from: usize, to: usize)
    requires
        from <= to <= v@.len(),
    ensures
        final(r)@ == old(r)@ + codes(v@.subrange(from as int, to as int)),
{
    let ghost start = r@;
    let ghost all = codes(v@.subrange(from as int, to as int));
    let mut i: usize = from;
    assert(r@ =~= start + all.take(0));
    while i < to
        invariant
            from <= i <= to <= v@.len(),
            all == codes(v@.subrange(from as int, to as int)),
            r@ == start + all.take(i - from),
        decreases to - i,
    {
        assert(v@.subrange(from as int, to as int)[i - from] == v@[i as int]);
        r.push(code(v[i]) + 1);
        i = i + 1;
        assert(r@ =~= start + all.take(i - from));
    }
    assert(all.take(to - from) =~= all);
}

/// A drive letter made big.
fn upper_code(c: char) -> (r: u32)
    ensures
        r == upper(c),
{
    if 'a' <= c && c <= 'z' {
        c as u32 - 32
    } else {
        c as u32
    }
}

/// Appends what the prefix of a path weighs.
fn put_prefix_key(r: &mut Vec<u32>, os: Os, v: &Vec<char>)
    ensures
        final(r)@ == old(r)@ + prefix_key(v@, prefix(os, v@)),
{
    proof {
        lemma_prefix(os, v@);
    }
    let (shape, from, mid, to) = prefix_of(os, v);
    r.push(
        match shape {
            Shape::Bare => 0,
            Shape::Verbatim => 1,
            Shape::VerbatimShare => 2,
            Shape::VerbatimDrive => 3,
            Shape::Device => 4,
            Shape::Share => 5,
            Shape::Drive => 6,
        },
    );
    if shape == Shape::Drive || shape == Shape::VerbatimDrive {
        r.push(upper_code(v[from]));
    } else {
        put_codes(r, v, from, mid);
        r.push(0);
        let next: usize = if to > mid {
            mid + 1
        } else {
            to
        };
        put_codes(r, v, next, to);
    }
    assert(r@ =~= old(r)@ + prefix_key(v@, prefix(os, v@)));
}

/// Appends the key of a part.
fn put_part_key(r: &mut Vec<u32>, os: Os, v: &Vec<char>, p: Part)
    requires
        p.from <= p.to <= v@.len(),
    ensures
        final(r)@ == old(r)@ + part_key(os, v@, p@),
{
    let rank: u32 = match p.kind {
        Kind::Drive => 1,
        Kind::Root => 2,
        Kind::Current => 3,
        Kind::Parent => 4,
        Kind::Name => 5,
    };
    r.push(rank);
    match p.kind {
        Kind::Name => put_codes(r, v, p.from, p.to),
        Kind::Drive => put_prefix_key(r, os, v),
        _ => {},
    }
    r.push(0);
    assert(r@ =~= old(r)@ + part_key(os, v@, p@));
}

/// What a path weighs in the order of paths.
pub fn key_of(os: Os, path: &str) -> (r: Vec<u32>)
    ensures
        r@ == key(os, path@),
{
    let v = chars_of(path);
    let p = parts_of(os, &v);
    let mut r: Vec<u32> = Vec::new();
    let mut i: usize = 0;
    while i < p.len()
        invariant
            0 <= i <= p@.len(),
            seen(p@) == parts(os, v@),
            forall|j: int| 0 <= j < p@.len() ==> (#[trigger] p@[j]).from <= p@[j].to <= v@.len(),
            r@ == parts_key(os, v@, seen(p@), i as nat),
        decreases p@.len() - i,
    {
        let part: Part = p[i];
        assert(part == p@[i as int] && part@ == seen(p@)[i as int]);
        put_part_key(&mut r, os, &v, part);
        i = i + 1;
    }
    proof {
        reveal(key);
    }
    r
}

/// Whether two paths are the same.
pub fn same_path(os: Os, a: &str, b: &str) -> (r: bool)
    ensures
        r == (key(os, a@) == key(os, b@)),
{
    let (x, y) = (key_of(os, a), key_of(os, b));
    proof {
        law_order_total(x@, y@);
        law_order_total(y@, x@);
    }
    !key_less(&x, &y) && !key_less(&y, &x)
}

/// Whether a path is a directory or leads to something in it: the parts of the
/// directory, of which there are some, are the first parts of the path.
pub open spec fn within(os: Os, path: Seq<char>, dir: Seq<char>) -> bool {
    let (p, d) = (parts(os, path), parts(os, dir));
    &&& 0 < d.len() <= p.len()
    &&& forall|i: int|
        0 <= i < d.len() ==> part_key(os, path, #[trigger] p[i]) == part_key(os, dir, d[i])
}

/// Whether two parts are the same.
fn same_part(os: Os, v: &Vec<char>, p: Part, w: &Vec<char>, q: Part) -> (r: bool)
    requires
        p.from <= p.to <= v@.len(),
        q.from <= q.to <= w@.len(),
    ensures
        r == (part_key(os, v@, p@) == part_key(os, w@, q@)),
{
    let (mut x, mut y): (Vec<u32>, Vec<u32>) = (Vec::new(), Vec::new());
    put_part_key(&mut x, os, v, p);
    put_part_key(&mut y, os, w, q);
    proof {
        assert(x@ =~= part_key(os, v@, p@));
        assert(y@ =~= part_key(os, w@, q@));
        law_order_total(x@, y@);
    }
    !key_less(&x, &y) && !key_less(&y, &x)
}

/// Whether a path is a directory or leads to something in it.
pub fn lies_in(os: Os, path: &str, dir: &str) -> (r: bool)
    ensures
        r == within(os, path@, dir@),
{
    let (v, w) = (chars_of(path), chars_of(dir));
    let (p, d) = (parts_of(os, &v), parts_of(os, &w));
    if d.len() == 0 || d.len() > p.len() {
        return false;
    }
    let mut i: usize = 0;
    while i < d.len()
        invariant
            i <= d@.len() <= p@.len(),
            v@ == path@,
            w@ == dir@,
            seen(p@) == parts(os, path@),
            seen(d@) == parts(os, dir@),
            forall|j: int| 0 <= j < p@.len() ==> (#[trigger] p@[j]).from <= p@[j].to <= v@.len(),
            forall|j: int| 0 <= j < d@.len() ==> (#[trigger] d@[j]).from <= d@[j].to <= w@.len(),
            forall|j: int|
                0 <= j < i ==> part_key(os, path@, #[trigger] seen(p@)[j]) == part_key(
                    os,
                    dir@,
                    seen(d@)[j],
                ),
        decreases d@.len() - i,
    {
        let (a, b): (Part, Part) = (p[i], d[i]);
        assert(a == p@[i as int] && b == d@[i as int]);
        assert(a@ == seen(p@)[i as int] && b@ == seen(d@)[i as int]);
        if !same_part(os, &v, a, &w, b) {
            return false;
        }
        i = i + 1;
    }
    true
}

/// What lies in a directory that lies in another lies in that too, and a
/// directory lies in itself.
pub proof fn law_within_goes_down(os: Os, a: Seq<char>, b: Seq<char>, c: Seq<char>)
    ensures
        within(os, a, b) && within(os, b, c) ==> within(os, a, c),
        parts(os, a).len() > 0 ==> within(os, a, a),
{
    if within(os, a, b) && within(os, b, c) {
        let (p, q, d) = (parts(os, a), parts(os, b), parts(os, c));
        assert forall|i: int| 0 <= i < d.len() implies part_key(os, a, #[trigger] p[i]) == part_key(
            os,
            c,
            d[i],
        ) by {
            assert(part_key(os, b, q[i]) == part_key(os, c, d[i]));
        }
    }
}

/// What is put into a directory lies in it, by whatever name. (On Windows there
/// are prefixes to heed; this is for the other systems.)
pub proof fn law_inside_lies_within(os: Os, dir: Seq<char>, name: Seq<char>)
    requires
        !(os is Windows),
        is_plain_name(os, name),
        parts(os, dir).len() > 0,
    ensures
        within(os, inside(os, dir, name), dir),
        parts(os, inside(os, dir, name)).len() == parts(os, dir).len() + 1,
{
    reveal_strlit("/");
    let st = Style::Unix;
    assert(dir.len() > 0) by {
        if dir.len() == 0 {
            assert(parts(os, dir) =~= seq![]);
        }
    }
    let q = if is_separator(os, dir.last()) {
        dir
    } else {
        dir + "/"@
    };
    let s = inside(os, dir, name);
    assert(s =~= q + name);
    assert(s[0] == dir[0] && q[0] == dir[0]);
    assert(q.last() == '/');
    let at = body_at(os, dir);
    assert(body_at(os, s) == at);
    assert forall|i: int| 0 <= i < name.len() implies !splits(st, #[trigger] name[i]) by {
        assert(!is_separator(os, name[i]));
    }
    lemma_parts_end(st, q, name, at, at == 0);
    if q != dir {
        assert(q =~= dir.push('/'));
        lemma_trailing_separator(st, dir, at, at == 0);
    }
    lemma_names_are_plain(st, dir, at, at == 0);
    let (a, b) = (body(os, s), body(os, dir));
    assert(a.drop_last() =~= b);
    let (p, d) = (parts(os, s), parts(os, dir));
    let k: int = if has_root(os, dir) {
        1
    } else {
        0
    };
    assert forall|i: int| 0 <= i < d.len() implies part_key(os, s, #[trigger] p[i]) == part_key(
        os,
        dir,
        d[i],
    ) by {
        if i >= k {
            assert(d[i] == b[i - k] && p[i] == a[i - k] && a[i - k] == b[i - k]);
            assert(looks_plain(st, dir, b[i - k]));
            let x = d[i];
            assert(s.subrange(x.from, x.to) =~= dir.subrange(x.from, x.to));
        }
    }
}

/// A separator at the end of a text adds no part.
proof fn lemma_trailing_separator(style: Style, s: Seq<char>, at: int, first: bool)
    requires
        style is Unix,
        0 <= at <= s.len(),
    ensures
        parts_from(style, s.push('/'), at, first) == parts_from(style, s, at, first),
    decreases s.len() + 1 - at,
{
    let t = s.push('/');
    if at < s.len() {
        lemma_piece_end(style, s, at);
        lemma_piece_is_whole(style, s, at);
        let to = piece_end(style, s, at);
        assert forall|j: int| at <= j < to implies !splits(style, #[trigger] t[j]) by {
            assert(t[j] == s[j]);
        }
        lemma_piece_skip(style, t, at, to);
        lemma_piece_at_split(style, s, at);
        assert(splits(style, t[to]));
        assert(piece_end(style, t, at) == to);
        assert(t.subrange(at, to) =~= s.subrange(at, to));
        if to < s.len() {
            lemma_trailing_separator(style, s, to + 1, false);
        } else {
            assert(parts_from(style, t, to + 1, false) =~= seq![]);
            assert(parts_from(style, s, to + 1, false) =~= seq![]);
        }
    } else {
        assert(piece_end(style, t, at) == at);
        assert(t.subrange(at, at) =~= seq![]);
        assert(parts_from(style, t, at + 1, false) =~= seq![]);
        assert(parts_from(style, t, at, first) =~= seq![]);
        assert(parts_from(style, s, at, first) =~= seq![]);
    }
}

/// Whether one key comes before another.
fn key_less(a: &Vec<u32>, b: &Vec<u32>) -> (r: bool)
    ensures
        r == less(a@, b@),
{
    let mut i: usize = 0;
    while i < a.len() && i < b.len() && a[i] == b[i]
        invariant
            i <= a@.len(),
            i <= b@.len(),
            less(a@, b@) == less_from(a@, b@, i as nat),
        decreases a@.len() - i,
    {
        i = i + 1;
    }
    i < b.len() && (i >= a.len() || a[i] < b[i])
}

/// Whether `out` holds the paths of `v` in their order, and of those that are
/// the same only the one that came first.
pub open spec fn is_sorted_set(os: Os, v: Seq<Seq<char>>, out: Seq<Seq<char>>) -> bool {
    &&& forall|i: int, j: int|
        0 <= i < j < out.len() ==> less(#[trigger] key(os, out[i]), #[trigger] key(os, out[j]))
    &&& forall|i: int| 0 <= i < out.len() ==> is_first_of(os, v, #[trigger] out[i])
    &&& forall|k: int| 0 <= k < v.len() ==> has_key(os, out, key(os, #[trigger] v[k]))
}

/// Whether a path is in a list, and before all others there that are the same.
pub open spec fn is_first_of(os: Os, v: Seq<Seq<char>>, path: Seq<char>) -> bool {
    exists|k: int|
        0 <= k < v.len() && #[trigger] v[k] == path && !has_key(os, v.take(k), key(os, path))
}

/// Whether a list holds a path of the given key.
pub open spec fn has_key(os: Os, v: Seq<Seq<char>>, k: Seq<u32>) -> bool {
    exists|i: int| 0 <= i < v.len() && key(os, #[trigger] v[i]) == k
}

/// The paths of a list in their order, each once.
pub fn sorted_set(os: Os, v: &Vec<String>) -> (r: Vec<String>)
    ensures
        is_sorted_set(os, text::texts(v@), text::texts(r@)),
{
    let mut r: Vec<String> = Vec::new();
    let mut weights: Vec<Vec<u32>> = Vec::new();
    let mut n: usize = 0;
    while n < v.len()
        invariant
            0 <= n <= v@.len(),
            weights@.len() == r@.len(),
            forall|i: int|
                0 <= i < r@.len() ==> (#[trigger] weights@[i])@ == key(os, text::texts(r@)[i]),
            is_sorted_set(os, text::texts(v@).take(n as int), text::texts(r@)),
        decreases v@.len() - n,
    {
        let ghost before = text::texts(v@).take(n as int);
        let ghost out = text::texts(r@);
        let weight: Vec<u32> = key_of(os, &v[n]);
        let mut at: usize = 0;
        while at < r.len() && key_less(&weights[at], &weight)
            invariant
                0 <= at <= r@.len(),
                out == text::texts(r@),
                weights@.len() == r@.len(),
                forall|i: int|
                    0 <= i < r@.len() ==> (#[trigger] weights@[i])@ == key(os, out[i]),
                forall|i: int| 0 <= i < at ==> less(key(os, #[trigger] out[i]), weight@),
            decreases r@.len() - at,
        {
            assert(weights@[at as int]@ == key(os, out[at as int]));
            at = at + 1;
        }
        let fresh: bool = at == r.len() || key_less(&weight, &weights[at]);
        let ghost path = v@[n as int]@;
        let ghost after = text::texts(v@).take(n + 1);
        assert(after =~= before.push(path));
        if fresh {
            proof {
                if at < r@.len() {
                    assert(weights@[at as int]@ == key(os, out[at as int]));
                }
                lemma_placed(os, before, out, path, at as int);
            }
            r.insert(at, v[n].clone());
            weights.insert(at, weight);
            assert(text::texts(r@) =~= out.insert(at as int, path));
            assert forall|i: int| 0 <= i < r@.len() implies (#[trigger] weights@[i])@ == key(
                os,
                text::texts(r@)[i],
            ) by {
                if i < at {
                    assert(weights@[i]@ == key(os, out[i]));
                } else if i > at {
                    assert(weights@[i]@ == key(os, out[i - 1]));
                }
            }
        } else {
            proof {
                law_order_total(weight@, weights@[at as int]@);
                assert(weights@[at as int]@ == key(os, out[at as int]));
                lemma_known(os, before, out, path, at as int);
            }
        }
        n = n + 1;
    }
    assert(text::texts(v@).take(n as int) =~= text::texts(v@));
    r
}

/// A path that a list lacks, put in its place.
proof fn lemma_placed(os: Os, v: Seq<Seq<char>>, out: Seq<Seq<char>>, path: Seq<char>, at: int)
    requires
        is_sorted_set(os, v, out),
        0 <= at <= out.len(),
        forall|i: int| 0 <= i < at ==> less(key(os, #[trigger] out[i]), key(os, path)),
        at < out.len() ==> less(key(os, path), key(os, out[at])),
    ensures
        is_sorted_set(os, v.push(path), out.insert(at, path)),
{
    let w = v.push(path);
    let next = out.insert(at, path);
    let k = key(os, path);
    assert forall|i: int| at <= i < out.len() implies less(k, key(os, #[trigger] out[i])) by {
        if i > at {
            assert(less(key(os, out[at]), key(os, out[i])));
            law_order_transitive(k, key(os, out[at]), key(os, out[i]));
        }
    }
    assert forall|i: int, j: int| 0 <= i < j < next.len() implies less(
        #[trigger] key(os, next[i]),
        #[trigger] key(os, next[j]),
    ) by {
        let a = if i < at {
            i
        } else {
            i - 1
        };
        let b = if j < at {
            j
        } else {
            j - 1
        };
        if i != at && j != at {
            assert(less(key(os, out[a]), key(os, out[b])));
        } else if i == at {
            assert(less(k, key(os, out[b])));
        } else {
            assert(less(key(os, out[a]), k));
        }
    }
    assert(!has_key(os, v, k)) by {
        if has_key(os, v, k) {
            let m = choose|m: int| 0 <= m < v.len() && key(os, #[trigger] v[m]) == k;
            assert(has_key(os, out, key(os, v[m])));
            let i = choose|i: int| 0 <= i < out.len() && key(os, #[trigger] out[i]) == k;
            law_order_total(k, key(os, out[i]));
            if i < at {
                assert(less(key(os, out[i]), k));
            } else {
                assert(less(k, key(os, out[i])));
            }
        }
    }
    assert forall|i: int| 0 <= i < next.len() implies is_first_of(os, w, #[trigger] next[i]) by {
        if i == at {
            assert(w.take(v.len() as int) =~= v);
            assert(w[v.len() as int] == path);
        } else {
            let a = if i < at {
                i
            } else {
                i - 1
            };
            assert(next[i] == out[a]);
            lemma_first_of_more(os, v, path, out[a]);
        }
    }
    assert forall|m: int| 0 <= m < w.len() implies has_key(os, next, key(os, #[trigger] w[m])) by {
        if m < v.len() {
            assert(has_key(os, out, key(os, v[m])));
            let i = choose|i: int| 0 <= i < out.len() && key(os, #[trigger] out[i]) == key(os, v[m]);
            let b = if i < at {
                i
            } else {
                i + 1
            };
            assert(next[b] == out[i]);
        } else {
            assert(next[at] == path);
        }
    }
}

/// What comes first in a list comes first in a longer one.
proof fn lemma_first_of_more(os: Os, v: Seq<Seq<char>>, more: Seq<char>, path: Seq<char>)
    requires
        is_first_of(os, v, path),
    ensures
        is_first_of(os, v.push(more), path),
{
    let w = v.push(more);
    let k = choose|k: int|
        0 <= k < v.len() && #[trigger] v[k] == path && !has_key(os, v.take(k), key(os, path));
    assert(w.take(k) =~= v.take(k));
    assert(w[k] == path);
}

/// A path that a list has already changes nothing.
proof fn lemma_known(os: Os, v: Seq<Seq<char>>, out: Seq<Seq<char>>, path: Seq<char>, at: int)
    requires
        is_sorted_set(os, v, out),
        0 <= at < out.len(),
        key(os, out[at]) == key(os, path),
    ensures
        is_sorted_set(os, v.push(path), out),
{
    let w = v.push(path);
    assert forall|i: int| 0 <= i < out.len() implies is_first_of(os, w, #[trigger] out[i]) by {
        lemma_first_of_more(os, v, path, out[i]);
    }
    assert forall|m: int| 0 <= m < w.len() implies has_key(os, out, key(os, #[trigger] w[m])) by {
        if m < v.len() {
            assert(has_key(os, out, key(os, v[m])));
        } else {
            assert(key(os, out[at]) == key(os, w[m]));
        }
    }
}

} // verus!
