//! Text: building it, cutting it and looking into it.
use vstd::prelude::*;

verus! {

/// `String::push` appends one character.
pub assume_specification[ String::push ](s: &mut String, c: char)
    ensures
        final(s)@ == old(s)@.push(c),
;

/// The text that bytes make where what is not UTF-8 among them is replaced.
pub uninterp spec fn lossy(bytes: Seq<u8>) -> Seq<char>;

/// Reads bytes with `String::from_utf8_lossy`. The text is a function of the
/// bytes alone; where the bytes are UTF-8, it is the text that they encode.
#[verifier::external_body]
pub(crate) fn lossy_text(bytes: &[u8]) -> (r: String)
    ensures
        r@ == lossy(bytes@),
        vstd::utf8::valid_utf8(bytes@) ==> vstd::utf8::encode_utf8(r@) == bytes@,
{
    String::from_utf8_lossy(bytes).into_owned()
}

/// The texts of a list of strings.
pub open spec fn texts(v: Seq<String>) -> Seq<Seq<char>> {
    v.map_values(|s: String| s@)
}

/// The characters of a string.
pub fn chars_of(s: &str) -> (r: Vec<char>)
    ensures
        r@ == s@,
{
    let mut r: Vec<char> = Vec::new();
    for c in it: s.chars()
        invariant
            it.seq() == s@,
            r@ == s@.take(it.index()),
    {
        r.push(c);
    }
    assert(s@.take(s@.len() as int) =~= s@);
    r
}

/// The characters from `from` up to `to`, as a string.
pub fn string_of(v: &Vec<char>, from: usize, to: usize) -> (r: String)
    requires
        from <= to <= v@.len(),
    ensures
        r@ == v@.subrange(from as int, to as int),
{
    let mut r: String = String::new();
    let mut i: usize = from;
    while i < to
        invariant
            from <= i <= to <= v@.len(),
            r@ == v@.subrange(from as int, i as int),
        decreases to - i,
    {
        r.push(v[i]);
        assert(v@.subrange(from as int, i + 1) =~= v@.subrange(from as int, i as int).push(
            v@[i as int],
        ));
        i = i + 1;
    }
    r
}

/// Whether two texts are the same.
pub fn same(a: &str, b: &str) -> (r: bool)
    ensures
        r == (a@ == b@),
{
    a.to_owned() == b.to_owned()
}

/// Appends a text to a list.
pub fn put(v: &mut Vec<String>, s: &str)
    ensures
        texts(final(v)@) == texts(old(v)@).push(s@),
{
    v.push(s.to_owned());
    assert(texts(v@) =~= texts(old(v)@).push(s@));
}

/// Appends the texts of one list to another.
pub fn put_all(v: &mut Vec<String>, more: &Vec<String>)
    ensures
        texts(final(v)@) == texts(old(v)@) + texts(more@),
{
    let mut i: usize = 0;
    assert(texts(more@).take(0) =~= Seq::<Seq<char>>::empty());
    assert(texts(v@) =~= texts(v@) + texts(more@).take(0));
    while i < more.len()
        invariant
            0 <= i <= more@.len(),
            texts(v@) == texts(old(v)@) + texts(more@).take(i as int),
        decreases more@.len() - i,
    {
        put(v, more[i].as_str());
        assert(texts(more@).take(i + 1) =~= texts(more@).take(i as int).push(
            texts(more@)[i as int],
        ));
        assert((texts(old(v)@) + texts(more@).take(i as int)).push(more@[i as int]@) =~= texts(
            old(v)@,
        ) + texts(more@).take(i + 1));
        i = i + 1;
    }
    assert(texts(more@).take(i as int) =~= texts(more@));
}

/// Two texts, one behind the other.
pub fn joined(a: &str, b: &str) -> (r: String)
    ensures
        r@ == a@ + b@,
{
    a.to_owned().concat(b)
}

/// Three texts, one behind the other.
pub fn joined3(a: &str, b: &str, c: &str) -> (r: String)
    ensures
        r@ == a@ + b@ + c@,
{
    a.to_owned().concat(b).concat(c)
}

/// The decimal digit of value `d`.
pub open spec fn digit(d: nat) -> char {
    (48 + d) as char
}

/// A whole number in decimal.
pub open spec fn decimal(n: nat) -> Seq<char>
    decreases n,
{
    if n < 10 {
        seq![digit(n)]
    } else {
        decimal(n / 10).push(digit(n % 10))
    }
}

/// A whole number in decimal.
pub fn decimal_text(n: u64) -> (r: String)
    ensures
        r@ == decimal(n as nat),
{
    wide_decimal_text(n as u128)
}

/// A whole number in decimal.
pub fn wide_decimal_text(n: u128) -> (r: String)
    ensures
        r@ == decimal(n as nat),
    decreases n,
{
    let c: char = (48 + (n % 10) as u8) as char;
    if n < 10 {
        let mut r: String = String::new();
        r.push(c);
        assert(r@ =~= seq![digit(n as nat)]);
        r
    } else {
        let mut r: String = wide_decimal_text(n / 10);
        r.push(c);
        r
    }
}

/// The hexadecimal digit of value `d`.
pub open spec fn hex_digit(d: nat) -> char {
    if d < 10 {
        (48 + d) as char
    } else {
        (87 + d) as char
    }
}

/// The last `width` hexadecimal digits of `n`.
pub open spec fn hex(n: nat, width: nat) -> Seq<char>
    decreases width,
{
    if width == 0 {
        seq![]
    } else {
        hex(n / 16, (width - 1) as nat).push(hex_digit(n % 16))
    }
}

/// The last `width` hexadecimal digits of `n`.
pub fn hex_text(n: u64, width: u32) -> (r: String)
    ensures
        r@ == hex(n as nat, width as nat),
    decreases width,
{
    if width == 0 {
        String::new()
    } else {
        let mut r: String = hex_text(n / 16, width - 1);
        let d: u8 = (n % 16) as u8;
        if d < 10 {
            r.push((48 + d) as char);
        } else {
            r.push((87 + d) as char);
        }
        r
    }
}

/// An ASCII capital as its small letter; any other character as it is.
pub open spec fn lower_char(c: char) -> char {
    if 'A' <= c <= 'Z' {
        (c as u8 + 32) as char
    } else {
        c
    }
}

/// A text with its ASCII capitals made small.
pub open spec fn lower(s: Seq<char>) -> Seq<char> {
    s.map_values(|c: char| lower_char(c))
}

/// A text with its ASCII capitals made small.
pub fn lower_text(s: &str) -> (r: String)
    ensures
        r@ == lower(s@),
{
    let v = chars_of(s);
    let mut r: String = String::new();
    let mut i: usize = 0;
    assert(lower(s@).take(0) =~= r@);
    while i < v.len()
        invariant
            v@ == s@,
            0 <= i <= v@.len(),
            r@ == lower(s@).take(i as int),
        decreases v@.len() - i,
    {
        let c: char = v[i];
        if 'A' <= c && c <= 'Z' {
            r.push((c as u8 + 32) as char);
        } else {
            r.push(c);
        }
        assert(lower(s@).take(i + 1) =~= lower(s@).take(i as int).push(lower_char(c)));
        i = i + 1;
    }
    assert(lower(s@).take(i as int) =~= lower(s@));
    r
}

/// Whether two texts are the same but for ASCII capitals.
pub fn same_ignoring_case(a: &str, b: &str) -> (r: bool)
    ensures
        r == (lower(a@) == lower(b@)),
{
    lower_text(a) == lower_text(b)
}

/// Whether `s` holds `p` from place `at` on.
pub open spec fn holds_at(s: Seq<char>, p: Seq<char>, at: int) -> bool {
    0 <= at && at + p.len() <= s.len() && s.subrange(at, at + p.len()) == p
}

/// Whether `s` holds `p` from place `at` on.
pub fn is_at(s: &Vec<char>, p: &Vec<char>, at: usize) -> (r: bool)
    ensures
        r == holds_at(s@, p@, at as int),
{
    if at > s.len() || s.len() - at < p.len() {
        return false;
    }
    let n: usize = s.len();
    let mut i: usize = 0;
    while i < p.len()
        invariant
            n == s@.len(),
            at + p@.len() <= n,
            0 <= i <= p@.len(),
            forall|j: int| 0 <= j < i ==> s@[at + j] == p@[j],
        decreases p@.len() - i,
    {
        if s[at + i] != p[i] {
            assert(s@.subrange(at as int, at + p@.len())[i as int] != p@[i as int]);
            return false;
        }
        i = i + 1;
    }
    assert(s@.subrange(at as int, at + p@.len()) =~= p@);
    true
}

/// Whether a text begins with another.
pub fn begins_with(s: &str, p: &str) -> (r: bool)
    ensures
        r == holds_at(s@, p@, 0),
{
    is_at(&chars_of(s), &chars_of(p), 0)
}

/// Whether a text ends with another.
pub open spec fn ends(s: Seq<char>, p: Seq<char>) -> bool {
    holds_at(s, p, s.len() - p.len())
}

/// Whether a text ends with another.
pub fn ends_with(s: &str, p: &str) -> (r: bool)
    ensures
        r == ends(s@, p@),
{
    let v = chars_of(s);
    let w = chars_of(p);
    v.len() >= w.len() && is_at(&v, &w, v.len() - w.len())
}

/// `s` from `at` on, with `with` in the place of each `what`.
pub open spec fn replaced_from(s: Seq<char>, what: Seq<char>, with: Seq<char>, at: int) -> Seq<char>
    decreases s.len() - at,
{
    if at >= s.len() {
        seq![]
    } else if holds_at(s, what, at) && what.len() > 0 {
        with + replaced_from(s, what, with, at + what.len())
    } else {
        seq![s[at]] + replaced_from(s, what, with, at + 1)
    }
}

/// `s` with `with` in the place of each `what`, taken from the left.
pub open spec fn replaced(s: Seq<char>, what: Seq<char>, with: Seq<char>) -> Seq<char> {
    replaced_from(s, what, with, 0)
}

/// `s` with `with` in the place of each `what`, taken from the left.
pub fn replace(s: &str, what: &str, with: &str) -> (r: String)
    requires
        what@.len() > 0,
    ensures
        r@ == replaced(s@, what@, with@),
{
    let (v, w) = (chars_of(s), chars_of(what));
    let n: usize = v.len();
    let mut r: String = String::new();
    let mut i: usize = 0;
    assert(r@ + replaced_from(s@, what@, with@, 0) =~= replaced(s@, what@, with@));
    while i < n
        invariant
            v@ == s@,
            w@ == what@,
            n == v@.len(),
            i <= n,
            what@.len() > 0,
            r@ + replaced_from(s@, what@, with@, i as int) == replaced(s@, what@, with@),
        decreases n - i,
    {
        let ghost r0 = r@;
        if is_at(&v, &w, i) {
            let step: usize = w.len();
            let ghost rest = replaced_from(s@, what@, with@, i + step);
            r = r.concat(with);
            assert(r@ + rest =~= r0 + (with@ + rest));
            i = i + step;
        } else {
            let ghost rest = replaced_from(s@, what@, with@, i + 1);
            r.push(v[i]);
            assert(r@ + rest =~= r0 + (seq![s@[i as int]] + rest));
            i = i + 1;
        }
    }
    assert(r@ + replaced_from(s@, what@, with@, i as int) =~= r@);
    r
}

/// Whether a text holds another anywhere.
pub open spec fn holds(s: Seq<char>, p: Seq<char>) -> bool {
    exists|at: int| holds_at(s, p, at)
}

/// Whether a text holds another anywhere.
pub fn contains(s: &str, p: &str) -> (r: bool)
    ensures
        r == holds(s@, p@),
{
    let v = chars_of(s);
    let w = chars_of(p);
    let mut i: usize = 0;
    while i < v.len()
        invariant
            v@ == s@,
            w@ == p@,
            0 <= i <= v@.len(),
            forall|at: int| 0 <= at < i ==> !holds_at(s@, p@, at),
        decreases v@.len() - i,
    {
        if is_at(&v, &w, i) {
            return true;
        }
        i = i + 1;
    }
    is_at(&v, &w, i)
}

/// Whether a character is white space: the characters that Unicode gives the
/// property of that name.
pub open spec fn is_space(c: char) -> bool {
    let n = c as u32;
    ||| 9 <= n <= 13
    ||| n == 32
    ||| n == 0x85
    ||| n == 0xA0
    ||| n == 0x1680
    ||| 0x2000 <= n <= 0x200A
    ||| n == 0x2028
    ||| n == 0x2029
    ||| n == 0x202F
    ||| n == 0x205F
    ||| n == 0x3000
}

fn is_space_char(c: char) -> (r: bool)
    ensures
        r == is_space(c),
{
    let n: u32 = c as u32;
    (9 <= n && n <= 13) || n == 32 || n == 0x85 || n == 0xA0 || n == 0x1680 || (0x2000 <= n && n
        <= 0x200A) || n == 0x2028 || n == 0x2029 || n == 0x202F || n == 0x205F || n == 0x3000
}

/// A text without the white space at its beginning.
pub open spec fn trim_front(s: Seq<char>) -> Seq<char>
    decreases s.len(),
{
    if s.len() > 0 && is_space(s[0]) {
        trim_front(s.skip(1))
    } else {
        s
    }
}

/// A text without the white space at its end.
pub open spec fn trim_back(s: Seq<char>) -> Seq<char>
    decreases s.len(),
{
    if s.len() > 0 && is_space(s.last()) {
        trim_back(s.drop_last())
    } else {
        s
    }
}

/// A text without the white space at its ends.
pub open spec fn trim(s: Seq<char>) -> Seq<char> {
    trim_back(trim_front(s))
}

/// A text without the white space at its ends.
pub fn trimmed(s: &str) -> (r: String)
    ensures
        r@ == trim(s@),
{
    let v = chars_of(s);
    let mut i: usize = 0;
    assert(s@.skip(0) =~= s@);
    while i < v.len() && is_space_char(v[i])
        invariant
            v@ == s@,
            0 <= i <= v@.len(),
            trim_front(s@.skip(i as int)) == trim_front(s@),
        decreases v@.len() - i,
    {
        assert(s@.skip(i as int).skip(1) =~= s@.skip(i + 1));
        i = i + 1;
    }
    assert(trim_front(s@) == s@.skip(i as int));
    let mut j: usize = v.len();
    assert(s@.skip(i as int) =~= s@.subrange(i as int, j as int));
    while j > i && is_space_char(v[j - 1])
        invariant
            v@ == s@,
            i <= j <= v@.len(),
            trim_back(s@.subrange(i as int, j as int)) == trim(s@),
        decreases j,
    {
        assert(s@.subrange(i as int, j as int).drop_last() =~= s@.subrange(i as int, j - 1));
        j = j - 1;
    }
    assert(trim_back(s@.subrange(i as int, j as int)) == s@.subrange(i as int, j as int));
    string_of(&v, i, j)
}

/// The place of the first `c` in `s` from `from` on, or the end.
pub open spec fn find_from(s: Seq<char>, c: char, from: int) -> int
    decreases s.len() - from,
{
    if from >= s.len() {
        s.len() as int
    } else if from >= 0 && s[from] == c {
        from
    } else {
        find_from(s, c, from + 1)
    }
}

pub proof fn lemma_find_bounds(s: Seq<char>, c: char, from: int)
    requires
        0 <= from <= s.len(),
    ensures
        from <= find_from(s, c, from) <= s.len(),
    decreases s.len() - from,
{
    if from < s.len() && s[from] != c {
        lemma_find_bounds(s, c, from + 1);
    }
}

/// The place of the first `c` in `s` from `from` on, or the end.
pub fn find_char(s: &Vec<char>, c: char, from: usize) -> (r: usize)
    requires
        from <= s@.len(),
    ensures
        r == find_from(s@, c, from as int),
        from <= r <= s@.len(),
        r < s@.len() ==> s@[r as int] == c,
        forall|j: int| from <= j < r ==> s@[j] != c,
{
    let mut i: usize = from;
    while i < s.len() && s[i] != c
        invariant
            from <= i <= s@.len(),
            find_from(s@, c, i as int) == find_from(s@, c, from as int),
            forall|j: int| from <= j < i ==> s@[j] != c,
        decreases s@.len() - i,
    {
        i = i + 1;
    }
    i
}

/// The pieces of `s` from `from` on, cut at every `c`.
pub open spec fn pieces_from(s: Seq<char>, c: char, from: int) -> Seq<Seq<char>>
    decreases s.len() - from,
    when 0 <= from <= s.len()
    via pieces_from_ends
{
    let i = find_from(s, c, from);
    if i >= s.len() {
        seq![s.subrange(from, s.len() as int)]
    } else {
        seq![s.subrange(from, i)] + pieces_from(s, c, i + 1)
    }
}

#[via_fn]
proof fn pieces_from_ends(s: Seq<char>, c: char, from: int) {
    lemma_find_bounds(s, c, from);
}

/// A text cut at every `c`; the pieces hold no `c`.
pub open spec fn pieces(s: Seq<char>, c: char) -> Seq<Seq<char>> {
    pieces_from(s, c, 0)
}

/// The pieces of a text that was cut at every `c` hold no `c`.
pub proof fn law_pieces_hold_no_separator(s: Seq<char>, c: char, from: int)
    requires
        0 <= from <= s.len(),
    ensures
        forall|i: int|
            0 <= i < pieces_from(s, c, from).len() ==> !(#[trigger] pieces_from(
                s,
                c,
                from,
            )[i]).contains(c),
    decreases s.len() - from,
{
    lemma_find_bounds(s, c, from);
    lemma_none_before(s, c, from);
    let at = find_from(s, c, from);
    let all = pieces_from(s, c, from);
    let first = s.subrange(from, at);
    assert(!first.contains(c)) by {
        assert forall|j: int| 0 <= j < first.len() implies first[j] != c by {
            assert(first[j] == s[from + j]);
        }
    }
    if at < s.len() {
        law_pieces_hold_no_separator(s, c, at + 1);
        let rest = pieces_from(s, c, at + 1);
        assert forall|i: int| 0 <= i < all.len() implies !(#[trigger] all[i]).contains(c) by {
            if i > 0 {
                assert(all[i] == rest[i - 1]);
            }
        }
    }
}

/// The place of the next `c`, where that is known.
pub proof fn lemma_find_at(s: Seq<char>, c: char, from: int, at: int)
    requires
        0 <= from <= at <= s.len(),
        forall|j: int| from <= j < at ==> #[trigger] s[j] != c,
        at < s.len() ==> s[at] == c,
    ensures
        find_from(s, c, from) == at,
    decreases at - from,
{
    if from < at {
        lemma_find_at(s, c, from + 1, at);
    }
}

proof fn lemma_none_before(s: Seq<char>, c: char, from: int)
    requires
        0 <= from <= s.len(),
    ensures
        forall|j: int| from <= j < find_from(s, c, from) ==> #[trigger] s[j] != c,
    decreases s.len() - from,
{
    if from < s.len() && s[from] != c {
        lemma_none_before(s, c, from + 1);
    }
}

/// A text cut at every `c`.
pub fn split(s: &str, c: char) -> (r: Vec<String>)
    ensures
        texts(r@) == pieces(s@, c),
        r@.len() > 0,
{
    let v = chars_of(s);
    let mut r: Vec<String> = Vec::new();
    let mut from: usize = 0;
    assert(texts(r@) + pieces_from(s@, c, 0) =~= pieces(s@, c));
    loop
        invariant
            v@ == s@,
            0 <= from <= v@.len(),
            texts(r@) + pieces_from(s@, c, from as int) == pieces(s@, c),
        decreases v@.len() - from,
    {
        let i: usize = find_char(&v, c, from);
        let piece = string_of(&v, from, i);
        let ghost before = texts(r@);
        put(&mut r, piece.as_str());
        if i >= v.len() {
            assert(texts(r@) =~= before + seq![s@.subrange(from as int, s@.len() as int)]);
            return r;
        }
        assert(texts(r@) + pieces_from(s@, c, i + 1) =~= before + (seq![
            s@.subrange(from as int, i as int),
        ] + pieces_from(s@, c, i + 1)));
        from = i + 1;
    }
}

/// Texts one behind the other, with `sep` between them.
pub open spec fn join(v: Seq<Seq<char>>, sep: Seq<char>) -> Seq<char>
    decreases v.len(),
{
    if v.len() == 0 {
        seq![]
    } else if v.len() == 1 {
        v[0]
    } else {
        join(v.drop_last(), sep) + sep + v.last()
    }
}

/// Texts one behind the other, with `sep` between them.
pub fn join_texts(v: &Vec<String>, sep: &str) -> (r: String)
    ensures
        r@ == join(texts(v@), sep@),
{
    let mut r: String = String::new();
    let mut i: usize = 0;
    assert(texts(v@).take(0) =~= Seq::<Seq<char>>::empty());
    while i < v.len()
        invariant
            0 <= i <= v@.len(),
            r@ == join(texts(v@).take(i as int), sep@),
        decreases v@.len() - i,
    {
        if i > 0 {
            r.append(sep);
        }
        r.append(v[i].as_str());
        assert(texts(v@).take(i + 1).drop_last() =~= texts(v@).take(i as int));
        assert(i == 0 ==> r@ =~= v@[0]@);
        i = i + 1;
    }
    assert(texts(v@).take(i as int) =~= texts(v@));
    r
}

/// A line without the carriage return that ends it.
pub open spec fn without_return(s: Seq<char>) -> Seq<char> {
    if s.len() > 0 && s.last() == '\r' {
        s.drop_last()
    } else {
        s
    }
}

/// The lines of `s` from `from` on. A line ends at a line feed, and a carriage
/// return before that belongs to the end; nothing follows the last line feed.
pub open spec fn lines_from(s: Seq<char>, from: int) -> Seq<Seq<char>>
    decreases s.len() - from,
    when 0 <= from <= s.len()
    via lines_from_ends
{
    let i = find_from(s, '\n', from);
    if from >= s.len() {
        seq![]
    } else if i >= s.len() {
        seq![s.subrange(from, s.len() as int)]
    } else {
        seq![without_return(s.subrange(from, i))] + lines_from(s, i + 1)
    }
}

#[via_fn]
proof fn lines_from_ends(s: Seq<char>, from: int) {
    lemma_find_bounds(s, '\n', from);
}

/// The lines of a text.
pub open spec fn lines(s: Seq<char>) -> Seq<Seq<char>> {
    lines_from(s, 0)
}

/// The lines of a text.
pub fn lines_of(s: &str) -> (r: Vec<String>)
    ensures
        texts(r@) == lines(s@),
{
    let v = chars_of(s);
    let mut r: Vec<String> = Vec::new();
    let mut from: usize = 0;
    assert(texts(r@) + lines_from(s@, 0) =~= lines(s@));
    while from < v.len()
        invariant
            v@ == s@,
            0 <= from <= v@.len(),
            texts(r@) + lines_from(s@, from as int) == lines(s@),
        decreases v@.len() - from,
    {
        let i: usize = find_char(&v, '\n', from);
        let ghost before = texts(r@);
        if i >= v.len() {
            let line = string_of(&v, from, i);
            put(&mut r, line.as_str());
            assert(texts(r@) =~= before + seq![s@.subrange(from as int, s@.len() as int)]);
            return r;
        }
        let end: usize = if i > from && v[i - 1] == '\r' {
            i - 1
        } else {
            i
        };
        let line = string_of(&v, from, end);
        assert(line@ =~= without_return(s@.subrange(from as int, i as int)));
        put(&mut r, line.as_str());
        assert(texts(r@) + lines_from(s@, i + 1) =~= before + (seq![
            without_return(s@.subrange(from as int, i as int)),
        ] + lines_from(s@, i + 1)));
        from = i + 1;
    }
    assert(texts(r@) + lines_from(s@, from as int) =~= texts(r@));
    r
}

/// The last `n` of a list, or all of it.
pub open spec fn tail<A>(v: Seq<A>, n: nat) -> Seq<A> {
    if v.len() <= n {
        v
    } else {
        v.skip(v.len() - n)
    }
}

/// To keep the last items as they come is to keep the last of all.
pub proof fn law_tail_as_it_comes<A>(v: Seq<A>, x: A, n: nat)
    ensures
        tail(tail(v, n).push(x), n) == tail(v.push(x), n),
{
    assert(tail(tail(v, n).push(x), n) =~= tail(v.push(x), n));
}

/// The last `n` texts of a list, or all of them.
pub fn last_texts(v: &Vec<String>, n: usize) -> (r: Vec<String>)
    ensures
        texts(r@) == tail(texts(v@), n as nat),
{
    let mut r: Vec<String> = Vec::new();
    let start: usize = if v.len() <= n {
        0
    } else {
        v.len() - n
    };
    let mut i: usize = start;
    while i < v.len()
        invariant
            start <= i <= v@.len(),
            texts(r@) == texts(v@).subrange(start as int, i as int),
        decreases v@.len() - i,
    {
        put(&mut r, v[i].as_str());
        assert(texts(v@).subrange(start as int, i + 1) =~= texts(v@).subrange(
            start as int,
            i as int,
        ).push(v@[i as int]@));
        i = i + 1;
    }
    assert(texts(v@).subrange(start as int, i as int) =~= tail(texts(v@), n as nat));
    r
}

/// The value of a text of decimal digits.
pub open spec fn digits_value(s: Seq<char>) -> nat
    decreases s.len(),
{
    if s.len() == 0 {
        0
    } else {
        digits_value(s.drop_last()) * 10 + (s.last() as u32 - 48) as nat
    }
}

/// Whether a text is made of decimal digits, at least one.
pub open spec fn all_digits(s: Seq<char>) -> bool {
    s.len() > 0 && forall|i: int| 0 <= i < s.len() ==> '0' <= #[trigger] s[i] <= '9'
}

/// A number in decimal is made of digits, and reads back as itself; so no two
/// numbers look alike.
pub proof fn law_decimal_reads_back(n: nat)
    ensures
        all_digits(decimal(n)),
        digits_value(decimal(n)) == n,
    decreases n,
{
    if n < 10 {
        let s = seq![digit(n)];
        assert(decimal(n) == s);
        assert(s.drop_last() =~= seq![]);
        assert(digits_value(s.drop_last()) == 0);
    } else {
        law_decimal_reads_back(n / 10);
        let t = decimal(n / 10);
        let s = t.push(digit(n % 10));
        assert(s.drop_last() =~= t);
        assert(s.last() == digit(n % 10));
        assert forall|i: int| 0 <= i < s.len() implies '0' <= #[trigger] s[i] <= '9' by {
            if i < t.len() {
                assert('0' <= t[i] <= '9');
            }
        }
    }
}

/// The digits of a whole number, without the plus sign that may stand before
/// them.
pub open spec fn unsigned(s: Seq<char>) -> Seq<char> {
    if s.len() > 0 && s[0] == '+' {
        s.skip(1)
    } else {
        s
    }
}

/// The whole number that a text is, where it is one that fits in 64 bits.
pub open spec fn number(s: Seq<char>) -> Option<u64> {
    let d = unsigned(s);
    if all_digits(d) && digits_value(d) <= u64::MAX {
        Some(digits_value(d) as u64)
    } else {
        None
    }
}

/// The whole number that a text is, where it is one that fits in 64 bits.
pub fn parse_number(s: &str) -> (r: Option<u64>)
    ensures
        r == number(s@),
{
    let v = chars_of(s);
    let start: usize = if v.len() > 0 && v[0] == '+' {
        1
    } else {
        0
    };
    let ghost d = unsigned(s@);
    assert(d =~= s@.skip(start as int));
    if start >= v.len() {
        return None;
    }
    let mut value: u64 = 0;
    let mut over: bool = false;
    let mut i: usize = start;
    assert(d.take(0) =~= Seq::<char>::empty());
    while i < v.len()
        invariant
            v@ == s@,
            d == s@.skip(start as int),
            d == unsigned(s@),
            start <= i <= v@.len(),
            forall|j: int| 0 <= j < i - start ==> '0' <= #[trigger] d[j] <= '9',
            !over ==> value == digits_value(d.take(i - start)),
            over ==> digits_value(d.take(i - start)) > u64::MAX,
        decreases v@.len() - i,
    {
        let c: char = v[i];
        if c < '0' || c > '9' {
            assert(d[i - start] == c);
            return None;
        }
        let digit: u64 = (c as u32 - 48) as u64;
        assert(d.take(i + 1 - start).drop_last() =~= d.take(i - start));
        assert(d.take(i + 1 - start).last() == c);
        if !over {
            if value > (u64::MAX - digit) / 10 {
                over = true;
            } else {
                value = value * 10 + digit;
            }
        }
        i = i + 1;
    }
    assert(d.take(i - start) =~= d);
    if over {
        None
    } else {
        Some(value)
    }
}

} // verus!
