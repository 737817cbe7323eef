//! Who is let in, what is served, and under which names things are kept.
use crate::cli;
use crate::jobs;
use crate::path;
use crate::path::Os;
use crate::server;
use crate::server::{EntryV, Header, RouteV, Verb};
use crate::text;
use vstd::prelude::*;

verus! {

/// Whether the first header of that name, whatever its letters, has that value.
pub open spec fn header_is(headers: Seq<Header>, name: Seq<char>, value: Seq<char>) -> bool {
    exists|i: int|
        0 <= i < headers.len() && text::lower((#[trigger] headers[i]).field@) == text::lower(name)
            && headers[i].value@ == value && forall|k: int|
            0 <= k < i ==> text::lower((#[trigger] headers[k]).field@) != text::lower(name)
}

proof fn lemma_header(headers: Seq<Header>, name: Seq<char>, from: int)
    requires
        0 <= from <= headers.len(),
        forall|k: int|
            0 <= k < from ==> text::lower((#[trigger] headers[k]).field@) != text::lower(name),
    ensures
        server::header_from(headers, name, from) matches Some(v) ==> header_is(headers, name, v),
    decreases headers.len() - from,
{
    if from < headers.len() {
        if text::lower(headers[from].field@) != text::lower(name) {
            lemma_header(headers, name, from + 1);
        } else {
            assert(headers[from].value@ == server::header_from(headers, name, from)->0);
        }
    }
}

proof fn lemma_header_found(headers: Seq<Header>, name: Seq<char>, from: int, i: int)
    requires
        0 <= from <= i < headers.len(),
        text::lower(headers[i].field@) == text::lower(name),
        forall|k: int|
            from <= k < i ==> text::lower((#[trigger] headers[k]).field@) != text::lower(name),
    ensures
        server::header_from(headers, name, from) == Some(headers[i].value@),
    decreases i - from,
{
    if from < i {
        assert(text::lower(headers[from].field@) != text::lower(name));
        lemma_header_found(headers, name, from + 1, i);
    }
}

/// Whether a host is one of this machine by that name, with or without a port.
pub open spec fn is_host(value: Seq<char>, name: Seq<char>) -> bool {
    value == name || (value.len() > name.len() && value.take(name.len() as int) == name
        && value[name.len() as int] == ':')
}

proof fn lemma_host(value: Seq<char>, name: Seq<char>)
    requires
        !name.contains(':'),
    ensures
        server::until(value, ':') == name <==> is_host(value, name),
{
    let i = text::find_from(value, ':', 0);
    text::lemma_find_bounds(value, ':', 0);
    lemma_found(value, ':', 0);
    if is_host(value, name) {
        assert forall|j: int| 0 <= j < name.len() implies #[trigger] value[j] != ':' by {
            assert(value.take(name.len() as int) =~= name);
            assert(value.take(name.len() as int)[j] == name[j]);
            assert(name.contains(name[j]));
        }
        text::lemma_find_at(value, ':', 0, name.len() as int);
        assert(value.take(name.len() as int) =~= name);
    }
    if server::until(value, ':') == name {
        assert(name.len() == i);
        if i == value.len() {
            assert(value.take(i) =~= value);
        }
    }
}

proof fn lemma_found(s: Seq<char>, c: char, from: int)
    requires
        0 <= from <= s.len(),
    ensures
        text::find_from(s, c, from) < s.len() ==> s[text::find_from(s, c, from)] == c,
    decreases s.len() - from,
{
    if from < s.len() && s[from] != c {
        lemma_found(s, c, from + 1);
    }
}

/// Whoever is let in has asked for this machine by one of its own names, in the
/// first Host header, with or without a port; and whoever may change anything
/// has sent the token of this run, whole, in the first header for it.
pub proof fn law_guests_name_the_host_and_the_token(
    verb: Verb,
    url: Seq<char>,
    headers: Seq<Header>,
    token: Seq<char>,
    ready: bool,
    host: Seq<char>,
)
    ensures
        ({
            let r = server::routed(verb, url, headers, token, ready);
            let refused = r == RouteV::Answer(server::err_reply(403, "forbidden"@)) || r
                == RouteV::Answer(server::err_reply(403, "bad token"@));
            &&& !(r is Answer) ==> exists|h: Seq<char>|
                #[trigger] header_is(headers, "Host"@, h) && (is_host(h, "127.0.0.1"@) || is_host(
                    h,
                    "localhost"@,
                ))
            &&& !(r is Answer) && verb is Post ==> header_is(headers, "X-Resizer-Token"@, token)
            &&& header_is(headers, "Host"@, host) && (is_host(host, "127.0.0.1"@) || is_host(
                host,
                "localhost"@,
            )) && verb is Get && server::until(url, '?') == "/"@ ==> r is Page
        }),
{
    reveal_strlit("127.0.0.1");
    reveal_strlit("localhost");
    assert(!"127.0.0.1"@.contains(':')) by {
        if "127.0.0.1"@.contains(':') {
            let i = choose|i: int| 0 <= i < "127.0.0.1"@.len() && "127.0.0.1"@[i] == ':';
            assert(0 <= i < 9);
        }
    }
    assert(!"localhost"@.contains(':')) by {
        if "localhost"@.contains(':') {
            let i = choose|i: int| 0 <= i < "localhost"@.len() && "localhost"@[i] == ':';
            assert(0 <= i < 9);
        }
    }
    lemma_header(headers, "Host"@, 0);
    lemma_header(headers, "X-Resizer-Token"@, 0);
    reveal_strlit("");
    assert("127.0.0.1"@.len() == 9 && "localhost"@.len() == 9 && ""@.len() == 0);
    if let Some(h) = server::header_from(headers, "Host"@, 0) {
        lemma_host(h, "127.0.0.1"@);
        lemma_host(h, "localhost"@);
        assert(header_is(headers, "Host"@, h));
    }
    if header_is(headers, "Host"@, host) {
        let i = choose|i: int|
            0 <= i < headers.len() && text::lower((#[trigger] headers[i]).field@) == text::lower(
                "Host"@,
            ) && headers[i].value@ == host && forall|k: int|
                0 <= k < i ==> text::lower((#[trigger] headers[k]).field@) != text::lower("Host"@);
        lemma_header_found(headers, "Host"@, 0, i);
        lemma_host(host, "127.0.0.1"@);
        lemma_host(host, "localhost"@);
    }
}

/// The original of a file in the list is served under its id.
pub proof fn law_originals_are_served(
    os: Os,
    entries: Seq<EntryV>,
    scratch: Seq<char>,
    i: int,
)
    requires
        0 <= i < entries.len(),
        forall|k: int| 0 <= k < i ==> (#[trigger] entries[k]).id != entries[i].id,
    ensures
        server::served(
            os,
            entries,
            scratch,
            "/file/"@ + text::decimal(entries[i].id as nat) + "/original"@,
        ) == Some(entries[i].path),
{
    let id = entries[i].id;
    let d = text::decimal(id as nat);
    reveal_strlit("/file/");
    reveal_strlit("/original");
    reveal_strlit("original");
    text::law_decimal_reads_back(id as nat);
    let url = "/file/"@ + d + "/original"@;
    let q = url.skip(1);
    assert(url[0] == '/' && q[0] == 'f');
    assert(server::without_slashes(url) == server::without_slashes(q));
    assert(server::without_slashes(q) == q);
    let (a, b) = (4int, 5 + d.len() as int);
    assert(q.subrange(a + 1, b) =~= d);
    assert(q.subrange(b + 1, q.len() as int) =~= "original"@);
    assert(q[a] == '/' && q[b] == '/');
    assert forall|j: int| 0 <= j < q.len() && j != a && j != b implies #[trigger] q[j] != '/' by {
        if a < j < b {
            assert(q[j] == d[j - 5]);
            assert('0' <= d[j - 5] <= '9');
        }
    }
    text::lemma_find_at(q, '/', 0, a);
    text::lemma_find_at(q, '/', a + 1, b);
    text::lemma_find_at(q, '/', b + 1, q.len() as int);
    assert(text::pieces_from(q, '/', b + 1) =~= seq!["original"@]);
    assert(text::pieces_from(q, '/', a + 1) =~= seq![d, "original"@]);
    let parts = text::pieces(q, '/');
    assert(parts.len() == 3 && parts[1] == d && parts[2] == "original"@);
    assert('0' <= d[0] <= '9');
    assert(text::unsigned(d) == d);
    crate::asking::lemma_entry(entries, id, 0, i);
}

/// Tokens of different random numbers are different, and all are of 32 digits.
pub proof fn law_tokens_differ(a: u64, b: u64, c: u64, d: u64)
    ensures
        ({
            let (x, y) = (
                text::hex(a as nat, 16) + text::hex(b as nat, 16),
                text::hex(c as nat, 16) + text::hex(d as nat, 16),
            );
            &&& x.len() == 32
            &&& x == y ==> a == c && b == d
        }),
{
    let (p, q, r, s) = (
        text::hex(a as nat, 16),
        text::hex(b as nat, 16),
        text::hex(c as nat, 16),
        text::hex(d as nat, 16),
    );
    lemma_hex(a as nat, 16);
    lemma_hex(b as nat, 16);
    lemma_hex(c as nat, 16);
    lemma_hex(d as nat, 16);
    if p + q == r + s {
        assert((p + q).take(16) =~= p && (r + s).take(16) =~= r);
        assert((p + q).skip(16) =~= q && (r + s).skip(16) =~= s);
        reveal_with_fuel(sixteen, 17);
    }
}

/// Sixteen, to that power.
pub open spec fn sixteen(n: nat) -> nat
    decreases n,
{
    if n == 0 {
        1
    } else {
        16 * sixteen((n - 1) as nat)
    }
}

/// The value of hexadecimal digits.
pub open spec fn hex_value(s: Seq<char>) -> nat
    decreases s.len(),
{
    if s.len() == 0 {
        0
    } else {
        let c = s.last();
        hex_value(s.drop_last()) * 16 + if '0' <= c <= '9' {
            (c as u32 - 48) as nat
        } else {
            (c as u32 - 87) as nat
        }
    }
}

proof fn lemma_hex(n: nat, width: nat)
    ensures
        text::hex(n, width).len() == width,
        n < sixteen(width) ==> hex_value(text::hex(n, width)) == n,
    decreases width,
{
    if width > 0 {
        lemma_hex(n / 16, (width - 1) as nat);
        let s = text::hex(n, width);
        assert(s.drop_last() =~= text::hex(n / 16, (width - 1) as nat));
    }
}

/// How much was saved, in whole percent, never less than none: with `x` percent
/// saved, the result has at least a hundredth for each of the others.
pub proof fn law_savings_are_in_percent(i: u64, o: u64, x: nat)
    requires
        0 < i,
        x <= 100,
        if o >= i {
            x == 0
        } else {
            (100 - x) * i <= o * 100 < (101 - x) * i
        },
    ensures
        cli::saved(i, o) == "-"@ + text::decimal(x) + "%"@,
{
    let kept = o * 100 / i as int;
    vstd::arithmetic::div_mod::lemma_fundamental_div_mod(o * 100, i as int);
    if o >= i {
        assert(kept >= 100) by (nonlinear_arith)
            requires
                o * 100 == i * kept + (o * 100) % (i as int),
                (o * 100) % (i as int) < i,
                o >= i,
                i > 0,
        ;
    } else {
        let y = 100 - x;
        assert(kept == y) by (nonlinear_arith)
            requires
                o * 100 == i * kept + (o * 100) % (i as int),
                0 <= (o * 100) % (i as int) < i,
                y * i <= o * 100 < (y + 1) * i,
                i > 0,
        ;
    }
}

/// A result is named after its source: the same stem, `-web`, a number from the
/// second on, and the extension of its format. It lies in the directory for the
/// results, so that it is not taken in again. (On Windows there are prefixes to
/// heed; this is for the other systems.)
pub proof fn law_results_are_named_after_their_source(
    os: Os,
    out_dir: Seq<char>,
    stem: Seq<char>,
    ext: Seq<char>,
    n: nat,
)
    requires
        !(os is Windows),
        path::parts(os, out_dir).len() > 0,
        forall|i: int| 0 <= i < stem.len() ==> #[trigger] stem[i] != '/',
        forall|i: int| 0 <= i < ext.len() ==> #[trigger] ext[i] != '/',
    ensures
        ({
            let name = stem + "-web"@ + (if n <= 1 {
                seq![]
            } else {
                seq!['-'] + text::decimal(n)
            }) + seq!['.'] + ext;
            let out = jobs::nth_output(os, out_dir, stem, ext, n);
            &&& path::name(os, out) == Some(name)
            &&& path::within(os, out, out_dir)
        }),
{
    reveal_strlit("-web");
    reveal_strlit("-web.");
    reveal_strlit("-web-");
    reveal_strlit(".");
    let number = if n <= 1 {
        seq![]
    } else {
        seq!['-'] + text::decimal(n)
    };
    let name = stem + "-web"@ + number + seq!['.'] + ext;
    if n <= 1 {
        assert(name =~= stem + "-web."@ + ext);
    } else {
        assert(name =~= stem + "-web-"@ + text::decimal(n) + "."@ + ext);
    }
    text::law_decimal_reads_back(n);
    let (a, b) = (stem.len() as int, (stem.len() + 4) as int);
    let c = b + number.len();
    assert forall|i: int| 0 <= i < name.len() implies !path::is_separator(os, #[trigger] name[i]) by {
        if i < a {
            assert(name[i] == stem[i]);
        } else if i < b {
            assert(name[i] == "-web"@[i - a]);
        } else if i < c {
            assert(name[i] == number[i - b]);
            if i > b {
                assert(number[i - b] == text::decimal(n)[i - b - 1]);
            }
        } else if i > c {
            assert(name[i] == ext[i - c - 1]);
        }
    }
    assert(name.len() >= 5);
    path::lemma_prefix(os, name);
    path::lemma_prefix(os, out_dir);
    path::lemma_prefix(os, path::inside(os, out_dir, name));
    path::law_name_inside(os, out_dir, name);
    path::law_inside_lies_within(os, out_dir, name);
}

} // verus!
