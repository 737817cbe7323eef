//! The local GUI's side of the conversation: which requests are let in, what
//! each of them does to the state of the app, and what it is answered. Files
//! arrive either as browser uploads (drag & drop) or as server-side folder
//! paths (bulk mode).
use crate::double;
use crate::double::{Double, Real};
use crate::ffmpeg;
use crate::install;
use crate::install::{Env, Method, OptionV, Option_};
use crate::jobs;
use crate::jobs::{is_media_path, BulkItemResult};
use crate::json;
use crate::json::{Json, JsonV};
use crate::path;
use crate::path::{extension, file_name, join, parent, same_path, Os};
use crate::plan;
use crate::plan::{EncodePlan, MediaInfo, Settings, SettingsV};
use crate::text;
use crate::text::{
    begins_with, chars_of, contains, decimal_text, find_char, hex_text, joined, joined3,
    lossy_text, lower_text, parse_number, put, replace, same, same_ignoring_case, split, string_of,
    trimmed,
};
use vstd::prelude::*;

verus! {

/// What is answered to a request: a status code, and a JSON text.
#[derive(Debug)]
pub struct Reply {
    pub status: u16,
    pub body: String,
}

/// What is answered to a request.
pub ghost struct ReplyV {
    pub status: u16,
    pub body: Seq<char>,
}

impl View for Reply {
    type V = ReplyV;

    open spec fn view(&self) -> ReplyV {
        ReplyV { status: self.status, body: self.body@ }
    }
}

/// A success with that value.
pub open spec fn ok_reply(v: JsonV) -> ReplyV {
    ReplyV { status: 200, body: json::json_written(v) }
}

/// A failure with that message.
pub open spec fn err_reply(status: u16, msg: Seq<char>) -> ReplyV {
    ReplyV {
        status,
        body: json::json_written(JsonV::Object(seq![("error"@, JsonV::Text(msg))])),
    }
}

/// The value of a success that has nothing more to say.
pub open spec fn fine() -> JsonV {
    JsonV::Object(seq![("ok"@, JsonV::Bool(true))])
}

/// A success with that value.
pub fn ok_json(v: &Json) -> (r: Reply)
    requires
        json::has_no_fraction(v@),
    ensures
        r@ == ok_reply(v@),
{
    Reply { status: 200, body: json::write(v) }
}

/// A failure with that message.
pub fn err_json(status: u16, msg: &str) -> (r: Reply)
    ensures
        r@ == err_reply(status, msg@),
{
    let v: Json = Json::single("error", Json::Text(msg.to_owned()));
    Reply { status, body: json::write(&v) }
}

/// A success that has nothing more to say.
fn ok_fine() -> (r: Reply)
    ensures
        r@ == ok_reply(fine()),
{
    ok_json(&Json::single("ok", Json::Bool(true)))
}

/// A header of a request.
#[derive(Debug, Clone)]
pub struct Header {
    pub field: String,
    pub value: String,
}

/// What a request asks for.
#[derive(Debug, Clone, Copy, PartialEq, Eq, Structural)]
pub enum Verb {
    Get,
    Post,
    Other,
}

/// The value of the first header of that name from `from` on, in small letters
/// or capitals.
pub open spec fn header_from(headers: Seq<Header>, name: Seq<char>, from: int) -> Option<Seq<char>>
    decreases headers.len() - from,
{
    if from >= headers.len() {
        None
    } else if text::lower(headers[from].field@) == text::lower(name) {
        Some(headers[from].value@)
    } else {
        header_from(headers, name, from + 1)
    }
}

/// The value of the first header of that name.
pub fn header<'a>(headers: &'a Vec<Header>, name: &str) -> (r: Option<&'a str>)
    ensures
        r is Some == header_from(headers@, name@, 0) is Some,
        r is Some ==> r->0@ == header_from(headers@, name@, 0)->0,
{
    let mut i: usize = 0;
    while i < headers.len()
        invariant
            0 <= i <= headers@.len(),
            header_from(headers@, name@, 0) == header_from(headers@, name@, i as int),
        decreases headers@.len() - i,
    {
        if same_ignoring_case(&headers[i].field, name) {
            return Some(headers[i].value.as_str());
        }
        i = i + 1;
    }
    None
}

/// A text up to the first `c`, or all of it.
pub open spec fn until(s: Seq<char>, c: char) -> Seq<char> {
    s.take(text::find_from(s, c, 0))
}

/// A text up to the first `c`, or all of it.
fn up_to(s: &str, c: char) -> (r: String)
    ensures
        r@ == until(s@, c),
{
    let v = chars_of(s);
    let i: usize = find_char(&v, c, 0);
    assert(v@.subrange(0, i as int) =~= s@.take(i as int));
    string_of(&v, 0, i)
}

/// Whether a Host header names our own loopback address, whatever the port.
/// (The server listens on IPv4 alone: an IPv6 address, which is cut at its first
/// colon, is never let in.)
pub open spec fn is_local(headers: Seq<Header>) -> bool {
    let host = match header_from(headers, "Host"@, 0) {
        Some(h) => until(h, ':'),
        None => ""@,
    };
    host == "127.0.0.1"@ || host == "localhost"@
}

/// The Host header must be our own loopback address: this blocks DNS
/// rebinding, where a hostile page's domain resolves to 127.0.0.1.
pub fn host_is_local(headers: &Vec<Header>) -> (r: bool)
    ensures
        r == is_local(headers@),
{
    let name: String = match header(headers, "Host") {
        Some(h) => up_to(h, ':'),
        None => "".to_owned(),
    };
    same(&name, "127.0.0.1") || same(&name, "localhost")
}

/// Whether a request carries the page token.
pub open spec fn has_token(headers: Seq<Header>, token: Seq<char>) -> bool {
    header_from(headers, "X-Resizer-Token"@, 0) == Some(token)
}

/// Whether a request carries the page token.
pub fn token_ok(headers: &Vec<Header>, token: &str) -> (r: bool)
    ensures
        r == has_token(headers@, token@),
{
    match header(headers, "X-Resizer-Token") {
        Some(t) => same(t, token),
        None => false,
    }
}

/// What a request that is let in goes to.
#[derive(Debug)]
pub enum Route {
    /// The page, with the token in it.
    Page,
    State,
    FfmpegOptions,
    FfmpegInstall,
    Upload,
    Folder,
    Settings,
    Preview,
    Convert,
    Clear,
    OpenOutput,
    /// A file, by the path of the request.
    File(String),
    /// Nothing: this is the answer.
    Answer(Reply),
}

/// What a request goes to.
pub ghost enum RouteV {
    Page,
    State,
    FfmpegOptions,
    FfmpegInstall,
    Upload,
    Folder,
    Settings,
    Preview,
    Convert,
    Clear,
    OpenOutput,
    File(Seq<char>),
    Answer(ReplyV),
}

impl View for Route {
    type V = RouteV;

    open spec fn view(&self) -> RouteV {
        match *self {
            Route::Page => RouteV::Page,
            Route::State => RouteV::State,
            Route::FfmpegOptions => RouteV::FfmpegOptions,
            Route::FfmpegInstall => RouteV::FfmpegInstall,
            Route::Upload => RouteV::Upload,
            Route::Folder => RouteV::Folder,
            Route::Settings => RouteV::Settings,
            Route::Preview => RouteV::Preview,
            Route::Convert => RouteV::Convert,
            Route::Clear => RouteV::Clear,
            Route::OpenOutput => RouteV::OpenOutput,
            Route::File(p) => RouteV::File(p@),
            Route::Answer(r) => RouteV::Answer(r@),
        }
    }
}

/// What is answered to work on media while ffmpeg is missing.
pub open spec fn no_ffmpeg() -> ReplyV {
    err_reply(503, "ffmpeg todavía no está instalado."@)
}

/// A route that works on media: only open while ffmpeg is there.
pub open spec fn with_ffmpeg(ready: bool, r: RouteV) -> RouteV {
    if ready {
        r
    } else {
        RouteV::Answer(no_ffmpeg())
    }
}

/// Where a GET for that path goes.
pub open spec fn route_get(p: Seq<char>) -> RouteV {
    if p == "/"@ {
        RouteV::Page
    } else if p == "/api/state"@ {
        RouteV::State
    } else if p == "/api/ffmpeg/options"@ {
        RouteV::FfmpegOptions
    } else if text::holds_at(p, "/file/"@, 0) {
        RouteV::File(p)
    } else {
        RouteV::Answer(err_reply(404, "not found"@))
    }
}

/// Where a POST to that path goes.
pub open spec fn route_post(p: Seq<char>, ready: bool) -> RouteV {
    if p == "/api/upload"@ {
        with_ffmpeg(ready, RouteV::Upload)
    } else if p == "/api/folder"@ {
        with_ffmpeg(ready, RouteV::Folder)
    } else if p == "/api/settings"@ {
        RouteV::Settings
    } else if p == "/api/preview"@ {
        with_ffmpeg(ready, RouteV::Preview)
    } else if p == "/api/convert"@ {
        with_ffmpeg(ready, RouteV::Convert)
    } else if p == "/api/clear"@ {
        RouteV::Clear
    } else if p == "/api/open-output"@ {
        RouteV::OpenOutput
    } else if p == "/api/ffmpeg/install"@ {
        RouteV::FfmpegInstall
    } else {
        RouteV::Answer(err_reply(404, "not found"@))
    }
}

/// Where a request goes. Only those from our own loopback address are let in,
/// and state-changing ones only with the page token.
pub open spec fn routed(
    verb: Verb,
    url: Seq<char>,
    headers: Seq<Header>,
    token: Seq<char>,
    ready: bool,
) -> RouteV {
    let p = until(url, '?');
    if !is_local(headers) {
        RouteV::Answer(err_reply(403, "forbidden"@))
    } else if verb is Post && !has_token(headers, token) {
        RouteV::Answer(err_reply(403, "bad token"@))
    } else {
        match verb {
            Verb::Get => route_get(p),
            Verb::Post => route_post(p, ready),
            Verb::Other => RouteV::Answer(err_reply(404, "not found"@)),
        }
    }
}

/// Where a GET for that path goes.
fn get(p: &str) -> (r: Route)
    ensures
        r@ == route_get(p@),
{
    if same(p, "/") {
        Route::Page
    } else if same(p, "/api/state") {
        Route::State
    } else if same(p, "/api/ffmpeg/options") {
        Route::FfmpegOptions
    } else if begins_with(p, "/file/") {
        Route::File(p.to_owned())
    } else {
        Route::Answer(err_json(404, "not found"))
    }
}

/// What is answered to work on media while ffmpeg is missing.
pub fn ffmpeg_missing() -> (r: Reply)
    ensures
        r@ == no_ffmpeg(),
{
    err_json(503, "ffmpeg todavía no está instalado.")
}

/// A route that works on media: only open while ffmpeg is there.
fn guarded(ready: bool, r: Route) -> (out: Route)
    ensures
        out@ == with_ffmpeg(ready, r@),
{
    if ready {
        r
    } else {
        Route::Answer(ffmpeg_missing())
    }
}

/// Where a POST to that path goes.
fn post(p: &str, ready: bool) -> (r: Route)
    ensures
        r@ == route_post(p@, ready),
{
    if same(p, "/api/upload") {
        guarded(ready, Route::Upload)
    } else if same(p, "/api/folder") {
        guarded(ready, Route::Folder)
    } else if same(p, "/api/settings") {
        Route::Settings
    } else if same(p, "/api/preview") {
        guarded(ready, Route::Preview)
    } else if same(p, "/api/convert") {
        guarded(ready, Route::Convert)
    } else if same(p, "/api/clear") {
        Route::Clear
    } else if same(p, "/api/open-output") {
        Route::OpenOutput
    } else if same(p, "/api/ffmpeg/install") {
        Route::FfmpegInstall
    } else {
        Route::Answer(err_json(404, "not found"))
    }
}

/// Where a request goes: by its method, its URL and its headers; `token` is
/// the secret of this run, and `ready` tells whether ffmpeg is there.
pub fn handle(verb: Verb, url: &str, headers: &Vec<Header>, token: &str, ready: bool) -> (r: Route)
    ensures
        r@ == routed(verb, url@, headers@, token@, ready),
{
    if !host_is_local(headers) {
        return Route::Answer(err_json(403, "forbidden"));
    }
    // State-changing requests must carry the page token (CSRF protection).
    if verb == Verb::Post && !token_ok(headers, token) {
        return Route::Answer(err_json(403, "bad token"));
    }
    let p: String = up_to(url, '?');
    match verb {
        Verb::Get => get(&p),
        Verb::Post => post(&p, ready),
        Verb::Other => Route::Answer(err_json(404, "not found")),
    }
}

/// A request from anywhere but our own loopback address is refused, whatever
/// it asks for and whatever token it carries.
pub proof fn law_strangers_are_refused(
    verb: Verb,
    url: Seq<char>,
    headers: Seq<Header>,
    token: Seq<char>,
    ready: bool,
)
    requires
        !is_local(headers),
    ensures
        routed(verb, url, headers, token, ready) == RouteV::Answer(err_reply(403, "forbidden"@)),
{
}

/// Without the page token nothing is reached that changes the state: not by a
/// POST, which is refused, nor by a GET, which only reads.
pub proof fn law_changes_need_the_token(
    verb: Verb,
    url: Seq<char>,
    headers: Seq<Header>,
    token: Seq<char>,
    ready: bool,
)
    requires
        !has_token(headers, token),
    ensures
        ({
            let r = routed(verb, url, headers, token, ready);
            &&& verb is Post ==> r is Answer && r->Answer_0.status == 403
            &&& r is Page || r is State || r is FfmpegOptions || r is File || r is Answer
        }),
{
}

/// While ffmpeg is missing, no work on media is reached: it is answered with
/// the status for that, and the rest works as ever.
pub proof fn law_no_media_work_without_ffmpeg(
    verb: Verb,
    url: Seq<char>,
    headers: Seq<Header>,
    token: Seq<char>,
)
    ensures
        ({
            let r = routed(verb, url, headers, token, false);
            let s = routed(verb, url, headers, token, true);
            if s is Upload || s is Folder || s is Preview || s is Convert {
                r == RouteV::Answer(no_ffmpeg())
            } else {
                r == s
            }
        }),
{
    reveal_strlit("/api/upload");
    reveal_strlit("/api/folder");
    reveal_strlit("/api/settings");
    reveal_strlit("/api/preview");
    reveal_strlit("/api/convert");
    reveal_strlit("/api/clear");
    reveal_strlit("/api/open-output");
    reveal_strlit("/api/ffmpeg/install");
}

/// The page, with the token of this run in it.
pub fn page(html: &str, token: &str) -> (r: String)
    ensures
        r@ == text::replaced(html@, "__RESIZER_TOKEN__"@, token@),
{
    proof {
        reveal_strlit("__RESIZER_TOKEN__");
    }
    replace(html, "__RESIZER_TOKEN__", token)
}

/// A token: 32 hexadecimal digits, out of two random numbers.
pub fn gen_token(a: u64, b: u64) -> (r: String)
    ensures
        r@ == text::hex(a as nat, 16) + text::hex(b as nat, 16),
{
    joined(&hex_text(a, 16), &hex_text(b, 16))
}

/// Default output directory: `<home>/resizer-output`.
pub open spec fn out_dir_of(os: Os, env: Env) -> Seq<char> {
    path::inside(
        os,
        match (env.home, env.user_profile) {
            (Some(h), _) => h@,
            (None, Some(u)) => u@,
            _ => "."@,
        },
        "resizer-output"@,
    )
}

/// Default output directory: `<home>/resizer-output`.
pub fn default_out_dir(os: Os, env: &Env) -> (r: String)
    ensures
        r@ == out_dir_of(os, *env),
{
    let home: String = match (&env.home, &env.user_profile) {
        (Some(h), _) => h.clone(),
        (None, Some(u)) => u.clone(),
        _ => ".".to_owned(),
    };
    join(os, &home, "resizer-output")
}

/// The program that opens a path or a URL. (On Windows it is not a console
/// program, so that no window flashes up.)
pub open spec fn opener(os: Os) -> Seq<char> {
    match os {
        Os::Windows => "explorer"@,
        Os::Macos => "open"@,
        Os::Other => "xdg-open"@,
    }
}

/// The command that opens a path or a URL: a program, and its arguments.
pub fn open_in_os(os: Os, target: &str) -> (r: (String, Vec<String>))
    ensures
        r.0@ == opener(os),
        text::texts(r.1@) == seq![target@],
{
    let program: &str = match os {
        Os::Windows => "explorer",
        Os::Macos => "open",
        Os::Other => "xdg-open",
    };
    let mut a: Vec<String> = Vec::new();
    assert(text::texts(a@) =~= seq![]);
    put(&mut a, target);
    (program.to_owned(), a)
}

/// The command that opens the browser.
pub fn open_browser(os: Os, url: &str) -> (r: (String, Vec<String>))
    ensures
        r.0@ == opener(os),
        text::texts(r.1@) == seq![url@],
{
    open_in_os(os, url)
}

/// The content type of a file.
pub open spec fn content_type(os: Os, p: Seq<char>) -> Seq<char> {
    let e = match path::suffix(os, p) {
        Some(e) => text::lower(e),
        None => ""@,
    };
    if e == "mp4"@ || e == "m4v"@ || e == "mov"@ {
        "video/mp4"@
    } else if e == "webm"@ {
        "video/webm"@
    } else if e == "jpg"@ || e == "jpeg"@ {
        "image/jpeg"@
    } else if e == "png"@ {
        "image/png"@
    } else if e == "webp"@ {
        "image/webp"@
    } else if e == "gif"@ {
        "image/gif"@
    } else {
        "application/octet-stream"@
    }
}

/// The content type of a file.
pub fn content_type_for(os: Os, p: &str) -> (r: &'static str)
    ensures
        r@ == content_type(os, p@),
{
    let e: String = match extension(os, p) {
        Some(e) => lower_text(&e),
        None => "".to_owned(),
    };
    if same(&e, "mp4") || same(&e, "m4v") || same(&e, "mov") {
        "video/mp4"
    } else if same(&e, "webm") {
        "video/webm"
    } else if same(&e, "jpg") || same(&e, "jpeg") {
        "image/jpeg"
    } else if same(&e, "png") {
        "image/png"
    } else if same(&e, "webp") {
        "image/webp"
    } else if same(&e, "gif") {
        "image/gif"
    } else {
        "application/octet-stream"
    }
}

/// The value of a hexadecimal digit.
pub open spec fn nibble(b: u8) -> Option<u8> {
    if 48 <= b <= 57 {
        Some((b - 48) as u8)
    } else if 97 <= b <= 102 {
        Some((b - 87) as u8)
    } else if 65 <= b <= 70 {
        Some((b - 55) as u8)
    } else {
        None
    }
}

/// The byte that two characters behind a percent sign stand for: two
/// hexadecimal digits, or one behind a plus sign.
pub open spec fn escaped(a: u8, b: u8) -> Option<u8> {
    match (nibble(a), nibble(b)) {
        (Some(x), Some(y)) => Some((x * 16 + y) as u8),
        (None, Some(y)) => if a == 43 {
            Some(y)
        } else {
            None
        },
        _ => None,
    }
}

/// The bytes that a URL-encoded text stands for, from `i` on: an escape is one
/// byte, a plus sign is a space, and everything else is itself, a broken or
/// truncated escape among it.
pub open spec fn decoded(b: Seq<u8>, i: int) -> Seq<u8>
    decreases b.len() - i,
{
    if i >= b.len() {
        seq![]
    } else if b[i] == 37 && i + 2 < b.len() && escaped(b[i + 1], b[i + 2]) is Some {
        seq![escaped(b[i + 1], b[i + 2])->0] + decoded(b, i + 3)
    } else if b[i] == 43 {
        seq![32u8] + decoded(b, i + 1)
    } else {
        seq![b[i]] + decoded(b, i + 1)
    }
}

/// The value of a hexadecimal digit.
fn nibble_of(b: u8) -> (r: Option<u8>)
    ensures
        r == nibble(b),
        r is Some ==> r->0 < 16,
{
    if 48 <= b && b <= 57 {
        Some(b - 48)
    } else if 97 <= b && b <= 102 {
        Some(b - 87)
    } else if 65 <= b && b <= 70 {
        Some(b - 55)
    } else {
        None
    }
}

/// The byte that two characters behind a percent sign stand for.
fn escaped_of(a: u8, b: u8) -> (r: Option<u8>)
    ensures
        r == escaped(a, b),
{
    match (nibble_of(a), nibble_of(b)) {
        (Some(x), Some(y)) => Some(x * 16 + y),
        (None, Some(y)) => if a == 43 {
            Some(y)
        } else {
            None
        },
        _ => None,
    }
}

/// The bytes that a URL-encoded text stands for.
pub fn decoded_bytes(s: &str) -> (r: Vec<u8>)
    ensures
        r@ == decoded(vstd::utf8::encode_utf8(s@), 0),
{
    let bytes: &[u8] = s.as_bytes();
    let ghost b = vstd::utf8::encode_utf8(s@);
    let n: usize = bytes.len();
    let mut out: Vec<u8> = Vec::new();
    let mut i: usize = 0;
    assert(out@ + decoded(b, 0) =~= decoded(b, 0));
    while i < n
        invariant
            bytes@ == b,
            n == b.len(),
            i <= n,
            out@ + decoded(b, i as int) == decoded(b, 0),
        decreases n - i,
    {
        let ghost o0 = out@;
        let c: u8 = bytes[i];
        if c == 37 && n - i > 2 {
            if let Some(x) = escaped_of(bytes[i + 1], bytes[i + 2]) {
                out.push(x);
                assert(out@ + decoded(b, i + 3) =~= o0 + (seq![x] + decoded(b, i + 3)));
                i = i + 3;
                continue;
            }
        }
        let x: u8 = if c == 43 {
            32
        } else {
            c
        };
        out.push(x);
        assert(out@ + decoded(b, i + 1) =~= o0 + (seq![x] + decoded(b, i + 1)));
        i = i + 1;
    }
    assert(out@ + decoded(b, i as int) =~= out@);
    out
}

/// The text that a URL-encoded one stands for. Where the bytes that it encodes
/// are UTF-8, it is the text of exactly those bytes.
pub fn urldecode(s: &str) -> (r: String)
    ensures
        r@ == text::lossy(decoded(vstd::utf8::encode_utf8(s@), 0)),
        vstd::utf8::valid_utf8(decoded(vstd::utf8::encode_utf8(s@), 0))
            ==> vstd::utf8::encode_utf8(r@) == decoded(vstd::utf8::encode_utf8(s@), 0),
{
    lossy_text(&decoded_bytes(s))
}

/// Bytes as escapes, every one of them.
pub open spec fn percent(b: Seq<u8>) -> Seq<u8>
    decreases b.len(),
{
    if b.len() == 0 {
        seq![]
    } else {
        seq![37u8, hex_byte(b[0] / 16), hex_byte(b[0] % 16)] + percent(b.skip(1))
    }
}

/// A hexadecimal digit.
pub open spec fn hex_byte(d: u8) -> u8 {
    if d < 10 {
        (48 + d) as u8
    } else {
        (55 + d) as u8
    }
}

/// Any bytes that are written as escapes are read back as they were.
pub proof fn law_escapes_are_undone(b: Seq<u8>)
    ensures
        decoded(percent(b), 0) == b,
{
    assert(seq![].add(percent(b)) =~= percent(b));
    lemma_escapes_undone(seq![], b);
}

proof fn lemma_escapes_undone(before: Seq<u8>, b: Seq<u8>)
    ensures
        decoded(before + percent(b), before.len() as int) == b,
    decreases b.len(),
{
    let all = before + percent(b);
    let at = before.len() as int;
    if b.len() > 0 {
        let e = seq![37u8, hex_byte(b[0] / 16), hex_byte(b[0] % 16)];
        let rest = percent(b.skip(1));
        assert(all =~= (before + e) + rest);
        lemma_escapes_undone(before + e, b.skip(1));
        assert(all[at] == 37 && all[at + 1] == e[1] && all[at + 2] == e[2]);
        assert(escaped(e[1], e[2]) == Some(b[0]));
        assert(seq![b[0]] + b.skip(1) =~= b);
    }
}

/// A text without percent and plus signs stands for itself.
pub proof fn law_plain_text_stands_for_itself(b: Seq<u8>, i: int)
    requires
        0 <= i <= b.len(),
        forall|j: int| 0 <= j < b.len() ==> #[trigger] b[j] != 37 && b[j] != 43,
    ensures
        decoded(b, i) == b.skip(i),
    decreases b.len() - i,
{
    if i < b.len() {
        law_plain_text_stands_for_itself(b, i + 1);
        assert(seq![b[i]] + b.skip(i + 1) =~= b.skip(i));
    } else {
        assert(b.skip(i) =~= seq![]);
    }
}

/// How far an entry is.
#[derive(Debug, Clone, Copy, PartialEq, Eq, Structural)]
pub enum Status {
    Ready,
    Working,
    Done,
    Error,
}

/// A file in the list.
#[derive(Debug)]
pub struct Entry {
    pub id: u64,
    pub name: String,
    pub path: String,
    /// True when `path` is a temp copy uploaded from the browser.
    pub uploaded: bool,
    pub size: u64,
    pub info: MediaInfo,
    pub status: Status,
    pub progress: Double,
    pub out_path: Option<String>,
    pub out_size: Option<u64>,
    pub error: Option<String>,
}

/// What is known of a file in the list.
pub ghost struct EntryV {
    pub id: u64,
    pub name: Seq<char>,
    pub path: Seq<char>,
    pub uploaded: bool,
    pub size: u64,
    pub info: MediaInfo,
    pub status: Status,
    pub progress: Real,
    pub out_path: Option<Seq<char>>,
    pub out_size: Option<u64>,
    pub error: Option<Seq<char>>,
}

/// The text of an optional string.
pub open spec fn maybe(s: Option<String>) -> Option<Seq<char>> {
    match s {
        Some(t) => Some(t@),
        None => None,
    }
}

impl View for Entry {
    type V = EntryV;

    open spec fn view(&self) -> EntryV {
        EntryV {
            id: self.id,
            name: self.name@,
            path: self.path@,
            uploaded: self.uploaded,
            size: self.size,
            info: self.info,
            status: self.status,
            progress: self.progress@,
            out_path: maybe(self.out_path),
            out_size: self.out_size,
            error: maybe(self.error),
        }
    }
}

/// What an installation of ffmpeg is doing.
#[derive(Debug)]
pub struct Setup {
    pub installing: bool,
    pub steps: Vec<String>,
    pub error: Option<String>,
}

/// The state of the app.
#[derive(Debug)]
pub struct AppState {
    pub entries: Vec<Entry>,
    pub settings: Settings,
    pub out_dir: String,
    pub jobs: usize,
    pub converting: bool,
    /// The id that the next file gets.
    pub next_id: u64,
    pub setup: Setup,
}

/// The state of the app.
#[verifier::ext_equal]
pub ghost struct StateV {
    pub entries: Seq<EntryV>,
    pub settings: SettingsV,
    pub out_dir: Seq<char>,
    pub jobs: usize,
    pub converting: bool,
    pub next_id: u64,
    pub installing: bool,
    pub steps: Seq<Seq<char>>,
    pub setup_error: Option<Seq<char>>,
}

/// What is known of the files in a list.
pub open spec fn entries_view(v: Seq<Entry>) -> Seq<EntryV> {
    v.map_values(|e: Entry| e@)
}

impl View for AppState {
    type V = StateV;

    open spec fn view(&self) -> StateV {
        StateV {
            entries: entries_view(self.entries@),
            settings: self.settings@,
            out_dir: self.out_dir@,
            jobs: self.jobs,
            converting: self.converting,
            next_id: self.next_id,
            installing: self.setup.installing,
            steps: text::texts(self.setup.steps@),
            setup_error: maybe(self.setup.error),
        }
    }
}

/// The state at the start.
pub open spec fn first_state(os: Os, env: Env, jobs: usize) -> StateV {
    StateV {
        entries: seq![],
        settings: plan::hover_settings(),
        out_dir: out_dir_of(os, env),
        jobs,
        converting: false,
        next_id: 1,
        installing: false,
        steps: seq![],
        setup_error: None,
    }
}

/// The id after that one.
pub open spec fn next(id: u64) -> u64 {
    ((id + 1) % 0x1_0000_0000_0000_0000) as u64
}

/// The id after that one.
fn following(id: u64) -> (r: u64)
    ensures
        r == next(id),
{
    if id == 0xFFFF_FFFF_FFFF_FFFF {
        0
    } else {
        id + 1
    }
}

/// A file that was just added.
pub open spec fn fresh(
    id: u64,
    name: Seq<char>,
    path: Seq<char>,
    uploaded: bool,
    size: u64,
    info: MediaInfo,
) -> EntryV {
    EntryV {
        id,
        name,
        path,
        uploaded,
        size,
        info,
        status: Status::Ready,
        progress: double::whole(0),
        out_path: None,
        out_size: None,
        error: None,
    }
}

/// A file that was just added.
fn fresh_entry(
    id: u64,
    name: String,
    path: String,
    uploaded: bool,
    size: u64,
    info: MediaInfo,
) -> (r: Entry)
    ensures
        r@ == fresh(id, name@, path@, uploaded, size, info),
{
    Entry {
        id,
        name,
        path,
        uploaded,
        size,
        info,
        status: Status::Ready,
        progress: Double::from_u64(0),
        out_path: None,
        out_size: None,
        error: None,
    }
}

impl AppState {
    /// The state at the start.
    pub fn new(os: Os, env: &Env, jobs: usize) -> (r: AppState)
        ensures
            r@ == first_state(os, *env, jobs),
    {
        let r = AppState {
            entries: Vec::new(),
            settings: Settings::hover(),
            out_dir: default_out_dir(os, env),
            jobs,
            converting: false,
            next_id: 1,
            setup: Setup { installing: false, steps: Vec::new(), error: None },
        };
        assert(r@ =~= first_state(os, *env, jobs)) by {
            assert(r@.entries =~= seq![]);
            assert(r@.steps =~= seq![]);
        }
        r
    }
}

/// The name under which an upload is kept: without any directory.
pub open spec fn safe_name(os: Os, name: Seq<char>) -> Seq<char> {
    match path::name(os, name) {
        Some(n) => n,
        None => "upload.bin"@,
    }
}

/// The name under which an upload is kept, where it is one that we accept.
pub fn accepted_name(os: Os, name: &str) -> (r: Result<String, Reply>)
    ensures
        r is Ok == jobs::is_media(os, safe_name(os, name@)),
        r is Ok ==> r->Ok_0@ == safe_name(os, name@),
        r is Err ==> r->Err_0@ == err_reply(415, "Ese tipo de archivo no es imagen ni video."@),
{
    let safe: String = match file_name(os, name) {
        Some(n) => n,
        None => "upload.bin".to_owned(),
    };
    if is_media_path(os, &safe) {
        Ok(safe)
    } else {
        Err(err_json(415, "Ese tipo de archivo no es imagen ni video."))
    }
}

/// The name that an upload gives itself: that of the header, decoded.
pub open spec fn upload_name_of(headers: Seq<Header>) -> Seq<char> {
    let raw = match header_from(headers, "X-Filename"@, 0) {
        Some(h) => h,
        None => ""@,
    };
    text::lossy(decoded(vstd::utf8::encode_utf8(raw), 0))
}

/// The name of an uploaded file, where it is one that we accept. (Raw body
/// upload; the (urlencoded) filename travels in X-Filename.)
pub fn upload_name(os: Os, headers: &Vec<Header>) -> (r: Result<String, Reply>)
    ensures
        ({
            let safe = safe_name(os, upload_name_of(headers@));
            &&& r is Ok == jobs::is_media(os, safe)
            &&& r is Ok ==> r->Ok_0@ == safe
            &&& r is Err ==> r->Err_0@ == err_reply(
                415,
                "Ese tipo de archivo no es imagen ni video."@,
            )
        }),
{
    let name: String = match header(headers, "X-Filename") {
        Some(h) => urldecode(h),
        None => urldecode(""),
    };
    accepted_name(os, &name)
}

/// Where an upload goes.
#[derive(Debug)]
pub struct Upload {
    pub id: u64,
    pub name: String,
    /// Per-id directory so the temp copy keeps its original filename — output
    /// names are derived from it ("clip.mp4" -> "clip-web.mp4").
    pub dir: String,
    pub file: String,
}

/// The directory of an upload.
pub open spec fn upload_dir(os: Os, scratch: Seq<char>, id: u64) -> Seq<char> {
    path::inside(os, scratch, "in-"@ + text::decimal(id as nat))
}

/// Takes the next id for an upload of that name.
pub fn begin_upload(os: Os, state: &mut AppState, scratch: &str, name: &str) -> (r: Upload)
    ensures
        final(state)@ == (StateV { next_id: next(old(state)@.next_id), ..old(state)@ }),
        r.id == old(state)@.next_id,
        r.name@ == name@,
        r.dir@ == upload_dir(os, scratch@, r.id),
        r.file@ == path::inside(os, r.dir@, name@),
{
    let id: u64 = state.next_id;
    state.next_id = following(id);
    let dir: String = join(os, scratch, &joined("in-", &decimal_text(id)));
    let file: String = join(os, &dir, name);
    Upload { id, name: name.to_owned(), dir, file }
}

/// Cap browser uploads (the site itself refuses anything over 200 MB anyway,
/// and sources are reasonably below 4 GB).
pub const MAX_UPLOAD: u64 = 4294967296;

/// What is wrong with an upload of which so many bytes came (none where the
/// copy failed; at most one byte past the cap is read, so that truncation is
/// detected, not silent). The file is then to be removed.
pub fn upload_error(copied: Option<u64>) -> (r: Option<Reply>)
    ensures
        r is None <==> copied is Some && 0 < copied->0 <= MAX_UPLOAD,
        r is Some ==> r->0@ == if copied is Some && copied->0 > MAX_UPLOAD {
            err_reply(413, "Ese archivo pasa de 4 GB; es demasiado grande."@)
        } else {
            err_reply(400, "El archivo llegó vacío."@)
        },
{
    match copied {
        Some(n) => if n > MAX_UPLOAD {
            Some(err_json(413, "Ese archivo pasa de 4 GB; es demasiado grande."))
        } else if n > 0 {
            None
        } else {
            Some(err_json(400, "El archivo llegó vacío."))
        },
        None => Some(err_json(400, "El archivo llegó vacío.")),
    }
}

/// What an upload comes to, once ffprobe has looked at it: an entry, or a
/// refusal (the file is then to be removed).
pub fn api_upload(
    state: &mut AppState,
    upload: Upload,
    size: u64,
    probed: Result<MediaInfo, String>,
) -> (r: Reply)
    ensures
        match probed {
            Ok(info) => {
                &&& final(state)@ == (StateV {
                    entries: old(state)@.entries.push(
                        fresh(upload.id, upload.name@, upload.file@, true, size, info),
                    ),
                    ..old(state)@
                })
                &&& r@ == ok_reply(JsonV::Object(seq![("id"@, JsonV::Uint(upload.id))]))
            },
            Err(e) => {
                &&& final(state)@ == old(state)@
                &&& r@ == err_reply(415, "No pude leer ese archivo: "@ + e@)
            },
        },
{
    match probed {
        Ok(info) => {
            let reply: Reply = ok_json(&Json::single("id", Json::Uint(upload.id)));
            let entry: Entry = fresh_entry(upload.id, upload.name, upload.file, true, size, info);
            let ghost (before, e) = (state.entries@, entry@);
            state.entries.push(entry);
            assert(entries_view(state.entries@) =~= entries_view(before).push(e));
            reply
        },
        Err(e) => err_json(415, &joined("No pude leer ese archivo: ", &e)),
    }
}

/// A file that was found in a folder: what ffprobe says about it (none where it
/// could not be read), and its size.
#[derive(Debug)]
pub struct Found {
    pub path: String,
    pub info: Option<MediaInfo>,
    pub size: u64,
}

/// Whether a file is in the list.
pub open spec fn is_listed(os: Os, entries: Seq<EntryV>, p: Seq<char>) -> bool {
    exists|i: int|
        0 <= i < entries.len() && path::key(os, (#[trigger] entries[i]).path) == path::key(os, p)
}

/// The state once one more file of a folder has been looked at: what could not
/// be read or is in the list already is passed over.
pub open spec fn with_found(os: Os, s: StateV, f: Found) -> StateV {
    match f.info {
        None => s,
        Some(info) => StateV {
            next_id: next(s.next_id),
            entries: if is_listed(os, s.entries, f.path@) {
                s.entries
            } else {
                s.entries.push(
                    fresh(
                        s.next_id,
                        match path::name(os, f.path@) {
                            Some(n) => n,
                            None => "archivo"@,
                        },
                        f.path@,
                        false,
                        f.size,
                        info,
                    ),
                )
            },
            ..s
        },
    }
}

/// The state once the first `n` files of a folder have been looked at.
pub open spec fn with_all_found(os: Os, s: StateV, found: Seq<Found>, n: nat) -> StateV
    decreases n,
{
    if n == 0 {
        s
    } else {
        with_found(os, with_all_found(os, s, found, (n - 1) as nat), found[n - 1])
    }
}

/// Looking at a folder only ever adds entries.
proof fn lemma_folder_only_adds(os: Os, s: StateV, found: Seq<Found>, n: nat)
    ensures
        ({
            let t = with_all_found(os, s, found, n);
            &&& s.entries.len() <= t.entries.len() <= s.entries.len() + n
            &&& t.entries.take(s.entries.len() as int) == s.entries
        }),
    decreases n,
{
    if n > 0 {
        lemma_folder_only_adds(os, s, found, (n - 1) as nat);
        let t = with_all_found(os, s, found, (n - 1) as nat);
        let u = with_all_found(os, s, found, n);
        assert(u.entries.take(s.entries.len() as int) =~= t.entries.take(s.entries.len() as int));
    } else {
        assert(s.entries.take(s.entries.len() as int) =~= s.entries);
    }
}

/// Whether a file is in the list.
fn listed(os: Os, entries: &Vec<Entry>, p: &str) -> (r: bool)
    ensures
        r == is_listed(os, entries_view(entries@), p@),
{
    let ghost all = entries_view(entries@);
    let mut i: usize = 0;
    while i < entries.len()
        invariant
            0 <= i <= entries@.len(),
            all == entries_view(entries@),
            forall|j: int|
                0 <= j < i ==> path::key(os, (#[trigger] all[j]).path) != path::key(os, p@),
        decreases entries@.len() - i,
    {
        assert(all[i as int] == entries@[i as int]@);
        if same_path(os, &entries[i].path, p) {
            return true;
        }
        i = i + 1;
    }
    false
}

/// Adds a file of a folder, where it could be read and is not in the list.
fn add_found(os: Os, state: &mut AppState, f: &Found)
    ensures
        final(state)@ == with_found(os, old(state)@, *f),
{
    let info: MediaInfo = match f.info {
        Some(i) => i,
        None => {
            return;
        },
    };
    let id: u64 = state.next_id;
    state.next_id = following(id);
    if listed(os, &state.entries, &f.path) {
        return;
    }
    let name: String = match file_name(os, &f.path) {
        Some(n) => n,
        None => "archivo".to_owned(),
    };
    let entry: Entry = fresh_entry(id, name, f.path.clone(), false, f.size, info);
    let ghost (before, e) = (state.entries@, entry@);
    state.entries.push(entry);
    assert(entries_view(state.entries@) =~= entries_view(before).push(e));
}

/// What a request for a folder names, and whether it is to be walked through.
pub fn folder_request(body: &Json) -> (r: (String, bool))
    ensures
        r.0@ == ffmpeg::text_or_none(json::at(body@, "path"@)),
        r.1 == (json::bool_of(json::at(body@, "recursive"@)) == Some(true)),
{
    let dir: String = match body.text_at("path") {
        Some(p) => p.to_owned(),
        None => "".to_owned(),
    };
    let recursive: bool = match body.bool_at("recursive") {
        Some(b) => b,
        None => false,
    };
    (dir, recursive)
}

/// What a request for a folder comes to: whether the folder is one, and the
/// files that were found in it.
pub fn api_folder(os: Os, state: &mut AppState, is_dir: bool, found: &Vec<Found>) -> (r: Reply)
    ensures
        ({
            let s = old(state)@;
            let t = with_all_found(os, s, found@, found@.len());
            if !is_dir {
                final(state)@ == s && r@ == err_reply(
                    400,
                    "Esa carpeta no existe. Copia la ruta completa de la carpeta."@,
                )
            } else if found@.len() == 0 {
                final(state)@ == s && r@ == err_reply(
                    400,
                    "No encontré imágenes ni videos en esa carpeta."@,
                )
            } else {
                final(state)@ == t && r@ == ok_reply(
                    JsonV::Object(
                        seq![
                            (
                                "added"@,
                                JsonV::Uint((t.entries.len() - s.entries.len()) as u64),
                            ),
                        ],
                    ),
                )
            }
        }),
{
    if !is_dir {
        return err_json(400, "Esa carpeta no existe. Copia la ruta completa de la carpeta.");
    }
    if found.len() == 0 {
        return err_json(400, "No encontré imágenes ni videos en esa carpeta.");
    }
    let ghost s = state@;
    let before: usize = state.entries.len();
    let mut i: usize = 0;
    while i < found.len()
        invariant
            0 <= i <= found@.len(),
            state@ == with_all_found(os, s, found@, i as nat),
        decreases found@.len() - i,
    {
        add_found(os, state, &found[i]);
        i = i + 1;
    }
    proof {
        lemma_folder_only_adds(os, s, found@, found@.len());
        assert(entries_view(state.entries@).len() == state.entries@.len());
        assert(s.entries.len() == before);
    }
    let added: usize = state.entries.len() - before;
    ok_json(&Json::single("added", Json::Uint(added as u64)))
}

/// Whether the ids in a list are told apart, and below the next.
pub open spec fn ids_are_sound(s: StateV) -> bool {
    &&& forall|i: int| 0 <= i < s.entries.len() ==> (#[trigger] s.entries[i]).id < s.next_id
    &&& forall|i: int, j: int|
        0 <= i < j < s.entries.len() ==> (#[trigger] s.entries[i]).id != (
        #[trigger] s.entries[j]).id
}

/// A folder keeps the ids told apart, as long as there are ids left; and no
/// file gets into the list twice.
pub proof fn law_folder_keeps_ids_apart(os: Os, s: StateV, f: Found)
    requires
        ids_are_sound(s),
        s.next_id < u64::MAX,
    ensures
        ids_are_sound(with_found(os, s, f)),
        is_listed(os, s.entries, f.path@) ==> with_found(os, s, f).entries == s.entries,
{
}

/// An upload keeps the ids told apart, whatever else was added while it came.
pub proof fn law_upload_keeps_ids_apart(
    s: StateV,
    id: u64,
    name: Seq<char>,
    file: Seq<char>,
    size: u64,
    info: MediaInfo,
)
    requires
        ids_are_sound(s),
        id < s.next_id,
        forall|i: int| 0 <= i < s.entries.len() ==> (#[trigger] s.entries[i]).id != id,
    ensures
        ids_are_sound(
            StateV { entries: s.entries.push(fresh(id, name, file, true, size, info)), ..s },
        ),
{
}

/// The settings that a request leaves.
pub open spec fn with_settings(
    s: StateV,
    body: JsonV,
    parsed: Option<Result<Settings, String>>,
) -> StateV {
    StateV {
        settings: match parsed {
            Some(Ok(p)) => p@,
            _ => s.settings,
        },
        out_dir: match json::text_of(json::at(body, "out_dir"@)) {
            Some(d) => if text::trim(d).len() > 0 {
                text::trim(d)
            } else {
                s.out_dir
            },
            None => s.out_dir,
        },
        jobs: match json::uint_of(json::at(body, "jobs"@)) {
            Some(j) => plan::at_most(plan::at_least(j as int, 1), 16) as usize,
            None => s.jobs,
        },
        ..s
    }
}

/// What a request to change the settings comes to. `parsed` is what its member
/// `settings` reads as, where it has one.
pub fn api_settings(
    state: &mut AppState,
    body: &Json,
    parsed: Option<Result<Settings, String>>,
) -> (r: Reply)
    ensures
        match parsed {
            Some(Err(e)) => final(state)@ == old(state)@ && r@ == err_reply(
                400,
                "bad settings: "@ + e@,
            ),
            _ => final(state)@ == with_settings(old(state)@, body@, parsed) && r@ == ok_reply(
                fine(),
            ),
        },
{
    match parsed {
        Some(Err(e)) => {
            return err_json(400, &joined("bad settings: ", &e));
        },
        Some(Ok(p)) => {
            state.settings = p;
        },
        None => {},
    }
    if let Some(dir) = body.text_at("out_dir") {
        let dir: String = trimmed(dir);
        if !dir.as_str().is_empty() {
            state.out_dir = dir;
        }
    }
    if let Some(j) = body.uint_at("jobs") {
        state.jobs = if j < 1 {
            1
        } else if j > 16 {
            16
        } else {
            j as usize
        };
    }
    ok_fine()
}

/// Where the entry of that id stands from `from` on, or past the last.
pub open spec fn entry_from(entries: Seq<EntryV>, id: u64, from: int) -> int
    decreases entries.len() - from,
{
    if from >= entries.len() || entries[from].id == id {
        from
    } else {
        entry_from(entries, id, from + 1)
    }
}

/// Where the entry of that id stands, where there is one.
pub fn find_entry(state: &AppState, id: u64) -> (r: Option<usize>)
    ensures
        r is Some == (entry_from(state@.entries, id, 0) < state@.entries.len()),
        r is Some ==> r->0 == entry_from(state@.entries, id, 0) && r->0 < state.entries@.len(),
{
    let ghost all = state@.entries;
    let mut i: usize = 0;
    while i < state.entries.len()
        invariant
            0 <= i <= state.entries@.len(),
            all == entries_view(state.entries@),
            entry_from(all, id, 0) == entry_from(all, id, i as int),
        decreases state.entries@.len() - i,
    {
        assert(all[i as int] == state.entries@[i as int]@);
        if state.entries[i].id == id {
            return Some(i);
        }
        i = i + 1;
    }
    None
}

/// The id that a request for a preview names.
pub open spec fn preview_id(body: JsonV) -> u64 {
    match json::uint_of(json::at(body, "id"@)) {
        Some(id) => id,
        None => 0,
    }
}

/// The entry that a request for a preview names: its id, and where it stands.
pub fn preview_target(state: &AppState, body: &Json) -> (r: Result<(u64, usize), Reply>)
    ensures
        ({
            let id = preview_id(body@);
            let i = entry_from(state@.entries, id, 0);
            &&& r is Ok == (i < state@.entries.len())
            &&& r is Ok ==> r->Ok_0.0 == id && r->Ok_0.1 == i && i < state.entries@.len()
            &&& r is Err ==> r->Err_0@ == err_reply(404, "archivo no encontrado"@)
        }),
{
    let id: u64 = match body.uint_at("id") {
        Some(id) => id,
        None => 0,
    };
    match find_entry(state, id) {
        Some(i) => Ok((id, i)),
        None => Err(err_json(404, "archivo no encontrado")),
    }
}

/// The URL of a preview.
pub open spec fn preview_url(os: Os, id: u64, file: Seq<char>) -> Seq<char> {
    "/file/"@ + text::decimal(id as nat) + "/preview/"@ + match path::name(os, file) {
        Some(n) => n,
        None => ""@,
    }
}

/// What a request for a preview comes to, once it is made: its file and the
/// estimated bytes of the whole result, or why there is none.
pub fn api_preview(
    os: Os,
    id: u64,
    plan: &EncodePlan,
    made: Result<(String, u64), String>,
) -> (r: Reply)
    ensures
        r@ == match made {
            Ok((file, est)) => ok_reply(
                JsonV::Object(
                    seq![
                        ("url"@, JsonV::Text(preview_url(os, id, file@))),
                        ("est_bytes"@, JsonV::Uint(est)),
                        ("width"@, JsonV::Uint(plan.out_w as u64)),
                        ("height"@, JsonV::Uint(plan.out_h as u64)),
                    ],
                ),
            ),
            Err(e) => err_reply(500, e@),
        },
{
    match made {
        Ok((file, est)) => {
            let name: String = match file_name(os, &file) {
                Some(n) => n,
                None => "".to_owned(),
            };
            let url: String = joined3("/file/", &decimal_text(id), "/preview/").concat(&name);
            let v = Json::single("url", Json::Text(url)).with("est_bytes", Json::Uint(est)).with(
                "width",
                Json::Uint(plan.out_w as u64),
            ).with("height", Json::Uint(plan.out_h as u64));
            assert(url@ =~= preview_url(os, id, file@));
            assert(v@->Object_0 =~= seq![
                ("url"@, JsonV::Text(preview_url(os, id, file@))),
                ("est_bytes"@, JsonV::Uint(est)),
                ("width"@, JsonV::Uint(plan.out_w as u64)),
                ("height"@, JsonV::Uint(plan.out_h as u64)),
            ]);
            ok_json(&v)
        },
        Err(e) => err_json(500, &e),
    }
}

/// Whether a file waits for its conversion.
pub open spec fn has_ready(entries: Seq<EntryV>) -> bool {
    exists|i: int| 0 <= i < entries.len() && (#[trigger] entries[i]).status is Ready
}

/// An entry once a conversion has begun.
pub open spec fn begun(e: EntryV) -> EntryV {
    if e.status is Ready {
        EntryV { status: Status::Working, progress: double::whole(0), ..e }
    } else {
        e
    }
}

/// The state once a conversion has begun: every file that waited is in it.
pub open spec fn with_conversion(s: StateV) -> StateV {
    StateV {
        converting: true,
        entries: Seq::new(s.entries.len(), |i: int| begun(s.entries[i])),
        ..s
    }
}

/// Whether a file waits for its conversion.
fn any_ready(entries: &Vec<Entry>) -> (r: bool)
    ensures
        r == has_ready(entries_view(entries@)),
{
    let ghost all = entries_view(entries@);
    let mut i: usize = 0;
    while i < entries.len()
        invariant
            0 <= i <= entries@.len(),
            all == entries_view(entries@),
            forall|j: int| 0 <= j < i ==> !((#[trigger] all[j]).status is Ready),
        decreases entries@.len() - i,
    {
        assert(all[i as int] == entries@[i as int]@);
        if entries[i].status == Status::Ready {
            return true;
        }
        i = i + 1;
    }
    false
}

/// What a request to convert comes to; with the reply, whether a conversion is
/// to be started (see `batch`).
pub fn api_convert(state: &mut AppState) -> (r: (bool, Reply))
    ensures
        ({
            let s = old(state)@;
            if s.converting {
                final(state)@ == s && !r.0 && r.1@ == err_reply(
                    409,
                    "Ya hay una conversión en curso."@,
                )
            } else if !has_ready(s.entries) {
                final(state)@ == s && !r.0 && r.1@ == err_reply(400, "No hay archivos pendientes."@)
            } else {
                final(state)@ == with_conversion(s) && r.0 && r.1@ == ok_reply(
                    JsonV::Object(seq![("started"@, JsonV::Bool(true))]),
                )
            }
        }),
{
    if state.converting {
        return (false, err_json(409, "Ya hay una conversión en curso."));
    }
    if !any_ready(&state.entries) {
        return (false, err_json(400, "No hay archivos pendientes."));
    }
    let ghost s = state@;
    let ghost before = state.entries@;
    state.converting = true;
    let n: usize = state.entries.len();
    let mut i: usize = 0;
    while i < n
        invariant
            n == before.len(),
            state.entries@.len() == n,
            s.entries == entries_view(before),
            0 <= i <= n,
            state@ == (StateV { converting: true, entries: state@.entries, ..s }),
            forall|j: int| 0 <= j < i ==> (#[trigger] state.entries@[j])@ == begun(before[j]@),
            forall|j: int| i <= j < n ==> (#[trigger] state.entries@[j]) == before[j],
        decreases n - i,
    {
        if state.entries[i].status == Status::Ready {
            state.entries[i].status = Status::Working;
            state.entries[i].progress = Double::from_u64(0);
        }
        i = i + 1;
    }
    assert(state@.entries =~= with_conversion(s).entries);
    (true, started())
}

/// The files that a conversion works on, with their ids: the first `n` entries
/// that are at work.
pub open spec fn at_work(entries: Seq<EntryV>, n: nat) -> Seq<(u64, Seq<char>)>
    decreases n,
{
    if n == 0 {
        seq![]
    } else if entries[n - 1].status is Working {
        at_work(entries, (n - 1) as nat).push((entries[n - 1].id, entries[n - 1].path))
    } else {
        at_work(entries, (n - 1) as nat)
    }
}

/// The ids and the files that a conversion works on.
pub fn batch(state: &AppState) -> (r: (Vec<u64>, Vec<String>))
    ensures
        ({
            let all = at_work(state@.entries, state@.entries.len());
            &&& r.0@.len() == all.len()
            &&& r.1@.len() == all.len()
            &&& forall|i: int|
                0 <= i < all.len() ==> (#[trigger] all[i]) == (r.0@[i], r.1@[i]@)
        }),
{
    let ghost all = state@.entries;
    let mut ids: Vec<u64> = Vec::new();
    let mut paths: Vec<String> = Vec::new();
    let mut i: usize = 0;
    while i < state.entries.len()
        invariant
            0 <= i <= state.entries@.len(),
            all == entries_view(state.entries@),
            ids@.len() == at_work(all, i as nat).len(),
            paths@.len() == ids@.len(),
            forall|j: int|
                0 <= j < ids@.len() ==> (#[trigger] at_work(all, i as nat)[j]) == (
                    ids@[j],
                    paths@[j]@,
                ),
        decreases state.entries@.len() - i,
    {
        let e: &Entry = &state.entries[i];
        assert(all[i as int] == e@);
        if e.status == Status::Working {
            ids.push(e.id);
            paths.push(e.path.clone());
        }
        i = i + 1;
    }
    (ids, paths)
}

/// An entry once its conversion is that far, or done with that result.
pub open spec fn advanced(e: EntryV, frac: Real, done: Option<BulkItemResult>) -> EntryV {
    let e = EntryV { progress: frac, ..e };
    match done {
        None => e,
        Some(item) => match item.result {
            Ok((out, _, bytes)) => EntryV {
                status: Status::Done,
                out_path: Some(out@),
                out_size: Some(bytes),
                ..e
            },
            Err(msg) => EntryV { status: Status::Error, error: Some(msg@), ..e },
        },
    }
}

/// The state once the conversion of the entry of that id is that far.
pub open spec fn with_event(
    s: StateV,
    id: u64,
    frac: Real,
    done: Option<BulkItemResult>,
) -> StateV {
    let i = entry_from(s.entries, id, 0);
    if i < s.entries.len() {
        StateV { entries: s.entries.update(i, advanced(s.entries[i], frac, done)), ..s }
    } else {
        s
    }
}

/// Takes note of how far the conversion of an entry is, or of what it came to.
pub fn note_event(state: &mut AppState, id: u64, frac: Double, done: Option<&BulkItemResult>)
    ensures
        final(state)@ == with_event(
            old(state)@,
            id,
            frac@,
            match done {
                Some(item) => Some(*item),
                None => None,
            },
        ),
{
    let ghost s = state@;
    let ghost before = state.entries@;
    if let Some(i) = find_entry(state, id) {
        state.entries[i].progress = frac;
        if let Some(item) = done {
            match &item.result {
                Ok((out, _, bytes)) => {
                    state.entries[i].status = Status::Done;
                    state.entries[i].out_path = Some(out.clone());
                    state.entries[i].out_size = Some(*bytes);
                },
                Err(msg) => {
                    state.entries[i].status = Status::Error;
                    state.entries[i].error = Some(msg.clone());
                },
            }
        }
        proof {
            let want = advanced(
                s.entries[i as int],
                frac@,
                match done {
                    Some(item) => Some(*item),
                    None => None,
                },
            );
            assert(s.entries[i as int] == before[i as int]@);
            assert(state.entries@[i as int]@ == want);
            assert(state@.entries =~= s.entries.update(i as int, want));
        }
    }
}

/// Takes note that a conversion has ended.
pub fn end_conversion(state: &mut AppState)
    ensures
        final(state)@ == (StateV { converting: false, ..old(state)@ }),
{
    state.converting = false;
}

/// A file that is done with keeps its result: what happens to another changes
/// nothing of it, and neither does a new conversion.
pub proof fn law_results_are_kept(
    s: StateV,
    id: u64,
    frac: Real,
    done: Option<BulkItemResult>,
    i: int,
)
    requires
        0 <= i < s.entries.len(),
    ensures
        s.entries[i].id != id ==> with_event(s, id, frac, done).entries[i] == s.entries[i],
        s.entries[i].status is Done || s.entries[i].status is Error
            ==> with_conversion(s).entries[i] == s.entries[i],
        with_event(s, id, frac, done).entries.len() == s.entries.len(),
        with_conversion(s).entries.len() == s.entries.len(),
{
    lemma_entry_found(s.entries, id, 0);
}

proof fn lemma_entry_found(entries: Seq<EntryV>, id: u64, from: int)
    requires
        0 <= from <= entries.len(),
    ensures
        from <= entry_from(entries, id, from) <= entries.len(),
        entry_from(entries, id, from) < entries.len() ==> entries[entry_from(entries, id, from)].id
            == id,
    decreases entries.len() - from,
{
    if from < entries.len() && entries[from].id != id {
        lemma_entry_found(entries, id, from + 1);
    }
}

/// The directories of the first `n` entries that were uploaded: each upload
/// lives in its own per-id scratch directory.
pub open spec fn upload_dirs(os: Os, entries: Seq<EntryV>, n: nat) -> Seq<Seq<char>>
    decreases n,
{
    if n == 0 {
        seq![]
    } else {
        let rest = upload_dirs(os, entries, (n - 1) as nat);
        if entries[n - 1].uploaded {
            match path::above(os, entries[n - 1].path) {
                Some(d) => rest.push(d),
                None => rest,
            }
        } else {
            rest
        }
    }
}

/// What a request to clear the list comes to; with the reply, the directories
/// that are to be removed.
pub fn api_clear(os: Os, state: &mut AppState) -> (r: (Vec<String>, Reply))
    ensures
        ({
            let s = old(state)@;
            if s.converting {
                final(state)@ == s && r.0@.len() == 0 && r.1@ == err_reply(
                    409,
                    "Espera a que termine la conversión."@,
                )
            } else {
                &&& final(state)@ == (StateV { entries: seq![], ..s })
                &&& text::texts(r.0@) == upload_dirs(os, s.entries, s.entries.len())
                &&& r.1@ == ok_reply(fine())
            }
        }),
{
    let mut dirs: Vec<String> = Vec::new();
    if state.converting {
        return (dirs, err_json(409, "Espera a que termine la conversión."));
    }
    let ghost all = state@.entries;
    let mut i: usize = 0;
    assert(text::texts(dirs@) =~= upload_dirs(os, all, 0));
    while i < state.entries.len()
        invariant
            0 <= i <= state.entries@.len(),
            all == entries_view(state.entries@),
            text::texts(dirs@) == upload_dirs(os, all, i as nat),
        decreases state.entries@.len() - i,
    {
        let e: &Entry = &state.entries[i];
        assert(all[i as int] == e@);
        if e.uploaded {
            if let Some(d) = parent(os, &e.path) {
                put(&mut dirs, &d);
            }
        }
        i = i + 1;
    }
    state.entries = Vec::new();
    assert(entries_view(state.entries@) =~= seq![]);
    (dirs, ok_fine())
}

/// Only what was uploaded is ever removed: the files of a folder stay.
pub proof fn law_clearing_spares_the_originals(os: Os, entries: Seq<EntryV>, n: nat)
    requires
        n <= entries.len(),
        forall|i: int| 0 <= i < n ==> !(#[trigger] entries[i]).uploaded,
    ensures
        upload_dirs(os, entries, n) == Seq::<Seq<char>>::empty(),
    decreases n,
{
    if n > 0 {
        law_clearing_spares_the_originals(os, entries, (n - 1) as nat);
    }
}

/// A path without the slashes at its beginning.
pub open spec fn without_slashes(p: Seq<char>) -> Seq<char>
    decreases p.len(),
{
    if p.len() > 0 && p[0] == '/' {
        without_slashes(p.skip(1))
    } else {
        p
    }
}

/// The piece of a path at that place, or an empty one.
pub open spec fn piece(parts: Seq<Seq<char>>, i: int) -> Seq<char> {
    if i < parts.len() {
        parts[i]
    } else {
        ""@
    }
}

/// The id in a path.
pub open spec fn path_id(parts: Seq<Seq<char>>) -> u64 {
    match text::number(piece(parts, 1)) {
        Some(id) => id,
        None => 0,
    }
}

/// Whether a name is one of a preview that we generated for this id.
pub open spec fn is_preview_name(id: u64, name: Seq<char>) -> bool {
    text::holds_at(name, "preview-"@ + text::decimal(id as nat) + "."@, 0) && !text::holds(
        name,
        ".."@,
    )
}

/// The file that a request for `/file/{id}/original` or
/// `/file/{id}/preview/{name}` is for.
pub open spec fn served(
    os: Os,
    entries: Seq<EntryV>,
    scratch: Seq<char>,
    p: Seq<char>,
) -> Option<Seq<char>> {
    let parts = text::pieces(without_slashes(p), '/');
    let id = path_id(parts);
    let i = entry_from(entries, id, 0);
    if piece(parts, 2) == "original"@ {
        if i < entries.len() {
            Some(entries[i].path)
        } else {
            None
        }
    } else if piece(parts, 2) == "preview"@ && is_preview_name(id, piece(parts, 3)) {
        Some(path::inside(os, scratch, piece(parts, 3)))
    } else {
        None
    }
}

/// A path without the slashes at its beginning.
fn strip_slashes(p: &str) -> (r: String)
    ensures
        r@ == without_slashes(p@),
{
    let v = chars_of(p);
    let n: usize = v.len();
    let mut i: usize = 0;
    assert(p@.skip(0) =~= p@);
    while i < n && v[i] == '/'
        invariant
            v@ == p@,
            n == v@.len(),
            i <= n,
            without_slashes(p@) == without_slashes(p@.skip(i as int)),
        decreases n - i,
    {
        assert(p@.skip(i as int).skip(1) =~= p@.skip(i + 1));
        i = i + 1;
    }
    assert(v@.subrange(i as int, n as int) =~= p@.skip(i as int));
    string_of(&v, i, n)
}

/// The piece of a path at that place, or an empty one.
fn piece_at(parts: &Vec<String>, i: usize) -> (r: String)
    ensures
        r@ == piece(text::texts(parts@), i as int),
{
    if i < parts.len() {
        assert(text::texts(parts@)[i as int] == parts@[i as int]@);
        parts[i].clone()
    } else {
        "".to_owned()
    }
}

/// GET /file/{id}/original  |  /file/{id}/preview/{name}
pub fn serve_file(os: Os, state: &AppState, scratch: &str, p: &str) -> (r: Option<String>)
    ensures
        r is Some == served(os, state@.entries, scratch@, p@) is Some,
        r is Some ==> r->0@ == served(os, state@.entries, scratch@, p@)->0,
{
    let parts: Vec<String> = split(&strip_slashes(p), '/');
    let id: u64 = match parse_number(&piece_at(&parts, 1)) {
        Some(id) => id,
        None => 0,
    };
    let kind: String = piece_at(&parts, 2);
    if same(&kind, "original") {
        match find_entry(state, id) {
            Some(i) => {
                assert(state@.entries[i as int] == state.entries@[i as int]@);
                Some(state.entries[i].path.clone())
            },
            None => None,
        }
    } else if same(&kind, "preview") {
        // Only serve preview files we generated for this id, never
        // arbitrary paths.
        let name: String = piece_at(&parts, 3);
        let prefix: String = joined3("preview-", &decimal_text(id), ".");
        if begins_with(&name, &prefix) && !contains(&name, "..") {
            Some(join(os, scratch, &name))
        } else {
            None
        }
    } else {
        None
    }
}

/// Only two kinds of files are served: those in the list, and those of the
/// scratch directory whose name begins like a preview's, holds no slash and
/// does not lead upwards.
pub proof fn law_only_own_files_are_served(
    os: Os,
    entries: Seq<EntryV>,
    scratch: Seq<char>,
    p: Seq<char>,
)
    ensures
        served(os, entries, scratch, p) matches Some(f) ==> is_entry_path(entries, f)
            || is_in_scratch(os, scratch, f),
{
    let q = without_slashes(p);
    let parts = text::pieces(q, '/');
    let id = path_id(parts);
    text::law_pieces_hold_no_separator(q, '/', 0);
    lemma_entry_found(entries, id, 0);
    if let Some(f) = served(os, entries, scratch, p) {
        if piece(parts, 2) == "original"@ {
            assert(entries[entry_from(entries, id, 0)].path == f);
        } else {
            let name = piece(parts, 3);
            reveal_strlit("");
            assert(!name.contains('/'));
            assert(is_safe_name(name)) by {
                reveal_strlit("preview-");
                reveal_strlit(".");
                let start = "preview-"@ + text::decimal(id as nat) + "."@;
                assert(name.subrange(0, start.len() as int) == start);
                assert(name.subrange(0, 8) =~= start.subrange(0, 8));
                assert(start.subrange(0, 8) =~= "preview-"@);
            }
            assert(f == path::inside(os, scratch, name));
        }
    }
}

/// Whether a path is that of a file in the list.
pub open spec fn is_entry_path(entries: Seq<EntryV>, f: Seq<char>) -> bool {
    exists|i: int| 0 <= i < entries.len() && (#[trigger] entries[i]).path == f
}

/// Whether a name begins like a preview's, holds no slash and does not lead
/// upwards.
pub open spec fn is_safe_name(name: Seq<char>) -> bool {
    text::holds_at(name, "preview-"@, 0) && !name.contains('/') && !text::holds(name, ".."@)
}

/// Whether a path is a safe name inside the scratch directory.
pub open spec fn is_in_scratch(os: Os, scratch: Seq<char>, f: Seq<char>) -> bool {
    exists|name: Seq<char>| is_safe_name(name) && f == #[trigger] path::inside(os, scratch, name)
}

/// The URL that is answered to a request for a preview leads to the preview.
/// (On Windows the scratch directory is not just the beginning of a prefix, such
/// as a server without a share: nothing can be inside that.)
pub proof fn law_preview_url_leads_to_the_preview(
    os: Os,
    entries: Seq<EntryV>,
    scratch: Seq<char>,
    id: u64,
    ext: Seq<char>,
)
    requires
        ext == "mp4"@ || ext == "jpg"@ || ext == "png"@ || ext == "webp"@,
        path::drive_len(os, jobs::preview_file(os, scratch, id, ext)) == path::drive_len(
            os,
            scratch,
        ),
    ensures
        ({
            let file = jobs::preview_file(os, scratch, id, ext);
            served(os, entries, scratch, preview_url(os, id, file)) == Some(file)
        }),
{
    let d = text::decimal(id as nat);
    let name = "preview-"@ + d + "."@ + ext;
    let file = jobs::preview_file(os, scratch, id, ext);
    lemma_preview_name(os, id, ext);
    path::law_name_inside(os, scratch, name);
    text::law_decimal_reads_back(id as nat);
    let url = preview_url(os, id, file);
    assert(!d.contains('/')) by {
        if d.contains('/') {
            let k = choose|k: int| 0 <= k < d.len() && d[k] == '/';
            assert('0' <= d[k] <= '9');
        }
    }
    assert(!name.contains('/')) by {
        if name.contains('/') {
            let k = choose|k: int| 0 <= k < name.len() && name[k] == '/';
            assert(path::is_separator(os, name[k]));
        }
    }
    lemma_url_pieces(d, name);
    let parts = text::pieces(without_slashes(url), '/');
    assert(text::unsigned(d) == d) by {
        assert('0' <= d[0] <= '9');
    }
    assert(path_id(parts) == id);
    assert("preview"@ != "original"@) by {
        reveal_strlit("original");
        reveal_strlit("preview");
        assert("preview"@.len() == 7 && "original"@.len() == 8);
    }
}

/// The name of a preview is one that is served.
proof fn lemma_preview_name(os: Os, id: u64, ext: Seq<char>)
    requires
        ext == "mp4"@ || ext == "jpg"@ || ext == "png"@ || ext == "webp"@,
    ensures
        ({
            let name = "preview-"@ + text::decimal(id as nat) + "."@ + ext;
            &&& is_preview_name(id, name)
            &&& path::is_plain_name(os, name)
            &&& name.len() <= 40
        }),
{
    reveal_strlit("mp4");
    reveal_strlit("jpg");
    reveal_strlit("png");
    reveal_strlit("webp");
    reveal_strlit("preview-");
    reveal_strlit(".");
    reveal_strlit("..");
    let d = text::decimal(id as nat);
    text::law_decimal_reads_back(id as nat);
    lemma_decimal_is_short(id as nat);
    let start = "preview-"@ + d + "."@;
    let name = start + ext;
    assert(forall|i: int| 8 <= i < 8 + d.len() ==> #[trigger] name[i] == d[i - 8]);
    assert(name[0] == 'p' && name[1] == 'r');
    assert forall|i: int| 0 <= i < name.len() implies !path::is_separator(
        os,
        #[trigger] name[i],
    ) by {
        if 8 <= i < 8 + d.len() {
            assert('0' <= d[i - 8] <= '9');
        }
    }
    assert(name.subrange(0, start.len() as int) =~= start);
    assert(!text::holds(name, ".."@)) by {
        if text::holds(name, ".."@) {
            let at = choose|at: int| text::holds_at(name, ".."@, at);
            assert(name.subrange(at, at + 2)[0] == '.' && name.subrange(at, at + 2)[1] == '.');
            assert(name[at] == '.' && name[at + 1] == '.');
            if 8 <= at < 8 + d.len() {
                assert('0' <= d[at - 8] <= '9');
            }
        }
    }
}

/// The pieces of the URL of a preview.
proof fn lemma_url_pieces(d: Seq<char>, name: Seq<char>)
    requires
        !d.contains('/'),
        !name.contains('/'),
    ensures
        ({
            let parts = text::pieces(without_slashes("/file/"@ + d + "/preview/"@ + name), '/');
            &&& parts.len() == 4
            &&& parts[1] == d
            &&& parts[2] == "preview"@
            &&& parts[3] == name
        }),
{
    reveal_strlit("/file/");
    reveal_strlit("/preview/");
    reveal_strlit("preview");
    let url = "/file/"@ + d + "/preview/"@ + name;
    let q = url.skip(1);
    assert(url[0] == '/' && q[0] == 'f');
    assert(without_slashes(url) == without_slashes(q));
    assert(without_slashes(q) == q);
    let (a, b, c) = (4int, 5 + d.len() as int, 13 + d.len() as int);
    assert(q.len() == c + 1 + name.len());
    assert(q.subrange(a + 1, b) =~= d);
    assert(q.subrange(b + 1, c) =~= "preview"@);
    assert(q.subrange(c + 1, q.len() as int) =~= name);
    assert(q[a] == '/' && q[b] == '/' && q[c] == '/');
    assert forall|j: int| 0 <= j < q.len() && j != a && j != b && j != c implies #[trigger] q[j]
        != '/' by {
        if a < j < b {
            assert(q[j] == d[j - 5]);
        } else if j > c {
            assert(q[j] == name[j - c - 1]);
        }
    }
    text::lemma_find_at(q, '/', 0, a);
    text::lemma_find_at(q, '/', a + 1, b);
    text::lemma_find_at(q, '/', b + 1, c);
    text::lemma_find_at(q, '/', c + 1, q.len() as int);
    assert(text::pieces_from(q, '/', c + 1) =~= seq![name]);
    assert(text::pieces_from(q, '/', b + 1) =~= seq!["preview"@, name]);
    assert(text::pieces_from(q, '/', a + 1) =~= seq![d, "preview"@, name]);
}

/// A number of 64 bits has few digits.
proof fn lemma_decimal_is_short(n: nat)
    ensures
        n <= u64::MAX ==> text::decimal(n).len() <= 20,
{
    if n <= u64::MAX {
        reveal_with_fuel(text::decimal, 21);
    }
}

/// How much of a request's body is read.
pub const MAX_BODY: u64 = 1048576;

/// The value in the body of a request: its bytes, or why they could not be
/// read.
pub fn read_json_body(body: &Result<Vec<u8>, String>) -> (r: Result<Json, String>)
    ensures
        match *body {
            Ok(bytes) => match json::json_read(bytes@) {
                Ok(v) => r is Ok && r->Ok_0@ == v,
                Err(e) => r is Err && r->Err_0@ == "bad json: "@ + e,
            },
            Err(e) => r is Err && r->Err_0@ == "read body: "@ + e@,
        },
{
    match body {
        Ok(bytes) => match json::read(bytes) {
            Ok(v) => Ok(v),
            Err(e) => Err(joined("bad json: ", &e)),
        },
        Err(e) => Err(joined("read body: ", e)),
    }
}

/// An installation option as JSON.
pub open spec fn option_json(o: OptionV) -> JsonV {
    JsonV::Object(
        seq![
            ("id"@, JsonV::Text(o.id)),
            ("label"@, JsonV::Text(o.label)),
            ("detail"@, JsonV::Text(o.detail)),
            ("recommended"@, JsonV::Bool(o.recommended)),
            ("needs_admin"@, JsonV::Bool(o.needs_admin)),
        ],
    )
}

/// An installation option as JSON.
fn option_value(o: &Option_) -> (r: Json)
    ensures
        r@ == option_json(o@),
        json::has_no_fraction(r@),
{
    let r = Json::single("id", Json::Text(o.id.to_owned())).with(
        "label",
        Json::Text(o.label.to_owned()),
    ).with("detail", Json::Text(o.detail.clone())).with(
        "recommended",
        Json::Bool(o.recommended),
    ).with("needs_admin", Json::Bool(o.needs_admin));
    assert(r@->Object_0 =~= option_json(o@)->Object_0);
    r
}

/// What is answered to a request for the ways to install ffmpeg.
pub fn api_ffmpeg_options(options: &Vec<Option_>) -> (r: Reply)
    ensures
        r@ == ok_reply(
            JsonV::Object(
                seq![
                    (
                        "options"@,
                        JsonV::List(
                            install::options_view(options@).map_values(
                                |o: OptionV| option_json(o),
                            ),
                        ),
                    ),
                ],
            ),
        ),
{
    let ghost want = install::options_view(options@).map_values(|o: OptionV| option_json(o));
    let mut all: Vec<Json> = Vec::new();
    let mut i: usize = 0;
    while i < options.len()
        invariant
            0 <= i <= options@.len(),
            all@.len() == i,
            want == install::options_view(options@).map_values(|o: OptionV| option_json(o)),
            forall|j: int|
                0 <= j < i ==> json::json_view(#[trigger] all@[j]) == want[j]
                    && json::has_no_fraction(want[j]),
        decreases options@.len() - i,
    {
        assert(install::options_view(options@)[i as int] == options@[i as int]@);
        all.push(option_value(&options[i]));
        i = i + 1;
    }
    let list = Json::List(all);
    assert(list@->List_0 =~= want);
    assert(json::has_no_fraction(list@)) by {
        assert forall|j: int| 0 <= j < want.len() implies json::has_no_fraction(
            #[trigger] want[j],
        ) by {
            assert(json::json_view(all@[j]) == want[j]);
        }
    }
    ok_json(&Json::single("options", list))
}

/// The method that a request to install ffmpeg names.
pub open spec fn install_method(body: JsonV) -> Option<Method> {
    match json::text_of(json::at(body, "method"@)) {
        Some(t) => install::method_of(t),
        None => None,
    }
}

/// What a request to install ffmpeg comes to: the method by which the
/// installation is to be started, or a refusal.
pub fn api_ffmpeg_install(state: &mut AppState, body: &Json) -> (r: Result<Method, Reply>)
    ensures
        ({
            let s = old(state)@;
            match install_method(body@) {
                None => final(state)@ == s && r is Err && r->Err_0@ == err_reply(
                    400,
                    "Ese método de instalación no existe."@,
                ),
                Some(m) => if s.installing {
                    final(state)@ == s && r is Err && r->Err_0@ == err_reply(
                        409,
                        "Ya hay una instalación en curso."@,
                    )
                } else {
                    r == Ok::<Method, Reply>(m) && final(state)@ == (StateV {
                        installing: true,
                        steps: seq![],
                        setup_error: None,
                        ..s
                    })
                },
            }
        }),
{
    let method: Option<Method> = match body.text_at("method") {
        Some(t) => Method::from_id(t),
        None => None,
    };
    match method {
        None => Err(err_json(400, "Ese método de instalación no existe.")),
        Some(m) => {
            if state.setup.installing {
                return Err(err_json(409, "Ya hay una instalación en curso."));
            }
            state.setup = Setup { installing: true, steps: Vec::new(), error: None };
            assert(state@.steps =~= seq![]);
            Ok(m)
        },
    }
}

/// What is answered once a conversion or an installation has been started.
pub fn started() -> (r: Reply)
    ensures
        r@ == ok_reply(JsonV::Object(seq![("started"@, JsonV::Bool(true))])),
{
    ok_json(&Json::single("started", Json::Bool(true)))
}

/// Takes note of a step of the installation.
pub fn note_step(state: &mut AppState, step: &str)
    ensures
        final(state)@ == (StateV { steps: old(state)@.steps.push(step@), ..old(state)@ }),
{
    put(&mut state.setup.steps, step);
}

/// Takes note that the installation has ended, and of what went wrong.
pub fn end_install(state: &mut AppState, error: Option<String>)
    ensures
        final(state)@ == (StateV {
            installing: false,
            setup_error: maybe(error),
            ..old(state)@
        }),
{
    state.setup.installing = false;
    state.setup.error = error;
}

} // verus!
