//! What is asked of the ffmpeg and ffprobe executables, and what is made of
//! their answers: where they may be, the arguments of each call, the facts
//! about a source, and the progress and the failures of an encode.
use crate::decimal;
use crate::decimal::parse_double;
use crate::double;
use crate::double::{Double, Real};
use crate::exif;
use crate::exif::exif_orientation;
use crate::install;
use crate::install::{bin_dir, exe_name, has_text, package_manager_dirs, Env};
use crate::json;
use crate::json::{Json, JsonV};
use crate::path;
use crate::path::{extension, join, parent, Os};
use crate::plan;
use crate::plan::{filter_chain, EncodePlan, MediaInfo, MediaInfoV, RateControl};
use crate::shortest;
use crate::shortest::shortest_text;
use crate::text;
use crate::text::{
    begins_with, chars_of, decimal_text, find_char, join_texts, joined, last_texts, lines_of,
    lossy_text, parse_number, put, put_all, same, same_ignoring_case, string_of, trimmed,
};
use vstd::prelude::*;

verus! {

/// The two executables that do the work.
#[derive(Debug, Clone)]
pub struct Tools {
    pub ffmpeg: String,
    pub ffprobe: String,
}

/// Shown when ffmpeg is missing and the user asked for a terminal-only run.
/// The GUI never shows this: it offers to install ffmpeg instead.
pub const INSTALL_HELP: &'static str = "ffmpeg was not found. Let resizer install it for you:
  resizer-cli install-ffmpeg            (shows the options for your system)
  resizer-cli install-ffmpeg --method download
Or open the graphical interface (run `resizer`) and follow the setup screen.";

/// How a program that was called came out.
#[derive(Debug, Clone)]
pub enum Ran {
    /// It could not be started, for the reason given.
    NotStarted(String),
    Ended(Output),
}

/// What a program left behind.
#[derive(Debug, Clone)]
pub struct Output {
    pub success: bool,
    pub stdout: Vec<u8>,
    pub stderr: Vec<u8>,
}

/// Where the first stream of that type stands from `from` on, or past the last.
pub open spec fn stream_from(streams: Seq<JsonV>, kind: Seq<char>, from: int) -> int
    decreases streams.len() - from,
{
    if from >= streams.len() || json::at(streams[from], "codec_type"@) == JsonV::Text(kind) {
        from
    } else {
        stream_from(streams, kind, from + 1)
    }
}

/// Whether there is a stream of that type.
pub open spec fn has_stream(streams: Seq<JsonV>, kind: Seq<char>) -> bool {
    exists|i: int|
        0 <= i < streams.len() && json::at(#[trigger] streams[i], "codec_type"@) == JsonV::Text(
            kind,
        )
}

/// The first stream of that type, where there is one.
fn first_stream<'a>(v: &'a Json, kind: &str) -> (r: Option<&'a Json>)
    ensures
        ({
            let streams = json::items(json::at(v@, "streams"@));
            let i = stream_from(streams, kind@, 0);
            &&& r is Some == (i < streams.len())
            &&& r is Some ==> r->0@ == streams[i]
            &&& r is Some == has_stream(streams, kind@)
        }),
{
    let ghost streams = json::items(json::at(v@, "streams"@));
    match v.get("streams") {
        Some(Json::List(all)) => {
            let mut i: usize = 0;
            while i < all.len()
                invariant
                    0 <= i <= all@.len(),
                    streams == json::items(json::at(v@, "streams"@)),
                    streams.len() == all@.len(),
                    forall|j: int|
                        0 <= j < all@.len() ==> #[trigger] streams[j] == json::json_view(all@[j]),
                    stream_from(streams, kind@, 0) == stream_from(streams, kind@, i as int),
                    forall|j: int|
                        0 <= j < i ==> json::at(#[trigger] streams[j], "codec_type"@)
                            != JsonV::Text(kind@),
                decreases all@.len() - i,
            {
                let s: &Json = &all[i];
                assert(streams[i as int] == s@);
                if let Some(t) = s.text_at("codec_type") {
                    if same(t, kind) {
                        return Some(s);
                    }
                }
                i = i + 1;
            }
            None
        },
        _ => None,
    }
}

/// The whole number of degrees that a value is, where it is a number.
pub open spec fn degrees(j: JsonV) -> Option<int> {
    match j {
        JsonV::Uint(n) => Some(
            if n <= i64::MAX {
                n as int
            } else {
                double::truncated(double::whole(n as nat))
            },
        ),
        JsonV::Int(n) => Some(n as int),
        JsonV::Float(x) => Some(double::truncated(x)),
        _ => None,
    }
}

/// The rotation that the first of the side data that has one gives, from
/// `from` on.
pub open spec fn rotation_from(data: Seq<JsonV>, from: int) -> int
    decreases data.len() - from,
{
    if from >= data.len() {
        0
    } else {
        match degrees(json::at(data[from], "rotation"@)) {
            Some(d) => d,
            None => rotation_from(data, from + 1),
        }
    }
}

/// A whole number cut to 32 bits.
pub open spec fn wrapped(n: int) -> i32 {
    ((n + 0x8000_0000) % 0x1_0000_0000 - 0x8000_0000) as i32
}

/// The whole number of degrees that a value is, where it is a number.
fn degrees_of(j: &Json) -> (r: Option<i64>)
    ensures
        r is Some == degrees(j@) is Some,
        r is Some ==> r->0 == degrees(j@)->0,
{
    match j {
        Json::Uint(n) => if *n <= 0x7FFF_FFFF_FFFF_FFFF {
            Some(*n as i64)
        } else {
            Some(Double::from_u64(*n).to_i64())
        },
        Json::Int(n) => Some(*n),
        Json::Float(d) => Some(d.to_i64()),
        _ => None,
    }
}

/// The display rotation of a stream, in degrees.
fn rotation_of(video: &Json) -> (r: i32)
    ensures
        r == wrapped(rotation_from(json::items(json::at(video@, "side_data_list"@)), 0)),
{
    let ghost data = json::items(json::at(video@, "side_data_list"@));
    let mut found: i64 = 0;
    if let Some(Json::List(all)) = video.get("side_data_list") {
        let mut i: usize = 0;
        while i < all.len()
            invariant_except_break
                0 <= i <= all@.len(),
                rotation_from(data, 0) == rotation_from(data, i as int),
                found == 0,
            invariant
                data.len() == all@.len(),
                forall|j: int|
                    0 <= j < all@.len() ==> #[trigger] data[j] == json::json_view(all@[j]),
            ensures
                found == rotation_from(data, 0),
            decreases all@.len() - i,
        {
            let d: &Json = &all[i];
            assert(data[i as int] == d@);
            if let Some(x) = d.get("rotation") {
                if let Some(n) = degrees_of(x) {
                    found = n;
                    break;
                }
            }
            i = i + 1;
        }
    }
    let shifted: i128 = (found as i128 + 0x8000_0000) + 0x1_0000_0000_0000_0000;
    proof {
        let n = found as int;
        assert((n + 0x8000_0000 + 0x1_0000_0000_0000_0000) % 0x1_0000_0000 == (n + 0x8000_0000)
            % 0x1_0000_0000);
    }
    (shifted % 0x1_0000_0000 - 0x8000_0000) as i32
}

/// A frame rate: two numbers with a slash between them. None where there is
/// none, or where one of them is zero.
pub open spec fn rate(s: Seq<char>) -> Option<Real> {
    let i = text::find_from(s, '/', 0);
    if i >= s.len() {
        None
    } else {
        match (decimal::parsed(s.take(i)), decimal::parsed(s.skip(i + 1))) {
            (Some(n), Some(d)) => if is_zero(n) || is_zero(d) {
                None
            } else {
                Some(double::quotient(n, d))
            },
            _ => None,
        }
    }
}

/// Whether a number is zero, of either sign.
pub open spec fn is_zero(v: Real) -> bool {
    v is Finite && v->Finite_1 == 0
}

/// Whether a number is zero, of either sign.
fn nothing(d: Double) -> (r: bool)
    ensures
        r == is_zero(d@),
{
    !d.is_nan() && !d.is_infinite() && d.is_zero()
}

/// A frame rate: two numbers with a slash between them.
fn parse_rate(s: &str) -> (r: Option<Double>)
    ensures
        r is Some == rate(s@) is Some,
        r is Some ==> r->0@ == rate(s@)->0,
{
    let v = chars_of(s);
    let n: usize = v.len();
    let i: usize = find_char(&v, '/', 0);
    if i >= n {
        return None;
    }
    assert(v@.subrange(0, i as int) =~= s@.take(i as int));
    assert(v@.subrange(i + 1, n as int) =~= s@.skip(i + 1));
    match (parse_double(&string_of(&v, 0, i)), parse_double(&string_of(&v, i + 1, n))) {
        (Some(num), Some(den)) => if nothing(den) || nothing(num) {
            None
        } else {
            Some(num.div(den))
        },
        _ => None,
    }
}

/// The number that a text is, where it is one; none where there is no text.
pub open spec fn number_in(s: Option<Seq<char>>) -> Option<Real> {
    match s {
        Some(t) => decimal::parsed(t),
        None => None,
    }
}

/// The first of two numbers that is there, or zero.
pub open spec fn either(a: Option<Real>, b: Option<Real>) -> Real {
    match (a, b) {
        (Some(x), _) => x,
        (None, Some(y)) => y,
        _ => double::whole(0),
    }
}

/// The text that a value is, or an empty one.
pub open spec fn text_or_none(j: JsonV) -> Seq<char> {
    match json::text_of(j) {
        Some(t) => t,
        None => ""@,
    }
}

/// How long a stream lasts, by itself or by its container.
pub open spec fn duration(v: JsonV, video: JsonV) -> Real {
    either(
        number_in(json::text_of(json::at(video, "duration"@))),
        number_in(json::text_of(json::at(json::at(v, "format"@), "duration"@))),
    )
}

/// Whether a stream moves: it lasts, and is not a single frame.
pub open spec fn moves(v: JsonV, video: JsonV) -> bool {
    double::less(double::literal(5, 100), duration(v, video)) && !(json::text_of(
        json::at(video, "nb_frames"@),
    ) matches Some(t) && text::number(t) == Some(1u64))
}

/// The EXIF orientation that undoes a rotation.
pub open spec fn orientation_of_rotation(rotation: i32) -> u8 {
    if rotation % 360 == 90 {
        8
    } else if rotation % 360 == 180 {
        3
    } else if rotation % 360 == 270 {
        6
    } else {
        1
    }
}

/// A side of a stream in pixels, cut to 32 bits.
pub open spec fn side(video: JsonV, key: Seq<char>) -> u32 {
    match json::uint_of(json::at(video, key)) {
        Some(n) => (n % 0x1_0000_0000) as u32,
        None => 0,
    }
}

/// The frame rate of a stream, on average or else at its base.
pub open spec fn frame_rate(video: JsonV) -> Real {
    either(
        rate(text_or_none(json::at(video, "avg_frame_rate"@))),
        rate(text_or_none(json::at(video, "r_frame_rate"@))),
    )
}

/// What ffprobe's answer says about a source.
pub open spec fn probed(v: JsonV, size_bytes: u64) -> Result<MediaInfoV, Seq<char>> {
    let streams = json::items(json::at(v, "streams"@));
    let i = stream_from(streams, "video"@, 0);
    if i >= streams.len() {
        Err("no video/image stream found"@)
    } else {
        let video = streams[i];
        let rotation = wrapped(rotation_from(json::items(json::at(video, "side_data_list"@)), 0));
        if side(video, "width"@) == 0 || side(video, "height"@) == 0 {
            Err("stream has no dimensions"@)
        } else {
            Ok(
                MediaInfoV {
                    width: side(video, "width"@),
                    height: side(video, "height"@),
                    rotation,
                    orientation: if moves(v, video) {
                        1
                    } else {
                        orientation_of_rotation(rotation)
                    },
                    duration_s: duration(v, video),
                    fps: frame_rate(video),
                    has_audio: has_stream(streams, "audio"@),
                    is_video: moves(v, video),
                    size_bytes,
                },
            )
        }
    }
}

/// A side of a stream in pixels.
fn side_of(video: &Json, key: &str) -> (r: u32)
    ensures
        r == side(video@, key@),
{
    match video.uint_at(key) {
        Some(n) => (n % 0x1_0000_0000) as u32,
        None => 0,
    }
}

/// The number in the text of a member, where it is one.
fn number_at(j: &Json, key: &str) -> (r: Option<Double>)
    ensures
        r is Some == number_in(json::text_of(json::at(j@, key@))) is Some,
        r is Some ==> r->0@ == number_in(json::text_of(json::at(j@, key@)))->0,
{
    match j.text_at(key) {
        Some(t) => parse_double(t),
        None => None,
    }
}

/// How long a stream lasts, by itself or by its container.
fn duration_of(v: &Json, video: &Json) -> (r: Double)
    ensures
        r@ == duration(v@, video@),
{
    if let Some(d) = number_at(video, "duration") {
        return d;
    }
    if let Some(format) = v.get("format") {
        if let Some(d) = number_at(format, "duration") {
            return d;
        }
    }
    Double::from_u64(0)
}

/// The frame rate in the text of a member.
fn rate_at(j: &Json, key: &str) -> (r: Option<Double>)
    ensures
        r is Some == rate(text_or_none(json::at(j@, key@))) is Some,
        r is Some ==> r->0@ == rate(text_or_none(json::at(j@, key@)))->0,
{
    match j.text_at(key) {
        Some(t) => parse_rate(t),
        None => parse_rate(""),
    }
}

/// The frame rate of a stream.
fn fps_of(video: &Json) -> (r: Double)
    ensures
        r@ == frame_rate(video@),
{
    match rate_at(video, "avg_frame_rate") {
        Some(f) => f,
        None => match rate_at(video, "r_frame_rate") {
            Some(f) => f,
            None => Double::from_u64(0),
        },
    }
}

/// Whether a stream moves: single-frame streams (or streams with no meaningful
/// duration) are images.
fn is_moving(v: &Json, video: &Json) -> (r: bool)
    ensures
        r == moves(v@, video@),
{
    let single: bool = match video.text_at("nb_frames") {
        Some(t) => match parse_number(t) {
            Some(n) => n == 1,
            None => false,
        },
        None => false,
    };
    let lasts: bool = Double::ratio(5, 100).lt(duration_of(v, video));
    lasts && !single
}

/// The EXIF orientation that undoes a rotation.
pub(crate) fn upright(rotation: i32) -> (r: u8)
    ensures
        r == orientation_of_rotation(rotation),
{
    let turn: i64 = (rotation as i64 + 0x1_0000_0000 * 360) % 360;
    proof {
        vstd::arithmetic::div_mod::lemma_mod_multiples_vanish(0x1_0000_0000, rotation as int, 360);
    }
    if turn == 90 {
        8
    } else if turn == 180 {
        3
    } else if turn == 270 {
        6
    } else {
        1
    }
}

/// Parse ffprobe's JSON into MediaInfo (pure, unit-testable).
pub fn parse_probe(v: &Json, size_bytes: u64) -> (r: Result<MediaInfo, String>)
    ensures
        r is Ok == probed(v@, size_bytes) is Ok,
        r is Ok ==> r->Ok_0@ == probed(v@, size_bytes)->Ok_0,
        r is Err ==> r->Err_0@ == probed(v@, size_bytes)->Err_0,
{
    let video: &Json = match first_stream(v, "video") {
        Some(s) => s,
        None => {
            return Err("no video/image stream found".to_owned());
        },
    };
    let has_audio: bool = first_stream(v, "audio").is_some();
    let width: u32 = side_of(video, "width");
    let height: u32 = side_of(video, "height");
    if width == 0 || height == 0 {
        return Err("stream has no dimensions".to_owned());
    }
    let rotation: i32 = rotation_of(video);
    let duration_s: Double = duration_of(v, video);
    let fps: Double = fps_of(video);
    let is_video: bool = is_moving(v, video);
    // Images are encoded with -noautorotate, so a stream-level rotation (HEIC)
    // becomes an orientation we apply ourselves. EXIF, when present, wins
    // (see `oriented`).
    let orientation: u8 = if is_video {
        1
    } else {
        upright(rotation)
    };
    Ok(
        MediaInfo {
            width,
            height,
            rotation,
            orientation,
            duration_s,
            fps,
            has_audio,
            is_video,
            size_bytes,
        },
    )
}

/// The arguments of ffprobe for a file.
pub open spec fn probe_command(input: Seq<char>) -> Seq<Seq<char>> {
    seq![
        "-v"@,
        "error"@,
        "-print_format"@,
        "json"@,
        "-show_streams"@,
        "-show_format"@,
        input,
    ]
}

/// The arguments of ffprobe for a file.
pub fn probe_args(input: &str) -> (r: Vec<String>)
    ensures
        text::texts(r@) == probe_command(input@),
{
    let mut a: Vec<String> = Vec::new();
    assert(text::texts(a@) =~= seq![]);
    put(&mut a, "-v");
    put(&mut a, "error");
    put(&mut a, "-print_format");
    put(&mut a, "json");
    put(&mut a, "-show_streams");
    put(&mut a, "-show_format");
    put(&mut a, input);
    a
}

/// What a call of ffprobe says about a file, or why it says nothing.
pub open spec fn probe_result(input: Seq<char>, ran: Ran, size_bytes: u64) -> Result<
    MediaInfoV,
    Seq<char>,
> {
    match ran {
        Ran::NotStarted(e) => Err("failed to run ffprobe: "@ + e@),
        Ran::Ended(out) => if !out.success {
            Err(
                "ffprobe could not read "@ + input + ": "@ + text::trim(
                    text::lossy(out.stderr@),
                ),
            )
        } else {
            match json::json_read(out.stdout@) {
                Ok(v) => probed(v, size_bytes),
                Err(e) => Err("bad ffprobe output: "@ + e),
            }
        },
    }
}

/// What is said of a file that ffprobe could not read.
pub fn unreadable(input: &str, stderr: &str) -> (r: String)
    ensures
        r@ == "ffprobe could not read "@ + input@ + ": "@ + text::trim(stderr@),
{
    joined("ffprobe could not read ", input).concat(": ").concat(&trimmed(stderr))
}

/// What a call of ffprobe says about a file. (An image is then turned by its
/// own EXIF block, see `oriented`.)
pub fn probe(input: &str, ran: &Ran, size_bytes: u64) -> (r: Result<MediaInfo, String>)
    ensures
        r is Ok == probe_result(input@, *ran, size_bytes) is Ok,
        r is Ok ==> r->Ok_0@ == probe_result(input@, *ran, size_bytes)->Ok_0,
        r is Err ==> r->Err_0@ == probe_result(input@, *ran, size_bytes)->Err_0,
{
    let out: &Output = match ran {
        Ran::NotStarted(e) => {
            return Err(joined("failed to run ffprobe: ", e));
        },
        Ran::Ended(out) => out,
    };
    if !out.success {
        return Err(unreadable(input, &lossy_text(&out.stderr)));
    }
    match json::read(&out.stdout) {
        Ok(v) => parse_probe(&v, size_bytes),
        Err(e) => Err(joined("bad ffprobe output: ", &e)),
    }
}

/// How much of an image to scan for EXIF. JPEG and PNG keep it before the
/// pixel data; this bound only matters for huge TIFF or WebP files that
/// store it at the end, which then stay as stored instead of costing
/// gigabytes of memory across parallel jobs.
pub const EXIF_SCAN_BYTES: u64 = 67108864;

/// What is known of an image, once its own bytes have been looked at: the
/// orientation of its EXIF block wins over what ffprobe says, since versions of
/// ffmpeg disagree on which formats they turn by themselves.
pub open spec fn with_exif(info: MediaInfo, head: Option<Seq<u8>>) -> MediaInfo {
    match head {
        Some(d) => match exif::orientation_of(d) {
            Some(o) if !info.is_video => MediaInfo { orientation: o, ..info },
            _ => info,
        },
        None => info,
    }
}

/// What is known of an image, once its own bytes have been looked at.
pub fn oriented(info: MediaInfo, head: Option<&[u8]>) -> (r: MediaInfo)
    ensures
        r == with_exif(
            info,
            match head {
                Some(d) => Some(d@),
                None => None,
            },
        ),
{
    let mut info: MediaInfo = info;
    if !info.is_video {
        if let Some(d) = head {
            if let Some(o) = exif_orientation(d) {
                info.orientation = o;
            }
        }
    }
    info
}

/// The arguments of an encode from the input through the codecs, the same for
/// previews and for every pass.
pub open spec fn base_args(
    input: Seq<char>,
    p: EncodePlan,
    preset: Seq<char>,
    trim: Option<Real>,
) -> Seq<Seq<char>> {
    seq!["-hide_banner"@, "-y"@, "-i"@, input] + (match trim {
        Some(t) => seq!["-t"@, shortest::shown(t)],
        None => seq![],
    }) + seq!["-vf"@, text::join(plan::filters(p), ","@)] + (match p.fps {
        Some(fps) => seq!["-r"@, shortest::shown(fps@)],
        None => seq![],
    }) + seq!["-c:v"@, "libx264"@, "-preset"@, preset, "-pix_fmt"@, "yuv420p"@]
}

/// The text of an optional string.
pub open spec fn maybe(s: Option<&str>) -> Option<Seq<char>> {
    match s {
        Some(t) => Some(t@),
        None => None,
    }
}

/// An optional number of seconds.
pub open spec fn seconds(d: Option<Double>) -> Option<Real> {
    match d {
        Some(t) => Some(t@),
        None => None,
    }
}

/// Common video-encode arguments (input through codecs), shared by both passes.
fn base_video_args(
    input: &str,
    plan: &EncodePlan,
    x264_preset: &str,
    trim_s: Option<Double>,
) -> (r: Vec<String>)
    ensures
        text::texts(r@) == base_args(input@, *plan, x264_preset@, seconds(trim_s)),
{
    let mut a: Vec<String> = Vec::new();
    assert(text::texts(a@) =~= seq![]);
    put(&mut a, "-hide_banner");
    put(&mut a, "-y");
    put(&mut a, "-i");
    put(&mut a, input);
    if let Some(t) = trim_s {
        put(&mut a, "-t");
        put(&mut a, &shortest_text(t));
    }
    put(&mut a, "-vf");
    put(&mut a, &filter_chain(plan));
    if let Some(fps) = plan.fps {
        put(&mut a, "-r");
        put(&mut a, &shortest_text(fps));
    }
    put(&mut a, "-c:v");
    put(&mut a, "libx264");
    put(&mut a, "-preset");
    put(&mut a, x264_preset);
    put(&mut a, "-pix_fmt");
    put(&mut a, "yuv420p");
    assert(text::texts(a@) =~= base_args(input@, *plan, x264_preset@, seconds(trim_s)));
    a
}

/// The arguments for the audio track.
pub open spec fn audio(p: EncodePlan) -> Seq<Seq<char>> {
    match p.audio_kbps {
        Some(kbps) => seq!["-c:a"@, "aac"@, "-b:a"@, text::decimal(kbps as nat) + "k"@],
        None => seq!["-an"@],
    }
}

/// A bitrate as ffmpeg takes it.
fn kilo(kbps: u64) -> (r: String)
    ensures
        r@ == text::decimal(kbps as nat) + "k"@,
{
    decimal_text(kbps).concat("k")
}

/// The arguments for the audio track.
fn audio_args(plan: &EncodePlan) -> (r: Vec<String>)
    ensures
        text::texts(r@) == audio(*plan),
{
    let mut a: Vec<String> = Vec::new();
    assert(text::texts(a@) =~= seq![]);
    match plan.audio_kbps {
        Some(kbps) => {
            put(&mut a, "-c:a");
            put(&mut a, "aac");
            put(&mut a, "-b:a");
            put(&mut a, &kilo(kbps as u64));
        },
        None => {
            put(&mut a, "-an");
        },
    }
    a
}

/// The arguments of a preview: one pass at the planned rate.
pub open spec fn preview(
    input: Seq<char>,
    output: Seq<char>,
    p: EncodePlan,
    trim: Option<Real>,
) -> Seq<Seq<char>> {
    base_args(input, p, "veryfast"@, trim) + (match p.rate {
        RateControl::Crf(crf) => seq!["-crf"@, text::decimal(crf as nat)],
        RateControl::TwoPass { video_kbps } => seq![
            "-b:v"@,
            text::decimal(video_kbps as nat) + "k"@,
        ],
    }) + audio(p) + seq!["-movflags"@, "+faststart"@, output]
}

/// Single-pass encode used for previews: same filters and rate control as the
/// real plan (one ABR pass approximates the two-pass result), always the
/// veryfast preset. Sharing base_video_args keeps previews honest when encode
/// flags change.
pub fn preview_command(
    input: &str,
    output: &str,
    plan: &EncodePlan,
    trim_s: Option<Double>,
) -> (r: Vec<String>)
    ensures
        text::texts(r@) == preview(input@, output@, *plan, seconds(trim_s)),
{
    let mut a: Vec<String> = base_video_args(input, plan, "veryfast", trim_s);
    match plan.rate {
        RateControl::Crf(crf) => {
            put(&mut a, "-crf");
            put(&mut a, &decimal_text(crf as u64));
        },
        RateControl::TwoPass { video_kbps } => {
            put(&mut a, "-b:v");
            put(&mut a, &kilo(video_kbps as u64));
        },
    }
    put_all(&mut a, &audio_args(plan));
    put(&mut a, "-movflags");
    put(&mut a, "+faststart");
    put(&mut a, output);
    assert(text::texts(a@) =~= preview(input@, output@, *plan, seconds(trim_s)));
    a
}

/// The arguments that make ffmpeg report its progress.
pub open spec fn reporting() -> Seq<Seq<char>> {
    seq!["-nostats"@, "-progress"@, "pipe:1"@]
}

/// The arguments for an average bitrate, with room for peaks.
pub open spec fn bitrate(kbps: nat) -> Seq<Seq<char>> {
    seq![
        "-b:v"@,
        text::decimal(kbps) + "k"@,
        "-maxrate"@,
        text::decimal(kbps * 3 / 2) + "k"@,
        "-bufsize"@,
        text::decimal(kbps * 3) + "k"@,
    ]
}

/// Where the output of a first pass goes: nowhere.
pub open spec fn nowhere(os: Os) -> Seq<char> {
    if os is Windows {
        "NUL"@
    } else {
        "/dev/null"@
    }
}

/// The arguments of each pass of a video encode.
pub open spec fn passes(
    os: Os,
    input: Seq<char>,
    output: Seq<char>,
    p: EncodePlan,
    preset: Seq<char>,
    passlog: Seq<char>,
    trim: Option<Real>,
) -> Seq<Seq<Seq<char>>> {
    let base = base_args(input, p, preset, trim);
    let end = seq!["-movflags"@, "+faststart"@] + reporting() + seq![output];
    match p.rate {
        RateControl::Crf(crf) => seq![
            base + seq!["-crf"@, text::decimal(crf as nat)] + audio(p) + end,
        ],
        RateControl::TwoPass { video_kbps } => seq![
            base + bitrate(video_kbps as nat) + seq![
                "-pass"@,
                "1"@,
                "-passlogfile"@,
                passlog,
                "-an"@,
                "-f"@,
                "null"@,
            ] + reporting() + seq![nowhere(os)],
            base + bitrate(video_kbps as nat) + seq!["-pass"@, "2"@, "-passlogfile"@, passlog]
                + audio(p) + end,
        ],
    }
}

/// Appends the arguments that make ffmpeg report its progress.
fn put_reporting(a: &mut Vec<String>)
    ensures
        text::texts(final(a)@) == text::texts(old(a)@) + reporting(),
{
    put(a, "-nostats");
    put(a, "-progress");
    put(a, "pipe:1");
    assert(text::texts(a@) =~= text::texts(old(a)@) + reporting());
}

/// Appends the arguments for an average bitrate.
fn put_bitrate(a: &mut Vec<String>, kbps: u32)
    ensures
        text::texts(final(a)@) == text::texts(old(a)@) + bitrate(kbps as nat),
{
    put(a, "-b:v");
    put(a, &kilo(kbps as u64));
    put(a, "-maxrate");
    put(a, &kilo(kbps as u64 * 3 / 2));
    put(a, "-bufsize");
    put(a, &kilo(kbps as u64 * 3));
    assert(text::texts(a@) =~= text::texts(old(a)@) + bitrate(kbps as nat));
}

/// Appends the end of a pass that writes the output.
fn put_end(a: &mut Vec<String>, output: &str)
    ensures
        text::texts(final(a)@) == text::texts(old(a)@) + (seq!["-movflags"@, "+faststart"@]
            + reporting() + seq![output@]),
{
    put(a, "-movflags");
    put(a, "+faststart");
    put_reporting(a);
    put(a, output);
    assert(text::texts(a@) =~= text::texts(old(a)@) + (seq!["-movflags"@, "+faststart"@]
        + reporting() + seq![output@]));
}

/// Build the ffmpeg invocation(s) for a video encode. Returns one arg list
/// per pass (CRF = 1, two-pass ABR = 2). `passlog` is the x264 stats prefix.
pub fn video_commands(
    os: Os,
    input: &str,
    output: &str,
    plan: &EncodePlan,
    x264_preset: &str,
    passlog: &str,
    trim_s: Option<Double>,
) -> (r: Vec<Vec<String>>)
    ensures
        r@.map_values(|a: Vec<String>| text::texts(a@)) == passes(
            os,
            input@,
            output@,
            *plan,
            x264_preset@,
            passlog@,
            seconds(trim_s),
        ),
{
    let ghost want = passes(
        os,
        input@,
        output@,
        *plan,
        x264_preset@,
        passlog@,
        seconds(trim_s),
    );
    match plan.rate {
        RateControl::Crf(crf) => {
            let mut a: Vec<String> = base_video_args(input, plan, x264_preset, trim_s);
            put(&mut a, "-crf");
            put(&mut a, &decimal_text(crf as u64));
            put_all(&mut a, &audio_args(plan));
            put_end(&mut a, output);
            assert(text::texts(a@) =~= want[0]);
            let r = vec![a];
            assert(r@.map_values(|a: Vec<String>| text::texts(a@)) =~= want);
            r
        },
        RateControl::TwoPass { video_kbps } => {
            let mut p1: Vec<String> = base_video_args(input, plan, x264_preset, trim_s);
            put_bitrate(&mut p1, video_kbps);
            put(&mut p1, "-pass");
            put(&mut p1, "1");
            put(&mut p1, "-passlogfile");
            put(&mut p1, passlog);
            put(&mut p1, "-an");
            put(&mut p1, "-f");
            put(&mut p1, "null");
            put_reporting(&mut p1);
            put(
                &mut p1,
                if os == Os::Windows {
                    "NUL"
                } else {
                    "/dev/null"
                },
            );
            assert(text::texts(p1@) =~= want[0]);

            let mut p2: Vec<String> = base_video_args(input, plan, x264_preset, trim_s);
            put_bitrate(&mut p2, video_kbps);
            put(&mut p2, "-pass");
            put(&mut p2, "2");
            put(&mut p2, "-passlogfile");
            put(&mut p2, passlog);
            put_all(&mut p2, &audio_args(plan));
            put_end(&mut p2, output);
            assert(text::texts(p2@) =~= want[1]);
            let r = vec![p1, p2];
            assert(r@.map_values(|a: Vec<String>| text::texts(a@)) =~= want);
            r
        },
    }
}

/// A preview is honest: it begins with the very arguments that the encode
/// begins with, but for the speed.
pub proof fn law_previews_share_the_base(
    os: Os,
    input: Seq<char>,
    output: Seq<char>,
    p: EncodePlan,
    passlog: Seq<char>,
    trim: Option<Real>,
    i: int,
)
    requires
        0 <= i < passes(os, input, output, p, "veryfast"@, passlog, trim).len(),
    ensures
        ({
            let base = base_args(input, p, "veryfast"@, trim);
            let n = base.len() as int;
            &&& preview(input, output, p, trim).take(n) == base
            &&& passes(os, input, output, p, "veryfast"@, passlog, trim)[i].take(n) == base
        }),
{
    let base = base_args(input, p, "veryfast"@, trim);
    let n = base.len() as int;
    assert(preview(input, output, p, trim).take(n) =~= base);
    assert(passes(os, input, output, p, "veryfast"@, passlog, trim)[i].take(n) =~= base);
}

/// The preview of an encode in one pass is that encode at the same speed, but
/// for the reports of its progress.
pub proof fn law_one_pass_is_previewed_whole(
    os: Os,
    input: Seq<char>,
    output: Seq<char>,
    p: EncodePlan,
    passlog: Seq<char>,
    trim: Option<Real>,
)
    requires
        p.rate is Crf,
    ensures
        ({
            let encode = passes(os, input, output, p, "veryfast"@, passlog, trim);
            let n = encode[0].len() - 4;
            &&& encode.len() == 1
            &&& encode[0].subrange(n, n + 3) == reporting()
            &&& preview(input, output, p, trim) == encode[0].take(n) + encode[0].skip(n + 3)
        }),
{
    let one = passes(os, input, output, p, "veryfast"@, passlog, trim)[0];
    let n = one.len() - 4;
    assert(one.subrange(n, n + 3) =~= reporting());
    assert(preview(input, output, p, trim) =~= one.take(n) + one.skip(n + 3));
}

/// An encode takes two passes exactly where it is sized for a byte target. The
/// last pass writes the output, and the one before it writes nothing.
pub proof fn law_only_the_last_pass_writes(
    os: Os,
    input: Seq<char>,
    output: Seq<char>,
    p: EncodePlan,
    preset: Seq<char>,
    passlog: Seq<char>,
    trim: Option<Real>,
)
    ensures
        ({
            let all = passes(os, input, output, p, preset, passlog, trim);
            &&& all.len() == if p.rate is TwoPass {
                2int
            } else {
                1
            }
            &&& all.last().last() == output
            &&& all.len() == 2 ==> all[0].last() == nowhere(os)
        }),
{
}

/// Whether the file at a path has that extension, in small letters or capitals.
pub open spec fn has_extension(os: Os, s: Seq<char>, e: Seq<char>) -> bool {
    path::suffix(os, s) matches Some(x) && text::lower(x) == text::lower(e)
}

/// Whether the file at a path has that extension.
pub fn is_of(os: Os, file: &str, e: &str) -> (r: bool)
    ensures
        r == has_extension(os, file@, e@),
{
    match extension(os, file) {
        Some(x) => same_ignoring_case(&x, e),
        None => false,
    }
}

/// The arguments of an image encode.
pub open spec fn image(
    os: Os,
    input: Seq<char>,
    output: Seq<char>,
    p: EncodePlan,
    quality: u32,
    is_webp: bool,
) -> Seq<Seq<char>> {
    seq![
        "-hide_banner"@,
        "-y"@,
        "-noautorotate"@,
        "-i"@,
        input,
        "-vf"@,
        text::join(plan::filters(p), ","@) + ",sidedata=mode=delete:type=DISPLAYMATRIX"@,
        "-frames:v"@,
        "1"@,
        "-an"@,
    ] + (if is_webp {
        seq!["-c:v"@, "libwebp"@, "-q:v"@, text::decimal(quality as nat)]
    } else if has_extension(os, output, "png"@) {
        seq!["-compression_level"@, "100"@]
    } else {
        seq!["-q:v"@, text::decimal(quality as nat)]
    }) + seq![output]
}

/// Build the ffmpeg invocation for an image encode.
/// `quality` is in the target encoder's own scale (see plan::image_quality_ladder).
pub fn image_command(
    os: Os,
    input: &str,
    output: &str,
    plan: &EncodePlan,
    quality: u32,
    is_webp: bool,
) -> (r: Vec<String>)
    ensures
        text::texts(r@) == image(os, input@, output@, *plan, quality, is_webp),
{
    // The plan already turns the picture upright (plan.orient), so ffmpeg must
    // not rotate it again, and the output must not carry the orientation
    // forward or viewers would rotate it a second time (ffmpeg 8 writes it
    // into PNG eXIf). Only the display matrix is dropped: ICC profiles stay.
    let mut a: Vec<String> = Vec::new();
    assert(text::texts(a@) =~= seq![]);
    put(&mut a, "-hide_banner");
    put(&mut a, "-y");
    put(&mut a, "-noautorotate");
    put(&mut a, "-i");
    put(&mut a, input);
    put(&mut a, "-vf");
    put(&mut a, &joined(&filter_chain(plan), ",sidedata=mode=delete:type=DISPLAYMATRIX"));
    put(&mut a, "-frames:v");
    put(&mut a, "1");
    put(&mut a, "-an");
    if is_webp {
        put(&mut a, "-c:v");
        put(&mut a, "libwebp");
        put(&mut a, "-q:v");
        put(&mut a, &decimal_text(quality as u64));
    } else if is_of(os, output, "png") {
        put(&mut a, "-compression_level");
        put(&mut a, "100");
    } else {
        put(&mut a, "-q:v");
        put(&mut a, &decimal_text(quality as u64));
    }
    put(&mut a, output);
    assert(text::texts(a@) =~= image(os, input@, output@, *plan, quality, is_webp));
    a
}

/// ffprobe next to a given ffmpeg, or its bare name for a search on PATH.
pub open spec fn sibling(os: Os, ffmpeg: Seq<char>) -> Seq<char> {
    match path::above(os, ffmpeg) {
        Some(dir) => if dir.len() > 0 {
            path::inside(os, dir, install::program(os, "ffprobe"@))
        } else {
            install::program(os, "ffprobe"@)
        },
        None => install::program(os, "ffprobe"@),
    }
}

/// ffprobe living next to a given ffmpeg path (or bare name for PATH lookup).
pub fn sibling_ffprobe(os: Os, ffmpeg: &str) -> (r: String)
    ensures
        r@ == sibling(os, ffmpeg@),
{
    let name: String = exe_name(os, "ffprobe");
    match parent(os, ffmpeg) {
        Some(dir) => if dir.as_str().is_empty() {
            name
        } else {
            join(os, &dir, &name)
        },
        None => name,
    }
}

/// Each of the first `n` directories with that name in it.
pub open spec fn in_each(os: Os, dirs: Seq<Seq<char>>, name: Seq<char>) -> Seq<Seq<char>> {
    Seq::new(dirs.len(), |i: int| path::inside(os, dirs[i], name))
}

/// Every place ffmpeg might live, in priority order.
pub open spec fn places(os: Os, explicit: Option<Seq<char>>, env: Env) -> Seq<Seq<char>> {
    let name = install::program(os, "ffmpeg"@);
    match (explicit, env.ffmpeg_path) {
        (Some(p), _) => seq![p],
        (None, Some(p)) => seq![p@],
        _ => seq![path::inside(os, install::own_bin_dir(os, env), name), name] + in_each(
            os,
            install::manager_dirs(os, env),
            name,
        ) + (match env.current_exe {
            Some(me) => match path::above(os, me@) {
                Some(dir) => seq![path::inside(os, dir, name)],
                None => seq![],
            },
            None => seq![],
        }),
    }
}

/// Every place ffmpeg might live, in priority order.
pub fn candidate_paths(os: Os, explicit: Option<&str>, env: &Env) -> (r: Vec<String>)
    ensures
        text::texts(r@) == places(os, maybe(explicit), *env),
{
    let mut all: Vec<String> = Vec::new();
    assert(text::texts(all@) =~= seq![]);
    // An explicit choice (--ffmpeg or FFMPEG_PATH) is authoritative: if the
    // user names a build, silently running a different one would be wrong.
    if let Some(p) = explicit {
        put(&mut all, p);
        return all;
    }
    if let Some(p) = &env.ffmpeg_path {
        put(&mut all, p);
        return all;
    }
    let name: String = exe_name(os, "ffmpeg");
    // Our own managed copy (installed by the setup screen).
    put(&mut all, &join(os, &bin_dir(os, env), &name));
    // Anything on PATH, including package-manager installs.
    put(&mut all, &name);
    // Package managers drop ffmpeg in well-known places that a *running*
    // process cannot see yet: PATH is inherited at launch, so a fresh winget
    // or Homebrew install would otherwise look like a failed one.
    let dirs: Vec<String> = package_manager_dirs(os, env);
    let ghost start = text::texts(all@);
    let ghost more = in_each(os, text::texts(dirs@), name@);
    let mut i: usize = 0;
    assert(text::texts(all@) =~= start + more.take(0));
    while i < dirs.len()
        invariant
            0 <= i <= dirs@.len(),
            more == in_each(os, text::texts(dirs@), name@),
            text::texts(all@) == start + more.take(i as int),
        decreases dirs@.len() - i,
    {
        assert(text::texts(dirs@)[i as int] == dirs@[i as int]@);
        put(&mut all, &join(os, &dirs[i], &name));
        i = i + 1;
        assert(text::texts(all@) =~= start + more.take(i as int));
    }
    assert(more.take(i as int) =~= more);
    // Portable layout: alongside the executable.
    if let Some(me) = &env.current_exe {
        if let Some(dir) = parent(os, me) {
            put(&mut all, &join(os, &dir, &name));
        }
    }
    assert(text::texts(all@) =~= places(os, maybe(explicit), *env));
    all
}

/// Whether both executables at a place answer.
pub open spec fn works(os: Os, ffmpeg: Seq<char>, working: Seq<Seq<char>>) -> bool {
    working.contains(ffmpeg) && working.contains(sibling(os, ffmpeg))
}

/// Where the first place that works stands from `from` on, or past the last.
pub open spec fn working_from(
    os: Os,
    candidates: Seq<Seq<char>>,
    working: Seq<Seq<char>>,
    from: int,
) -> int
    decreases candidates.len() - from,
{
    if from >= candidates.len() || works(os, candidates[from], working) {
        from
    } else {
        working_from(os, candidates, working, from + 1)
    }
}

/// Locate ffmpeg + ffprobe: the first of the candidates of which both are
/// among the programs that answer `-version`.
pub fn find_tools(os: Os, candidates: &Vec<String>, working: &Vec<String>) -> (r: Result<
    Tools,
    String,
>)
    ensures
        ({
            let all = text::texts(candidates@);
            let i = working_from(os, all, text::texts(working@), 0);
            &&& r is Ok == (i < all.len())
            &&& r is Ok ==> r->Ok_0.ffmpeg@ == all[i] && r->Ok_0.ffprobe@ == sibling(os, all[i])
            &&& r is Err ==> r->Err_0@ == INSTALL_HELP@
        }),
{
    let ghost all = text::texts(candidates@);
    let ghost answering = text::texts(working@);
    let mut i: usize = 0;
    while i < candidates.len()
        invariant
            0 <= i <= candidates@.len(),
            all == text::texts(candidates@),
            answering == text::texts(working@),
            working_from(os, all, answering, 0) == working_from(os, all, answering, i as int),
        decreases candidates@.len() - i,
    {
        assert(all[i as int] == candidates@[i as int]@);
        let probe: String = sibling_ffprobe(os, &candidates[i]);
        if has_text(working, &candidates[i]) && has_text(working, &probe) {
            return Ok(Tools { ffmpeg: candidates[i].clone(), ffprobe: probe });
        }
        i = i + 1;
    }
    Err(INSTALL_HELP.to_owned())
}

/// True when ffmpeg is usable right now.
pub fn is_available(os: Os, candidates: &Vec<String>, working: &Vec<String>) -> (r: bool)
    ensures
        r == (working_from(os, text::texts(candidates@), text::texts(working@), 0)
            < candidates@.len()),
{
    find_tools(os, candidates, working).is_ok()
}

/// A build that the user names is the only one that is tried.
pub proof fn law_explicit_choice_is_authoritative(os: Os, explicit: Option<Seq<char>>, env: Env)
    ensures
        explicit matches Some(p) ==> places(os, explicit, env) == seq![p],
        explicit is None && env.ffmpeg_path is Some ==> places(os, explicit, env) == seq![
            env.ffmpeg_path->0@,
        ],
        explicit is None && env.ffmpeg_path is None ==> places(os, explicit, env)[0]
            == path::inside(os, install::own_bin_dir(os, env), install::program(os, "ffmpeg"@)),
{
}

/// What is found works, and nothing before it does; and where something
/// works, something is found.
pub proof fn law_first_working_tools(
    os: Os,
    candidates: Seq<Seq<char>>,
    working: Seq<Seq<char>>,
    from: int,
)
    requires
        0 <= from <= candidates.len(),
    ensures
        ({
            let i = working_from(os, candidates, working, from);
            &&& from <= i <= candidates.len()
            &&& i < candidates.len() ==> works(os, candidates[i], working)
            &&& forall|j: int| from <= j < i ==> !works(os, #[trigger] candidates[j], working)
        }),
    decreases candidates.len() - from,
{
    if from < candidates.len() && !works(os, candidates[from], working) {
        law_first_working_tools(os, candidates, working, from + 1);
    }
}

/// The version that ffmpeg reports: the first line that it says.
pub fn version(stdout: Option<&str>) -> (r: String)
    ensures
        r@ == match stdout {
            Some(s) => if text::lines(s@).len() > 0 {
                text::lines(s@)[0]
            } else {
                "unknown"@
            },
            None => "unknown"@,
        },
{
    if let Some(s) = stdout {
        let lines: Vec<String> = lines_of(s);
        if lines.len() > 0 {
            assert(text::texts(lines@)[0] == lines@[0]@);
            return lines[0].clone();
        }
        assert(text::texts(lines@).len() == 0);
    }
    "unknown".to_owned()
}

/// A number brought between zero and one.
pub open spec fn fraction(v: Real) -> Real {
    if double::less(v, double::whole(0)) {
        double::whole(0)
    } else if double::less(double::whole(1), v) {
        double::whole(1)
    } else {
        v
    }
}

/// What a line of ffmpeg's progress report says, as a fraction of `duration`.
pub open spec fn progress(line: Seq<char>, duration: Real) -> Option<Real> {
    if text::holds_at(line, "out_time_us="@, 0) {
        match decimal::parsed(text::trim(line.skip("out_time_us="@.len() as int))) {
            Some(us) => if double::less(double::whole(0), duration) {
                Some(
                    fraction(
                        double::quotient(
                            double::quotient(us, double::whole(1_000_000)),
                            duration,
                        ),
                    ),
                )
            } else {
                None
            },
            None => None,
        }
    } else if text::trim(line) == "progress=end"@ {
        Some(double::whole(1))
    } else {
        None
    }
}

/// What a line of `-progress pipe:1` key=value output says, as a fraction of
/// `duration_s`.
pub fn progress_of(line: &str, duration_s: Double) -> (r: Option<Double>)
    ensures
        r is Some == progress(line@, duration_s@) is Some,
        r is Some ==> r->0@ == progress(line@, duration_s@)->0,
{
    if begins_with(line, "out_time_us=") {
        let v = chars_of(line);
        let n: usize = chars_of("out_time_us=").len();
        assert(v@.subrange(n as int, v@.len() as int) =~= line@.skip(n as int));
        let zero: Double = Double::from_u64(0);
        let one: Double = Double::from_u64(1);
        match parse_double(&trimmed(&string_of(&v, n, v.len()))) {
            Some(us) => if zero.lt(duration_s) {
                let f: Double = us.div(Double::from_u64(1_000_000)).div(duration_s);
                if f.lt(zero) {
                    Some(zero)
                } else if one.lt(f) {
                    Some(one)
                } else {
                    Some(f)
                }
            } else {
                None
            },
            None => None,
        }
    } else if same(&trimmed(line), "progress=end") {
        Some(Double::from_u64(1))
    } else {
        None
    }
}

/// Progress is never below nothing nor above the whole.
pub proof fn law_progress_is_a_fraction(line: Seq<char>, duration: Real)
    ensures
        progress(line, duration) matches Some(f) ==> !double::less(f, double::whole(0))
            && !double::less(double::whole(1), f),
{
    double::lemma_whole_exact(0);
    double::lemma_whole_exact(1);
    vstd::arithmetic::power2::lemma_pow2_pos(1074);
    assert(0 * double::one() == 0 && 1 * double::one() == double::one());
}

/// How many lines of ffmpeg's messages are kept for an error.
pub const TAIL_LINES: usize = 30;

/// Keeps one more line of ffmpeg's messages, of those that came before only
/// the last.
pub fn keep_line(tail: &mut Vec<String>, line: &str)
    requires
        old(tail)@.len() <= TAIL_LINES,
    ensures
        text::texts(final(tail)@) == text::tail(text::texts(old(tail)@).push(line@), 30),
        final(tail)@.len() <= TAIL_LINES,
{
    put(tail, line);
    assert(text::texts(tail@).len() == tail@.len());
    assert(text::texts(old(tail)@).len() == old(tail)@.len());
    if tail.len() > TAIL_LINES {
        let ghost all = text::texts(tail@);
        tail.remove(0);
        assert(text::texts(tail@) =~= all.skip(1));
    }
}

/// What a pass of an encode came to.
pub open spec fn pass_result(ended: Result<bool, Seq<char>>, tail: Seq<Seq<char>>) -> Result<
    (),
    Seq<char>,
> {
    match ended {
        Err(e) => Err("ffmpeg died: "@ + e),
        Ok(true) => Ok(()),
        Ok(false) => Err("ffmpeg failed:\n"@ + text::join(tail, "\n"@)),
    }
}

/// What a pass of an encode came to, once it has ended: whether it succeeded
/// (or why that is not known), and the last lines that it said.
pub fn pass_outcome(ended: &Result<bool, String>, tail: &Vec<String>) -> (r: Result<(), String>)
    ensures
        ({
            let how = match *ended {
                Ok(b) => Ok(b),
                Err(e) => Err(e@),
            };
            let want = pass_result(how, text::texts(tail@));
            &&& r is Ok == want is Ok
            &&& r is Err ==> r->Err_0@ == want->Err_0
        }),
{
    match ended {
        Err(e) => Err(joined("ffmpeg died: ", e)),
        Ok(success) => if *success {
            Ok(())
        } else {
            Err(joined("ffmpeg failed:\n", &join_texts(tail, "\n")))
        },
    }
}

/// What is said of a quiet run of ffmpeg that failed: its last ten lines.
pub open spec fn quiet_failure(stderr: Seq<char>) -> Seq<char> {
    "ffmpeg failed:\n"@ + text::join(text::tail(text::lines(stderr), 10), "\n"@)
}

/// What a quiet run of ffmpeg came to.
pub open spec fn quiet_result(ran: Ran) -> Result<(), Seq<char>> {
    match ran {
        Ran::NotStarted(e) => Err("failed to start ffmpeg: "@ + e@),
        Ran::Ended(out) => if out.success {
            Ok(())
        } else {
            Err(quiet_failure(text::lossy(out.stderr@)))
        },
    }
}

/// What is said of a quiet run of ffmpeg that failed: its last ten lines.
pub fn quiet_error(stderr: &str) -> (r: String)
    ensures
        r@ == quiet_failure(stderr@),
{
    joined("ffmpeg failed:\n", &join_texts(&last_texts(&lines_of(stderr), 10), "\n"))
}

/// What a run of ffmpeg without progress reporting (images, thumbnails) came
/// to.
pub fn run_quiet(ran: &Ran) -> (r: Result<(), String>)
    ensures
        r is Ok == quiet_result(*ran) is Ok,
        r is Err ==> r->Err_0@ == quiet_result(*ran)->Err_0,
{
    match ran {
        Ran::NotStarted(e) => Err(joined("failed to start ffmpeg: ", e)),
        Ran::Ended(out) => if out.success {
            Ok(())
        } else {
            Err(quiet_error(&lossy_text(&out.stderr)))
        },
    }
}

} // verus!
