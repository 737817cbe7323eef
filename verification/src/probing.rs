//! What is known of a source, in terms of the answer that ffprobe gave.
use crate::decimal;
use crate::double;
use crate::double::Real;
use crate::ffmpeg;
use crate::json;
use crate::json::JsonV;
use crate::text;
use vstd::prelude::*;

verus! {

/// Whether a value is an object that has a member of that name and value, and
/// none of that name before it.
pub open spec fn has(j: JsonV, key: Seq<char>, value: JsonV) -> bool {
    j matches JsonV::Object(m) && exists|i: int|
        0 <= i < m.len() && #[trigger] m[i] == (key, value) && forall|k: int|
            0 <= k < i ==> (#[trigger] m[k]).0 != key
}

/// Whether a value has no member of that name.
pub open spec fn lacks(j: JsonV, key: Seq<char>) -> bool {
    forall|m: Seq<(Seq<char>, JsonV)>, i: int|
        j == JsonV::Object(m) && 0 <= i < m.len() ==> (#[trigger] m[i]).0 != key
}

proof fn lemma_member(m: Seq<(Seq<char>, JsonV)>, key: Seq<char>, from: int, i: int)
    requires
        0 <= from <= i <= m.len(),
        i < m.len() ==> m[i].0 == key,
        forall|k: int| from <= k < i ==> (#[trigger] m[k]).0 != key,
    ensures
        json::member_from(m, key, from) == i,
    decreases i - from,
{
    if from < i {
        lemma_member(m, key, from + 1, i);
    }
}

/// A member is what its name gives.
pub proof fn law_members_are_found(j: JsonV, key: Seq<char>, value: JsonV)
    ensures
        has(j, key, value) ==> json::member(j, key) == Some(value) && json::at(j, key) == value,
        lacks(j, key) ==> json::member(j, key) is None && json::at(j, key) is Null,
{
    if let JsonV::Object(m) = j {
        if has(j, key, value) {
            let i = choose|i: int|
                0 <= i < m.len() && #[trigger] m[i] == (key, value) && forall|k: int|
                    0 <= k < i ==> (#[trigger] m[k]).0 != key;
            lemma_member(m, key, 0, i);
        }
        if lacks(j, key) {
            lemma_member(m, key, 0, m.len() as int);
        }
    }
}

/// Whether a stream is of that type.
pub open spec fn is_stream(j: JsonV, kind: Seq<char>) -> bool {
    has(j, "codec_type"@, JsonV::Text(kind))
}

/// Whether the streams of an answer, and the first video stream among them, are
/// those.
pub open spec fn first_video(v: JsonV, streams: Seq<JsonV>, i: int) -> bool {
    &&& has(v, "streams"@, JsonV::List(streams))
    &&& 0 <= i < streams.len() && is_stream(streams[i], "video"@)
    &&& forall|k: int| 0 <= k < i ==> !is_stream(#[trigger] streams[k], "video"@)
}

/// What a name gives is a member.
proof fn lemma_at_is_member(j: JsonV, key: Seq<char>)
    ensures
        !(json::at(j, key) is Null) ==> has(j, key, json::at(j, key)),
{
    if let JsonV::Object(m) = j {
        lemma_member_bounds(m, key, 0);
        let i = json::member_from(m, key, 0);
        if i < m.len() {
            assert(m[i] == (key, json::at(j, key)));
        }
    }
}

proof fn lemma_member_bounds(m: Seq<(Seq<char>, JsonV)>, key: Seq<char>, from: int)
    requires
        0 <= from <= m.len(),
    ensures
        from <= json::member_from(m, key, from) <= m.len(),
        json::member_from(m, key, from) < m.len() ==> m[json::member_from(m, key, from)].0 == key,
        forall|k: int| from <= k < json::member_from(m, key, from) ==> (#[trigger] m[k]).0 != key,
    decreases m.len() - from,
{
    if from < m.len() && m[from].0 != key {
        lemma_member_bounds(m, key, from + 1);
    }
}

/// The type of a stream, told in two ways.
proof fn lemma_is_stream(j: JsonV, kind: Seq<char>)
    ensures
        is_stream(j, kind) <==> json::at(j, "codec_type"@) == JsonV::Text(kind),
{
    law_members_are_found(j, "codec_type"@, JsonV::Text(kind));
    lemma_at_is_member(j, "codec_type"@);
}

proof fn lemma_stream(streams: Seq<JsonV>, kind: Seq<char>, from: int, i: int)
    requires
        0 <= from <= i <= streams.len(),
        i < streams.len() ==> is_stream(streams[i], kind),
        forall|k: int| from <= k < i ==> !is_stream(#[trigger] streams[k], kind),
    ensures
        ffmpeg::stream_from(streams, kind, from) == i,
    decreases i - from,
{
    if from < streams.len() {
        lemma_is_stream(streams[from], kind);
    }
    if from < i {
        assert(!is_stream(streams[from], kind));
        lemma_stream(streams, kind, from + 1, i);
    }
}

/// A source is what its first video stream says: it has that stream's sides, in
/// pixels, and the size in bytes that is handed in. It has audio exactly where
/// one of its streams is an audio stream.
pub proof fn law_probe_reads_the_first_video_stream(
    v: JsonV,
    size: u64,
    streams: Seq<JsonV>,
    i: int,
    w: u64,
    h: u64,
)
    requires
        first_video(v, streams, i),
        has(streams[i], "width"@, JsonV::Uint(w)),
        has(streams[i], "height"@, JsonV::Uint(h)),
        0 < w <= u32::MAX,
        0 < h <= u32::MAX,
    ensures
        ffmpeg::probed(v, size) matches Ok(m) && {
            &&& m.width == w && m.height == h
            &&& m.size_bytes == size
            &&& m.has_audio <==> exists|k: int|
                0 <= k < streams.len() && is_stream(#[trigger] streams[k], "audio"@)
        },
{
    lemma_video(v, streams, i);
    law_members_are_found(streams[i], "width"@, JsonV::Uint(w));
    law_members_are_found(streams[i], "height"@, JsonV::Uint(h));
    assert forall|k: int| 0 <= k < streams.len() implies is_stream(#[trigger] streams[k], "audio"@)
        == (json::at(streams[k], "codec_type"@) == JsonV::Text("audio"@)) by {
        lemma_is_stream(streams[k], "audio"@);
    }
    if ffmpeg::has_stream(streams, "audio"@) {
        let k = choose|k: int|
            0 <= k < streams.len() && json::at(#[trigger] streams[k], "codec_type"@)
                == JsonV::Text("audio"@);
        assert(is_stream(streams[k], "audio"@));
    }
}

proof fn lemma_video(v: JsonV, streams: Seq<JsonV>, i: int)
    requires
        first_video(v, streams, i),
    ensures
        json::items(json::at(v, "streams"@)) == streams,
        ffmpeg::stream_from(streams, "video"@, 0) == i,
{
    law_members_are_found(v, "streams"@, JsonV::List(streams));
    lemma_stream(streams, "video"@, 0, i);
}

/// Whether an answer is refused in those words.
pub open spec fn refused(v: JsonV, size: u64, why: Seq<char>) -> bool {
    ffmpeg::probed(v, size) matches Err(e) && e == why
}

/// An answer without a video stream, or whose video stream has a side of zero or
/// none, is refused.
pub proof fn law_probe_refuses_what_has_no_picture(v: JsonV, size: u64, streams: Seq<JsonV>, i: int)
    ensures
        has(v, "streams"@, JsonV::List(streams)) && (forall|k: int|
            0 <= k < streams.len() ==> !is_stream(#[trigger] streams[k], "video"@))
            ==> refused(v, size, "no video/image stream found"@),
        lacks(v, "streams"@) ==> refused(v, size, "no video/image stream found"@),
        first_video(v, streams, i) && (lacks(streams[i], "width"@) || lacks(streams[i], "height"@)
            || has(streams[i], "width"@, JsonV::Uint(0)) || has(
            streams[i],
            "height"@,
            JsonV::Uint(0),
        )) ==> refused(v, size, "stream has no dimensions"@),
{
    if has(v, "streams"@, JsonV::List(streams)) && forall|k: int|
        0 <= k < streams.len() ==> !is_stream(#[trigger] streams[k], "video"@) {
        law_members_are_found(v, "streams"@, JsonV::List(streams));
        lemma_stream(streams, "video"@, 0, streams.len() as int);
    }
    law_members_are_found(v, "streams"@, JsonV::Null);
    if first_video(v, streams, i) {
        lemma_video(v, streams, i);
        law_members_are_found(streams[i], "width"@, JsonV::Uint(0));
        law_members_are_found(streams[i], "height"@, JsonV::Uint(0));
    }
}

/// A source is a video exactly where it lasts longer than a twentieth of a
/// second and its stream does not count exactly one frame; one that counts none
/// at all is told by how long it lasts.
pub proof fn law_probe_tells_videos_from_images(
    v: JsonV,
    size: u64,
    streams: Seq<JsonV>,
    i: int,
    n: u64,
)
    requires
        first_video(v, streams, i),
        ffmpeg::probed(v, size) is Ok,
    ensures
        ({
            let m = ffmpeg::probed(v, size)->Ok_0;
            let lasts = double::less(double::literal(5, 100), m.duration_s);
            &&& lacks(streams[i], "nb_frames"@) ==> m.is_video == lasts
            &&& has(streams[i], "nb_frames"@, JsonV::Text(text::decimal(n as nat))) ==> m.is_video
                == (lasts && n != 1)
        }),
{
    lemma_video(v, streams, i);
    let t = text::decimal(n as nat);
    law_members_are_found(streams[i], "nb_frames"@, JsonV::Text(t));
    text::law_decimal_reads_back(n as nat);
    assert('0' <= t[0] <= '9');
    assert(text::unsigned(t) == t);
}

/// A source lasts as long as its video stream says in figures, or else as long
/// as its container says; where neither does, no time at all.
pub proof fn law_probe_takes_the_duration(
    v: JsonV,
    size: u64,
    streams: Seq<JsonV>,
    i: int,
    own: Seq<char>,
    format: JsonV,
    whole: Seq<char>,
)
    requires
        first_video(v, streams, i),
        ffmpeg::probed(v, size) is Ok,
    ensures
        ({
            let m = ffmpeg::probed(v, size)->Ok_0;
            let silent = lacks(streams[i], "duration"@) || (has(
                streams[i],
                "duration"@,
                JsonV::Text(own),
            ) && decimal::parsed(own) is None);
            &&& has(streams[i], "duration"@, JsonV::Text(own)) && decimal::parsed(own) is Some
                ==> m.duration_s == decimal::parsed(own)->0
            &&& silent && has(v, "format"@, format) && has(format, "duration"@, JsonV::Text(whole))
                && decimal::parsed(whole) is Some ==> m.duration_s == decimal::parsed(whole)->0
            &&& silent && (lacks(v, "format"@) || (has(v, "format"@, format) && lacks(
                format,
                "duration"@,
            ))) ==> m.duration_s == double::whole(0)
        }),
{
    lemma_video(v, streams, i);
    law_members_are_found(streams[i], "duration"@, JsonV::Text(own));
    law_members_are_found(v, "format"@, format);
    law_members_are_found(format, "duration"@, JsonV::Text(whole));
}

/// A frame rate is the number before its slash by the one behind it: that of the
/// average, or, where that is nothing, the base rate.
pub proof fn law_probe_takes_the_frame_rate(
    v: JsonV,
    size: u64,
    streams: Seq<JsonV>,
    i: int,
    n: Seq<char>,
    d: Seq<char>,
)
    requires
        first_video(v, streams, i),
        ffmpeg::probed(v, size) is Ok,
        !n.contains('/'),
        decimal::parsed(n) is Some,
        decimal::parsed(d) is Some,
        !ffmpeg::is_zero(decimal::parsed(n)->0),
        !ffmpeg::is_zero(decimal::parsed(d)->0),
    ensures
        ({
            let m = ffmpeg::probed(v, size)->Ok_0;
            let rate = JsonV::Text(n + seq!['/'] + d);
            let fps = double::quotient(decimal::parsed(n)->0, decimal::parsed(d)->0);
            let none = lacks(streams[i], "avg_frame_rate"@) || has(
                streams[i],
                "avg_frame_rate"@,
                JsonV::Text(seq!['0', '/', '0']),
            );
            &&& has(streams[i], "avg_frame_rate"@, rate) ==> m.fps == fps
            &&& none && has(streams[i], "r_frame_rate"@, rate) ==> m.fps == fps
            &&& none && lacks(streams[i], "r_frame_rate"@) ==> m.fps == double::whole(0)
        }),
{
    lemma_video(v, streams, i);
    let t = n + seq!['/'] + d;
    let zero = seq!['0', '/', '0'];
    law_members_are_found(streams[i], "avg_frame_rate"@, JsonV::Text(t));
    law_members_are_found(streams[i], "avg_frame_rate"@, JsonV::Text(zero));
    law_members_are_found(streams[i], "r_frame_rate"@, JsonV::Text(t));
    assert forall|j: int| 0 <= j < n.len() implies #[trigger] t[j] != '/' by {
        assert(t[j] == n[j]);
    }
    text::lemma_find_at(t, '/', 0, n.len() as int);
    assert(t.take(n.len() as int) =~= n);
    assert(t.skip((n.len() + 1) as int) =~= d);
    text::lemma_find_at(zero, '/', 0, 1);
    assert(zero.take(1) =~= seq!['0']);
    assert(zero.skip(2) =~= seq!['0']);
    lemma_nought();
    reveal_strlit("");
    assert(ffmpeg::rate(""@) is None);
}

/// A nought is zero.
proof fn lemma_nought()
    ensures
        decimal::parsed(seq!['0']) == Some(Real::Finite(false, 0)),
{
    crate::shortest::lemma_zero_reads();
}

/// A source is turned as the first of the side data of its stream that has a
/// rotation says, in degrees, and otherwise not at all. An image that is turned
/// is one whose orientation is the same turn.
pub proof fn law_probe_takes_the_rotation(
    v: JsonV,
    size: u64,
    streams: Seq<JsonV>,
    i: int,
    data: Seq<JsonV>,
    j: int,
    r: i32,
)
    requires
        first_video(v, streams, i),
        ffmpeg::probed(v, size) is Ok,
    ensures
        ({
            let m = ffmpeg::probed(v, size)->Ok_0;
            let listed = has(streams[i], "side_data_list"@, JsonV::List(data));
            let value = if r >= 0 {
                JsonV::Uint(r as u64)
            } else {
                JsonV::Int(r as i64)
            };
            &&& lacks(streams[i], "side_data_list"@) ==> m.rotation == 0
            &&& listed && (forall|k: int|
                0 <= k < data.len() ==> lacks(#[trigger] data[k], "rotation"@)) ==> m.rotation == 0
            &&& listed && 0 <= j < data.len() && has(data[j], "rotation"@, value) && (forall|k: int|
                0 <= k < j ==> lacks(#[trigger] data[k], "rotation"@)) ==> m.rotation == r
            &&& m.is_video ==> m.orientation == 1
            &&& !m.is_video ==> match m.orientation {
                8 => m.rotation % 360 == 90,
                3 => m.rotation % 360 == 180,
                6 => m.rotation % 360 == 270,
                1 => m.rotation % 90 != 0 || m.rotation % 360 == 0,
                _ => false,
            }
        }),
{
    lemma_video(v, streams, i);
    law_members_are_found(streams[i], "side_data_list"@, JsonV::List(data));
    let value = if r >= 0 {
        JsonV::Uint(r as u64)
    } else {
        JsonV::Int(r as i64)
    };
    if forall|k: int| 0 <= k < data.len() ==> lacks(#[trigger] data[k], "rotation"@) {
        lemma_rotation(data, 0, data.len() as int, value, 0);
    }
    if 0 <= j < data.len() && has(data[j], "rotation"@, value) && forall|k: int|
        0 <= k < j ==> lacks(#[trigger] data[k], "rotation"@) {
        lemma_rotation(data, 0, j, value, r as int);
    }
}

proof fn lemma_rotation(data: Seq<JsonV>, from: int, j: int, value: JsonV, r: int)
    requires
        0 <= from <= j <= data.len(),
        forall|k: int| from <= k < j ==> lacks(#[trigger] data[k], "rotation"@),
        j == data.len() ==> r == 0,
        j < data.len() ==> has(data[j], "rotation"@, value) && ffmpeg::degrees(value) == Some(r),
    ensures
        ffmpeg::rotation_from(data, from) == r,
    decreases j - from,
{
    if from < data.len() {
        law_members_are_found(data[from], "rotation"@, value);
    }
    if from < j {
        assert(lacks(data[from], "rotation"@));
        lemma_rotation(data, from + 1, j, value, r);
    }
}

/// The orientation that an image file states itself wins over what ffprobe says
/// of it, and changes nothing else; a video has none, and a file that states none
/// stays as it is.
pub proof fn law_exif_wins(info: crate::plan::MediaInfo, head: Option<Seq<u8>>)
    ensures
        ({
            let m = ffmpeg::with_exif(info, head);
            let stated = match head {
                Some(d) => crate::exif::orientation_of(d),
                None => None,
            };
            &&& !info.is_video && stated is Some ==> m.orientation == stated->0
            &&& info.is_video || stated is None ==> m == info
            &&& m.width == info.width && m.height == info.height && m.is_video == info.is_video
            &&& m.rotation == info.rotation && m.duration_s == info.duration_s
        }),
{
}

} // verus!
