//! What ffmpeg is told to do, and what is made of what it says.
use crate::double;
use crate::double::Real;
use crate::ffmpeg;
use crate::jobs;
use crate::jobs::ImageMode;
use crate::path;
use crate::path::Os;
use crate::plan;
use crate::plan::{EncodePlan, RateControl, Settings};
use crate::shortest;
use crate::text;
use vstd::prelude::*;

verus! {

/// Whether arguments hold an option, with that value right behind it.
pub open spec fn sets(args: Seq<Seq<char>>, option: Seq<char>, value: Seq<char>) -> bool {
    exists|i: int| 0 <= i < args.len() - 1 && #[trigger] args[i] == option && args[i + 1] == value
}

proof fn lemma_sets_front(a: Seq<Seq<char>>, b: Seq<Seq<char>>, option: Seq<char>, value: Seq<char>)
    requires
        sets(a, option, value),
    ensures
        sets(a + b, option, value),
{
    let i = choose|i: int|
        0 <= i < a.len() - 1 && #[trigger] a[i] == option && a[i + 1] == value;
    assert((a + b)[i] == option && (a + b)[i + 1] == value);
}

proof fn lemma_sets_back(a: Seq<Seq<char>>, b: Seq<Seq<char>>, option: Seq<char>, value: Seq<char>)
    requires
        sets(b, option, value),
    ensures
        sets(a + b, option, value),
{
    let i = choose|i: int|
        0 <= i < b.len() - 1 && #[trigger] b[i] == option && b[i + 1] == value;
    assert((a + b)[i + a.len()] == option && (a + b)[i + a.len() + 1] == value);
}

/// Whether arguments say what every encode of a plan says: its input, its
/// filters, its speed, the length of a clip, and a frame rate where the plan has
/// one.
pub open spec fn says_the_plan(
    args: Seq<Seq<char>>,
    input: Seq<char>,
    p: EncodePlan,
    preset: Seq<char>,
    trim: Option<Real>,
) -> bool {
    &&& sets(args, "-i"@, input)
    &&& sets(args, "-vf"@, text::join(plan::filters(p), ","@))
    &&& sets(args, "-c:v"@, "libx264"@)
    &&& sets(args, "-preset"@, preset)
    &&& sets(args, "-pix_fmt"@, "yuv420p"@)
    &&& trim matches Some(t) ==> sets(args, "-t"@, shortest::shown(t))
    &&& p.fps matches Some(f) ==> sets(args, "-r"@, shortest::shown(f@))
}

proof fn lemma_base(input: Seq<char>, p: EncodePlan, preset: Seq<char>, trim: Option<Real>)
    ensures
        says_the_plan(ffmpeg::base_args(input, p, preset, trim), input, p, preset, trim),
{
    let all = ffmpeg::base_args(input, p, preset, trim);
    let a: int = if trim is Some {
        2
    } else {
        0
    };
    let b: int = if p.fps is Some {
        2
    } else {
        0
    };
    assert(all[2] == "-i"@ && all[3] == input);
    assert(trim is Some ==> all[4] == "-t"@ && all[5] == shortest::shown(trim->0));
    assert(all[4 + a] == "-vf"@ && all[5 + a] == text::join(plan::filters(p), ","@));
    assert(p.fps is Some ==> all[6 + a] == "-r"@ && all[7 + a] == shortest::shown(p.fps->0@));
    assert(all[6 + a + b] == "-c:v"@ && all[7 + a + b] == "libx264"@);
    assert(all[8 + a + b] == "-preset"@ && all[9 + a + b] == preset);
    assert(all[10 + a + b] == "-pix_fmt"@ && all[11 + a + b] == "yuv420p"@);
}

proof fn lemma_base_front(
    base: Seq<Seq<char>>,
    rest: Seq<Seq<char>>,
    input: Seq<char>,
    p: EncodePlan,
    preset: Seq<char>,
    trim: Option<Real>,
)
    requires
        says_the_plan(base, input, p, preset, trim),
    ensures
        says_the_plan(base + rest, input, p, preset, trim),
{
    lemma_sets_front(base, rest, "-i"@, input);
    lemma_sets_front(base, rest, "-vf"@, text::join(plan::filters(p), ","@));
    lemma_sets_front(base, rest, "-c:v"@, "libx264"@);
    lemma_sets_front(base, rest, "-preset"@, preset);
    lemma_sets_front(base, rest, "-pix_fmt"@, "yuv420p"@);
    if let Some(t) = trim {
        lemma_sets_front(base, rest, "-t"@, shortest::shown(t));
    }
    if let Some(f) = p.fps {
        lemma_sets_front(base, rest, "-r"@, shortest::shown(f@));
    }
}

/// Whether arguments say what becomes of the audio track of a plan.
pub open spec fn says_the_audio(args: Seq<Seq<char>>, p: EncodePlan) -> bool {
    match p.audio_kbps {
        Some(k) => sets(args, "-c:a"@, "aac"@) && sets(
            args,
            "-b:a"@,
            text::decimal(k as nat) + "k"@,
        ),
        None => args.contains("-an"@),
    }
}

proof fn lemma_audio(front: Seq<Seq<char>>, p: EncodePlan, back: Seq<Seq<char>>)
    ensures
        says_the_audio(front + ffmpeg::audio(p) + back, p),
{
    let (a, all) = (ffmpeg::audio(p), front + ffmpeg::audio(p) + back);
    let n = front.len() as int;
    assert(forall|i: int| 0 <= i < a.len() ==> all[n + i] == #[trigger] a[i]);
    if p.audio_kbps is Some {
        assert(all[n] == a[0] && all[n + 1] == a[1] && all[n + 2] == a[2] && all[n + 3] == a[3]);
    } else {
        assert(all[n] == a[0]);
    }
}

/// A video is encoded as its plan says. At a quality, in one pass of that
/// quality; at a bitrate, in two passes of that bitrate, numbered in their order
/// and with one log between them. Each pass says the plan; the last says the
/// audio, and that the result can start to play at once, and writes the output;
/// a first of two has no audio. All passes report how far they are.
pub proof fn law_passes_say_the_plan(
    os: Os,
    input: Seq<char>,
    output: Seq<char>,
    p: EncodePlan,
    preset: Seq<char>,
    passlog: Seq<char>,
    trim: Option<Real>,
)
    ensures
        ({
            let all = ffmpeg::passes(os, input, output, p, preset, passlog, trim);
            let last = all.last();
            &&& forall|i: int|
                0 <= i < all.len() ==> says_the_plan(#[trigger] all[i], input, p, preset, trim)
                    && sets(all[i], "-progress"@, "pipe:1"@)
            &&& says_the_audio(last, p)
            &&& sets(last, "-movflags"@, "+faststart"@)
            &&& last.last() == output
            &&& match p.rate {
                RateControl::Crf(q) => all.len() == 1 && sets(last, "-crf"@, text::decimal(q as nat)),
                RateControl::TwoPass { video_kbps } => {
                    let rate = text::decimal(video_kbps as nat) + "k"@;
                    &&& all.len() == 2
                    &&& sets(all[0], "-b:v"@, rate) && sets(all[1], "-b:v"@, rate)
                    &&& sets(all[0], "-pass"@, "1"@) && sets(all[1], "-pass"@, "2"@)
                    &&& sets(all[0], "-passlogfile"@, passlog)
                    &&& sets(all[1], "-passlogfile"@, passlog)
                    &&& all[0].contains("-an"@)
                },
            }
        }),
{
    let all = ffmpeg::passes(os, input, output, p, preset, passlog, trim);
    let base = ffmpeg::base_args(input, p, preset, trim);
    let end = seq!["-movflags"@, "+faststart"@] + ffmpeg::reporting() + seq![output];
    let n = base.len() as int;
    lemma_base(input, p, preset, trim);
    assert(end[0] == "-movflags"@ && end[1] == "+faststart"@);
    assert(end[3] == "-progress"@ && end[4] == "pipe:1"@);
    assert(sets(end, "-movflags"@, "+faststart"@) && sets(end, "-progress"@, "pipe:1"@));
    match p.rate {
        RateControl::Crf(q) => {
            let rest = seq!["-crf"@, text::decimal(q as nat)] + ffmpeg::audio(p) + end;
            assert(all[0] =~= base + rest);
            assert(all[0][n] == "-crf"@ && all[0][n + 1] == text::decimal(q as nat));
            lemma_base_front(base, rest, input, p, preset, trim);
            lemma_audio(base + seq!["-crf"@, text::decimal(q as nat)], p, end);
            let front = base + seq!["-crf"@, text::decimal(q as nat)] + ffmpeg::audio(p);
            lemma_sets_back(front, end, "-movflags"@, "+faststart"@);
            lemma_sets_back(front, end, "-progress"@, "pipe:1"@);
        },
        RateControl::TwoPass { video_kbps } => {
            let rate = ffmpeg::bitrate(video_kbps as nat);
            let one = seq!["-pass"@, "1"@, "-passlogfile"@, passlog, "-an"@, "-f"@, "null"@];
            let two = seq!["-pass"@, "2"@, "-passlogfile"@, passlog];
            let first = rate + one + ffmpeg::reporting() + seq![ffmpeg::nowhere(os)];
            let second = rate + two + ffmpeg::audio(p) + end;
            assert(all[0] =~= base + first);
            assert(all[1] =~= base + second);
            lemma_base_front(base, first, input, p, preset, trim);
            lemma_base_front(base, second, input, p, preset, trim);
            lemma_audio(base + rate + two, p, end);
            assert(all[1] =~= base + rate + two + ffmpeg::audio(p) + end);
            let (x, y) = (all[0], all[1]);
            assert(x[n] == "-b:v"@ && x[n + 1] == rate[1] && y[n] == "-b:v"@ && y[n + 1] == rate[1]);
            assert(x[n + 6] == "-pass"@ && x[n + 7] == "1"@);
            assert(y[n + 6] == "-pass"@ && y[n + 7] == "2"@);
            assert(x[n + 8] == "-passlogfile"@ && x[n + 9] == passlog && x[n + 10] == "-an"@);
            assert(y[n + 8] == "-passlogfile"@ && y[n + 9] == passlog);
            assert(x[n + 14] == "-progress"@ && x[n + 15] == "pipe:1"@);
            let front = base + rate + two + ffmpeg::audio(p);
            lemma_sets_back(front, end, "-movflags"@, "+faststart"@);
            lemma_sets_back(front, end, "-progress"@, "pipe:1"@);
        },
    }
}

/// A preview says the plan too, with its quality or its bitrate and its audio.
pub proof fn law_previews_say_the_plan(
    input: Seq<char>,
    output: Seq<char>,
    p: EncodePlan,
    trim: Option<Real>,
)
    ensures
        ({
            let args = ffmpeg::preview(input, output, p, trim);
            &&& says_the_plan(args, input, p, "veryfast"@, trim)
            &&& says_the_audio(args, p)
            &&& args.last() == output
            &&& match p.rate {
                RateControl::Crf(q) => sets(args, "-crf"@, text::decimal(q as nat)),
                RateControl::TwoPass { video_kbps } => sets(
                    args,
                    "-b:v"@,
                    text::decimal(video_kbps as nat) + "k"@,
                ),
            }
        }),
{
    let args = ffmpeg::preview(input, output, p, trim);
    let base = ffmpeg::base_args(input, p, "veryfast"@, trim);
    let rate = match p.rate {
        RateControl::Crf(crf) => seq!["-crf"@, text::decimal(crf as nat)],
        RateControl::TwoPass { video_kbps } => seq![
            "-b:v"@,
            text::decimal(video_kbps as nat) + "k"@,
        ],
    };
    let end = seq!["-movflags"@, "+faststart"@, output];
    let rest = rate + ffmpeg::audio(p) + end;
    let n = base.len() as int;
    lemma_base(input, p, "veryfast"@, trim);
    assert(args =~= base + rest);
    lemma_base_front(base, rest, input, p, "veryfast"@, trim);
    lemma_audio(base + rate, p, end);
    assert(args[n] == rate[0] && args[n + 1] == rate[1]);
}

/// An image is encoded by the encoder of its output, at the quality given, out
/// of its first frame and without the audio; it is not turned by ffmpeg, since
/// its filters turn it, and keeps no note of how it was turned.
pub proof fn law_image_commands_say_the_plan(
    os: Os,
    input: Seq<char>,
    output: Seq<char>,
    p: EncodePlan,
    quality: u32,
    is_webp: bool,
)
    ensures
        ({
            let args = ffmpeg::image(os, input, output, p, quality, is_webp);
            let q = text::decimal(quality as nat);
            let png = path::suffix(os, output) matches Some(e) && text::lower(e) == text::lower(
                "png"@,
            );
            &&& args[2] == "-noautorotate"@ && args[3] == "-i"@ && args[4] == input
            &&& sets(
                args,
                "-vf"@,
                text::join(plan::filters(p), ","@)
                    + ",sidedata=mode=delete:type=DISPLAYMATRIX"@,
            )
            &&& sets(args, "-frames:v"@, "1"@)
            &&& args.contains("-an"@)
            &&& is_webp ==> sets(args, "-c:v"@, "libwebp"@) && sets(args, "-q:v"@, q)
            &&& !is_webp && png ==> sets(args, "-compression_level"@, "100"@)
            &&& !is_webp && !png ==> sets(args, "-q:v"@, q)
            &&& args.last() == output
        }),
{
    let args = ffmpeg::image(os, input, output, p, quality, is_webp);
    assert(args[5] == "-vf"@ && args[7] == "-frames:v"@ && args[8] == "1"@ && args[9] == "-an"@);
    if is_webp {
        assert(args[10] == "-c:v"@ && args[11] == "libwebp"@);
        assert(args[12] == "-q:v"@ && args[13] == text::decimal(quality as nat));
    } else if ffmpeg::has_extension(os, output, "png"@) {
        assert(args[10] == "-compression_level"@ && args[11] == "100"@);
    } else {
        assert(args[10] == "-q:v"@ && args[11] == text::decimal(quality as nat));
    }
}

/// How images are encoded. Under a cap, a PNG is encoded once, and any other
/// image from the best quality of its encoder down to the worst: 90 to 25 for
/// webp, and 2 to 31 for jpg. Without a cap it is encoded once, at the quality
/// that the user set: webp at that very number, from 1 to 100, and jpg at the
/// one of its scale that it comes to.
pub proof fn law_images_are_tuned_to_their_encoder(os: Os, output: Seq<char>, s: Settings)
    ensures
        ({
            let mode = jobs::mode_for(os, output, s);
            let tried = jobs::attempts(mode);
            let ext = match path::suffix(os, output) {
                Some(e) => text::lower(e),
                None => seq![],
            };
            let (png, webp) = (ext == "png"@, ext == "webp"@);
            let q = s.image_quality;
            &&& s.max_mb is Some ==> match mode {
                ImageMode::Lossless(mb) => png && mb == s.max_mb->0 && tried.len() == 1,
                ImageMode::Ladder(mb, _) => !png && mb == s.max_mb->0 && tried.len() > 1 && if webp {
                    tried[0] == 90 && tried.last() == 25
                } else {
                    tried[0] == 2 && tried.last() == 31
                },
                ImageMode::Once(_) => false,
            }
            &&& s.max_mb is None ==> tried.len() == 1 && if webp {
                1 <= tried[0] <= 100 && (1 <= q <= 100 ==> tried[0] == q)
            } else {
                2 <= tried[0] <= 31 && (1 <= q <= 100 ==> -99 <= 2 * (99 * (tried[0] - 2) - 29 * (100
                    - q)) <= 99)
            }
        }),
{
    reveal_strlit("png");
    reveal_strlit("webp");
    assert(text::lower("png"@) =~= "png"@);
    assert(text::lower("webp"@) =~= "webp"@);
    assert("png"@.len() == 3 && "webp"@.len() == 4);
}

/// A cap in bytes is that in megabytes: 1048576 bytes each, without the fraction
/// of a byte, but for a rounding of less than one part in `2^50`.
pub proof fn law_cap_in_bytes(m: nat)
    requires
        double::one() <= 0x10_0000_0000 * m,
        m <= 0x1_0000_0000 * double::one(),
    ensures
        ({
            let bytes = jobs::budget_bytes(Real::Finite(false, m));
            let (t, one): (nat, nat) = (0x4_0000_0000_0000, double::one());
            &&& bytes * one * t <= m * 1048576 * (t + 1)
            &&& m * 1048576 * t < (bytes + 1) * one * (t + 1)
        }),
{
    let o = double::one();
    plan::lemma_one_is_huge();
    let a = crate::budget::lemma_times(m, 1024);
    let b = crate::budget::lemma_times(a, 1024);
    vstd::arithmetic::div_mod::lemma_fundamental_div_mod(b as int, o as int);
    let q = b / o;
    assert(q <= u64::MAX) by {
        assert(b < 0x1000_0000_0000_0000 * o);
        assert(q < 0x1000_0000_0000_0000) by (nonlinear_arith)
            requires
                b == o * q + b % o,
                b % o >= 0,
                b < 0x1000_0000_0000_0000 * o,
        ;
    }
    assert(q * o <= b < (q + 1) * o) by (nonlinear_arith)
        requires
            b == o * q + b % o,
            0 <= b % o < o,
    ;
    assert(jobs::budget_bytes(Real::Finite(false, m)) == q);
    let (x, y, t): (nat, nat, nat) = (q * o, (q + 1) * o, 0x4_0000_0000_0000);
    assert(b * t <= m * 1048576 * (t + 1) && m * 1048576 * t <= b * (t + 1)) by (nonlinear_arith)
        requires
            a * 0x20_0000_0000_0000 <= 1024 * m * 0x20_0000_0000_0001,
            1024 * m * 0x1F_FFFF_FFFF_FFFF <= a * 0x20_0000_0000_0000,
            b * 0x20_0000_0000_0000 <= 1024 * a * 0x20_0000_0000_0001,
            1024 * a * 0x1F_FFFF_FFFF_FFFF <= b * 0x20_0000_0000_0000,
            t == 0x4_0000_0000_0000,
    ;
    assert(x * t <= m * 1048576 * (t + 1));
    assert(m * 1048576 * t < y * (t + 1));
}

/// How far an encode is, is the time that it has come to by the time that it
/// takes: of `u` units of microseconds in `d` units of seconds that is their
/// ratio, but for a rounding of less than one part in `2^50`, and never more than
/// all. The end is all of it, and no other line says anything.
pub proof fn law_progress_is_the_share_of_time(t: Seq<char>, u: nat, d: nat, line: Seq<char>)
    requires
        crate::decimal::parsed(text::trim(t)) == Some(Real::Finite(false, u)),
        double::one() <= u <= 0x100_0000_0000_0000 * double::one(),
        0 < d <= 0x100_0000_0000 * double::one(),
    ensures
        ({
            let one = double::one();
            let k: nat = 0x4_0000_0000_0000;
            ffmpeg::progress("out_time_us="@ + t, Real::Finite(false, d)) matches Some(
                Real::Finite(false, r),
            ) && {
                &&& r <= one
                &&& r < one ==> 1000000 * d * r * k <= u * one * (k + 1)
                &&& u * one * k <= 1000000 * d * r * (k + 1) || r == one
            }
        }),
        text::trim(line) == "progress=end"@ && !text::holds_at(line, "out_time_us="@, 0)
            ==> ffmpeg::progress(line, Real::Finite(false, d)) == Some(
            Real::Finite(false, double::one()),
        ),
        text::trim(line) != "progress=end"@ && !text::holds_at(line, "out_time_us="@, 0)
            ==> ffmpeg::progress(line, Real::Finite(false, d)) is None,
{
    let o = double::one();
    plan::lemma_one_is_huge();
    let s = "out_time_us="@ + t;
    let n = "out_time_us="@.len() as int;
    assert(s.subrange(0, n) =~= "out_time_us="@);
    assert(s.skip(n) =~= t);
    double::lemma_whole_exact(0);
    double::lemma_whole_exact(1);
    double::lemma_whole_exact(1000000);
    assert(0 * o == 0 && 1 * o == o);
    double::lemma_nearest_scaled(u, 1000000, o);
    assert(u * o == o * u && 1000000 * o == o * 1000000) by (nonlinear_arith);
    let a = double::nearest(u, 1000000);
    plan::lemma_rounding(u, 1000000);
    let b = double::nearest(a * o, d);
    assert(a >= 0x10_0000_0000_0000_0000_0000_0000 && a < double::overflow());
    assert(a * o >= d * 0x10_0000_0000_0000) by (nonlinear_arith)
        requires
            a >= 0x10_0000_0000_0000_0000_0000_0000,
            d <= 0x100_0000_0000 * o,
    ;
    plan::lemma_rounding(a * o, d);
    let (x, y, k): (nat, nat, nat) = (a * o, d * b, 0x4_0000_0000_0000);
    assert(u * o * 0x1F_FFFF_FFFF_FFFF <= 1000000 * x * 0x20_0000_0000_0000) by (nonlinear_arith)
        requires
            x == a * o,
            u * 0x1F_FFFF_FFFF_FFFF <= 1000000 * a * 0x20_0000_0000_0000,
    ;
    assert(1000000 * x * 0x20_0000_0000_0000 <= u * o * 0x20_0000_0000_0001) by (nonlinear_arith)
        requires
            x == a * o,
            1000000 * a * 0x20_0000_0000_0000 <= u * 0x20_0000_0000_0001,
    ;
    let z = u * o;
    assert(1000000 * y * k <= z * (k + 1) && z * k <= 1000000 * y * (k + 1)) by (nonlinear_arith)
        requires
            z * 0x1F_FFFF_FFFF_FFFF <= 1000000 * x * 0x20_0000_0000_0000,
            1000000 * x * 0x20_0000_0000_0000 <= z * 0x20_0000_0000_0001,
            y * 0x20_0000_0000_0000 <= x * 0x20_0000_0000_0001,
            x * 0x1F_FFFF_FFFF_FFFF <= y * 0x20_0000_0000_0000,
            k == 0x4_0000_0000_0000,
    ;
    assert(1000000 * d * b == 1000000 * y) by (nonlinear_arith)
        requires
            y == d * b,
    ;
}

/// What the result of a plan with a bitrate will weigh: the bits of the video
/// and of the audio over `d` units of seconds, eight to the byte, and four in a
/// hundred more; but for the fraction of a byte and a rounding of less than one
/// part in `2^48`.
pub proof fn law_bitrates_tell_the_weight(p: EncodePlan, d: nat, bytes: u64)
    requires
        p.rate is TwoPass,
        double::one() <= 32 * d,
        d <= 0x10_0000 * double::one(),
        ({
            let audio: nat = match p.audio_kbps {
                Some(a) => a as nat,
                None => 0,
            };
            0 < p.rate->video_kbps + audio <= 0x4000_0000
        }),
    ensures
        ({
            let audio: nat = match p.audio_kbps {
                Some(a) => a as nat,
                None => 0,
            };
            let kbps = p.rate->video_kbps as nat + audio;
            let weight = jobs::estimate(p, Real::Finite(false, d), bytes);
            let (t, one): (nat, nat) = (0x1_0000_0000_0000, double::one());
            &&& weight * one * 8 * 100 * t <= kbps * 1000 * d * 104 * (t + 1)
            &&& kbps * 1000 * d * 104 * t <= (weight + 1) * one * 8 * 100 * (t + 1)
        }),
{
    let o = double::one();
    plan::lemma_one_is_huge();
    let audio: nat = match p.audio_kbps {
        Some(a) => a as nat,
        None => 0,
    };
    let n = p.rate->video_kbps as nat + audio;
    double::lemma_whole_exact(n);
    double::lemma_whole_exact(1000);
    double::lemma_whole_exact(1000 * n);
    double::lemma_whole_exact(8);
    // The bits of a second are a whole number.
    assert((n * o) * (1000 * o) == o * ((1000 * n) * o)) by (nonlinear_arith);
    double::lemma_nearest_scaled((1000 * n) * o, 1, o);
    assert(o * 1 == o);
    let g = 1000 * n;
    double::lemma_nearest_exact(g, 1074);
    assert(double::product(double::whole(n), double::whole(1000)) == double::whole(g));
    // Those of the whole duration.
    assert(g * d >= d) by (nonlinear_arith)
        requires
            g >= 1,
    ;
    assert(g * d <= 0x1000_0000_0000_0000 * o) by (nonlinear_arith)
        requires
            g <= 0xFA_0000_0000,
            d <= 0x10_0000 * o,
    ;
    let a = crate::budget::lemma_times(d, g);
    assert((g * o) * d == d * (g * o)) by (nonlinear_arith);
    // Their bytes.
    double::lemma_nearest_scaled(a, 8, o);
    assert(a * o == o * a && 8 * o == o * 8) by (nonlinear_arith);
    plan::lemma_rounding(a, 8);
    let b = double::nearest(a, 8);
    // And four in a hundred more.
    let c = double::nearest(104 * o, 100);
    plan::lemma_rounding(104 * o, 100);
    assert(double::literal(104, 100) == Real::Finite(false, c));
    let x = b * c;
    assert(x >= o * 0x10_0000_0000_0000) by (nonlinear_arith)
        requires
            x == b * c,
            c >= o,
            b >= 0x10_0000_0000_0000,
    ;
    plan::lemma_rounding(x, o);
    let r = double::nearest(x, o);
    lemma_weight_chain(g, d, a, b, c, r, o);
    let (k, l, m): (nat, nat, nat) = (g * d * 104, 800 * r, 0x1_0000_0000_0000);
    vstd::arithmetic::div_mod::lemma_fundamental_div_mod(r as int, o as int);
    let f = r / o;
    assert(f * o <= r < (f + 1) * o) by (nonlinear_arith)
        requires
            r == o * f + r % o,
            0 <= r % o < o,
    ;
    assert(k <= 104 * (0x1000_0000_0000_0000 * o)) by (nonlinear_arith)
        requires
            k == g * d * 104,
            g * d <= 0x1000_0000_0000_0000 * o,
    ;
    assert(r <= 0x2000_0000_0000_0000 * o) by (nonlinear_arith)
        requires
            800 * r * 0x4_0000_0000_0000 <= k * 0x4_0000_0000_0001,
            k <= 104 * (0x1000_0000_0000_0000 * o),
    ;
    assert(f <= 0x2000_0000_0000_0000) by (nonlinear_arith)
        requires
            f * o <= r,
            r <= 0x2000_0000_0000_0000 * o,
            o > 0,
    ;
    assert(jobs::estimate(p, Real::Finite(false, d), bytes) == f);
    assert(n * 1000 * d * 104 == k) by (nonlinear_arith)
        requires
            k == (1000 * n) * d * 104,
    ;
    let (i, j) = (f * o, (f + 1) * o);
    assert(i * 8 * 100 * m <= k * (m + 1)) by (nonlinear_arith)
        requires
            i <= r,
            800 * r * 0x4_0000_0000_0000 <= k * 0x4_0000_0000_0001,
            m == 0x1_0000_0000_0000,
    ;
    assert(k * m <= j * 8 * 100 * (m + 1)) by (nonlinear_arith)
        requires
            r <= j,
            k * 0x4_0000_0000_0000 <= 800 * r * 0x4_0000_0000_0001,
            m == 0x1_0000_0000_0000,
    ;
}

proof fn lemma_weight_chain(g: nat, d: nat, a: nat, b: nat, c: nat, r: nat, o: nat)
    requires
        o > 0,
        a * 0x20_0000_0000_0000 <= g * d * 0x20_0000_0000_0001,
        g * d * 0x1F_FFFF_FFFF_FFFF <= a * 0x20_0000_0000_0000,
        8 * b * 0x20_0000_0000_0000 <= a * 0x20_0000_0000_0001,
        a * 0x1F_FFFF_FFFF_FFFF <= 8 * b * 0x20_0000_0000_0000,
        100 * c * 0x20_0000_0000_0000 <= 104 * o * 0x20_0000_0000_0001,
        104 * o * 0x1F_FFFF_FFFF_FFFF <= 100 * c * 0x20_0000_0000_0000,
        o * r * 0x20_0000_0000_0000 <= b * c * 0x20_0000_0000_0001,
        b * c * 0x1F_FFFF_FFFF_FFFF <= o * r * 0x20_0000_0000_0000,
    ensures
        800 * r * 0x4_0000_0000_0000 <= g * d * 104 * 0x4_0000_0000_0001,
        g * d * 104 * 0x4_0000_0000_0000 <= 800 * r * 0x4_0000_0000_0001,
{
    let x = b * c;
    let e = 100 * c;
    let (t, u, v): (nat, nat, nat) = (0x20_0000_0000_0000, 0x20_0000_0000_0001, 0x1F_FFFF_FFFF_FFFF);
    plan::lemma_products_ordered(8 * b * t, a * u, e * t, 104 * o * u);
    plan::lemma_products_ordered(a * v, 8 * b * t, 104 * o * v, e * t);
    let (y, z) = (8 * (b * e), 104 * (a * o));
    assert((8 * b * t) * (e * t) == y * (t * t)) by (nonlinear_arith)
        requires
            y == 8 * (b * e),
    ;
    assert((a * u) * (104 * o * u) == z * (u * u)) by (nonlinear_arith)
        requires
            z == 104 * (a * o),
    ;
    assert((a * v) * (104 * o * v) == z * (v * v)) by (nonlinear_arith)
        requires
            z == 104 * (a * o),
    ;
    let w = 800 * (o * r);
    assert(w * t <= y * u && y * v <= w * t) by (nonlinear_arith)
        requires
            w == 800 * (o * r),
            y == 8 * (b * e),
            e == 100 * c,
            x == b * c,
            o * r * t <= x * u,
            x * v <= o * r * t,
    ;
    let k = g * d * 104;
    let q = o * k;
    assert(z * t <= q * u && q * v <= z * t) by (nonlinear_arith)
        requires
            z == 104 * (a * o),
            q == o * k,
            k == g * d * 104,
            a * t <= g * d * u,
            g * d * v <= a * t,
    ;
    let m: nat = 0x1_0000_0000_0000;
    assert(w * (m * 4) <= q * (m * 4 + 1) && q * (m * 4) <= w * (m * 4 + 1)) by (nonlinear_arith)
        requires
            w * t <= y * u,
            y * v <= w * t,
            y * (t * t) <= z * (u * u),
            z * (v * v) <= y * (t * t),
            z * t <= q * u,
            q * v <= z * t,
            t == 0x20_0000_0000_0000,
            u == 0x20_0000_0000_0001,
            v == 0x1F_FFFF_FFFF_FFFF,
            m == 0x1_0000_0000_0000,
    ;
    let l = 800 * r;
    assert(w == o * l) by (nonlinear_arith)
        requires
            w == 800 * (o * r),
            l == 800 * r,
    ;
    assert(w * (m * 4) == o * (l * (m * 4)) && q * (m * 4 + 1) == o * (k * (m * 4 + 1)))
        by (nonlinear_arith)
        requires
            w == o * l,
            q == o * k,
    ;
    assert(q * (m * 4) == o * (k * (m * 4)) && w * (m * 4 + 1) == o * (l * (m * 4 + 1)))
        by (nonlinear_arith)
        requires
            w == o * l,
            q == o * k,
    ;
    plan::lemma_factor_dropped(l * (m * 4), k * (m * 4 + 1), o);
    plan::lemma_factor_dropped(k * (m * 4), l * (m * 4 + 1), o);
}

} // verus!
