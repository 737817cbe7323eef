//! What a plan does to the picture: which way it is turned, what is cut off, and
//! how large it comes out.
use crate::double;
use crate::double::Real;
use crate::plan;
use crate::plan::{
    law_fit_keeps_the_aspect, law_output_fits, EncodePlan, MediaInfo, Ratio, RateControl, Settings,
};
use crate::text;
use vstd::prelude::*;

verus! {

/// A video is displayed with its sides exchanged exactly where it is turned by a
/// quarter, to either side and any number of times around. An image goes by its
/// orientation, those from five to eight lying on their side; where it has none,
/// it goes by its rotation as a video does.
pub proof fn law_quarter_turns_exchange_the_sides(info: MediaInfo, turns: int, rest: int)
    requires
        info.rotation == 90 * turns + rest,
        0 <= rest < 90,
    ensures
        ({
            let turned = (info.height, info.width);
            let straight = (info.width, info.height);
            let quarter = rest == 0 && turns % 2 == 1;
            plan::displayed(info) == if !info.is_video && 1 <= info.orientation <= 8 {
                if info.orientation >= 5 {
                    turned
                } else {
                    straight
                }
            } else if quarter {
                turned
            } else {
                straight
            }
        }),
{
}

/// The displayed size that a plan works on, no side below two pixels.
pub open spec fn picture(info: MediaInfo) -> (int, int) {
    let (w, h) = plan::displayed(info);
    (
        if w < 2 {
            2
        } else {
            w as int
        },
        if h < 2 {
            2
        } else {
            h as int
        },
    )
}

/// What a plan leaves of the picture before it is scaled.
pub open spec fn kept(info: MediaInfo, p: EncodePlan) -> (int, int) {
    match p.crop {
        Some((w, h)) => (w as int, h as int),
        None => picture(info),
    }
}

/// A picture is cropped to the aspect that its ratio is named after: four to
/// five, one to one, or sixteen to nine, as near as whole and even pixels allow.
/// A picture that has the aspect is not cropped, nor is any that is to keep its
/// own. What is left lies inside the picture, and no more is cut off than must
/// be: one side is left whole, but for a pixel where it is odd.
pub proof fn law_crop_has_the_aspect_of_its_name(info: MediaInfo, s: Settings)
    ensures
        ({
            let p = plan::planned(info, s);
            let (w, h) = picture(info);
            let (cw, ch) = kept(info, p);
            &&& match s.ratio {
                Ratio::Hover45 => -10 <= 5 * cw - 4 * ch <= 10 && (5 * w == 4 * h ==> p.crop is None),
                Ratio::Square => -2 <= cw - ch <= 2 && (w == h ==> p.crop is None),
                Ratio::Landscape169 => -32 <= 9 * cw - 16 * ch <= 32 && (9 * w == 16 * h
                    ==> p.crop is None),
                Ratio::Original => p.crop is None,
            }
            &&& 2 <= cw <= w && 2 <= ch <= h
            &&& cw >= w - 1 || ch >= h - 1
        }),
{
    reveal(plan::cropped);
    let (w, h) = picture(info);
    let (m, n) = (w as nat, h as nat);
    assert(plan::source(info) == (w, h));
    plan::lemma_planned_crop(info, s);
    match s.ratio {
        Ratio::Hover45 => {
            assert(plan::cropped(info, s.ratio) == plan::crop(m, n, 4, 5));
            assert(n * 4 / 5 <= m ==> plan::crop(m, n, 4, 5) == (h * 4 / 5, h));
            assert(n * 4 / 5 > m ==> plan::crop(m, n, 4, 5) == (w, w * 5 / 4));
        },
        Ratio::Square => {
            assert(plan::cropped(info, s.ratio) == plan::crop(m, n, 1, 1));
            assert(n * 1 / 1 == n && m * 1 / 1 == m);
        },
        Ratio::Landscape169 => {
            assert(plan::cropped(info, s.ratio) == plan::crop(m, n, 16, 9));
            assert(n * 16 / 9 <= m ==> plan::crop(m, n, 16, 9) == (h * 16 / 9, h));
            assert(n * 16 / 9 > m ==> plan::crop(m, n, 16, 9) == (w, w * 9 / 16));
        },
        Ratio::Original => {},
    }
}

/// The picture comes out with the aspect that it was cropped to: neither side is
/// more than two pixels longer than the other asks for, which is what it takes
/// for whole and even sides. (A side that is down to two pixels may stand for
/// less, and in pictures of `2^52` pixels the rounding adds up.) A byte cap that
/// shrinks the picture keeps its aspect likewise.
pub proof fn law_output_keeps_the_aspect(info: MediaInfo, s: Settings)
    requires
        picture(info).0 * picture(info).1 < 0x10_0000_0000_0000,
    ensures
        ({
            let free = plan::planned(info, Settings { max_mb: None, ..s });
            let p = plan::planned(info, s);
            let (cw, ch) = kept(info, free);
            let (w, h) = (free.out_w as int, free.out_h as int);
            let (a, b) = (p.out_w as int, p.out_h as int);
            &&& w > 2 ==> w * ch <= (h + 2) * (cw + 1)
            &&& h > 2 ==> h * cw <= (w + 2) * (ch + 1)
            &&& a > 2 ==> a * h <= (b + 2) * w
            &&& b > 2 ==> b * w <= (a + 2) * h
            &&& s.max_mb is None ==> (a, b) == (w, h)
            &&& p.crop == free.crop
        }),
{
    let t = Settings { max_mb: None, ..s };
    let (cw, ch) = plan::cropped(info, s.ratio);
    let (mw, mh) = (
        plan::at_least(s.max_width as int, 2) as nat,
        plan::at_least(s.max_height as int, 2) as nat,
    );
    let (x, y) = plan::fit(cw as nat, ch as nat, mw, mh);
    plan::lemma_cropped_within(info, s.ratio);
    plan::lemma_boxed_within(info, s);
    plan::law_fit(cw as nat, ch as nat, mw, mh);
    law_output_fits(info, s);
    law_output_fits(info, t);
    assert(plan::boxed(info, t) == plan::boxed(info, s));
    let (w, h) = plan::boxed(info, s);
    let (sw, sh) = picture(info);
    assert(cw * ch <= sw * sh) by (nonlinear_arith)
        requires
            0 <= cw <= sw,
            0 <= ch <= sh,
    ;
    law_fit_keeps_the_aspect(cw as nat, ch as nat, mw, mh);
    let (kw, kh) = kept(info, plan::planned(info, t));
    assert(kw <= cw <= kw + 1 || (cw < 2 && kw == 2));
    assert(kh <= ch <= kh + 1 || (ch < 2 && kh == 2));
    assert(x > 1 ==> x * ch <= (y + 1) * cw);
    assert(y > 1 ==> y * cw <= (x + 1) * ch);
    lemma_aspect_after_evening(w, h, x, y, cw, ch, kw, kh);
    lemma_aspect_after_evening(h, w, y, x, ch, cw, kh, kw);
    assert(w * h <= sw * sh) by (nonlinear_arith)
        requires
            0 <= w <= sw,
            0 <= h <= sh,
    ;
    if plan::has_budget(info, s) {
        lemma_shrunk_aspect(info, s);
    } else {
        assert(w * h <= (h + 2) * w && h * w <= (w + 2) * h) by (nonlinear_arith)
            requires
                w >= 0,
                h >= 0,
        ;
    }
}

proof fn lemma_aspect_after_evening(
    w: int,
    h: int,
    x: int,
    y: int,
    cw: int,
    ch: int,
    kw: int,
    kh: int,
)
    requires
        w == plan::evened(x),
        h == plan::evened(y),
        x >= 1 && y >= 1 && cw >= 1 && ch >= 1,
        x > 1 ==> x * ch <= (y + 1) * cw,
        kw <= cw <= kw + 1 || (cw < 2 && kw == 2),
        kh <= ch <= kh + 1 || (ch < 2 && kh == 2),
        y <= ch,
    ensures
        w > 2 ==> w * kh <= (h + 2) * (kw + 1),
{
    if w > 2 {
        assert(y <= h + 1);
        if kh <= ch {
            assert(w * kh <= (h + 2) * (kw + 1)) by (nonlinear_arith)
                requires
                    0 <= w <= x,
                    0 <= kh <= ch,
                    x * ch <= (y + 1) * cw,
                    0 <= y <= h + 1,
                    0 <= cw <= kw + 1,
            ;
        } else {
            assert(ch == 1 && kh == 2 && y == 1);
            assert(w * kh <= (h + 2) * (kw + 1)) by (nonlinear_arith)
                requires
                    kh == 2,
                    ch == 1,
                    y == 1,
                    h >= 2,
                    0 <= w <= x,
                    x * ch <= (y + 1) * cw,
                    0 <= cw <= kw + 1,
            ;
        }
    }
}

/// What a byte cap leaves of a frame has the aspect of the frame.
proof fn lemma_shrunk_aspect(info: MediaInfo, s: Settings)
    requires
        plan::has_budget(info, s),
        plan::boxed(info, s).0 * plan::boxed(info, s).1 < 0x10_0000_0000_0000,
    ensures
        ({
            let (w, h) = plan::boxed(info, s);
            let (a, b) = plan::output_size(info, s);
            &&& a > 2 ==> a * h <= (b + 2) * w
            &&& b > 2 ==> b * w <= (a + 2) * h
        }),
{
    let (mb, dur, keep) = (s.max_mb->0@, info.duration_s@, plan::keeps_audio(info, s));
    let kbps = plan::budget_kbps(mb, dur, keep);
    let fps = plan::reckoned_fps(info, s);
    let (w, h) = plan::boxed(info, s);
    plan::lemma_budget_range(mb, dur, keep);
    plan::lemma_boxed_within(info, s);
    let needed = plan::pixel_kbps(w, h, fps, plan::min_bits_per_pixel());
    let (a, b) = plan::output_size(info, s);
    if double::less(double::whole(kbps as nat), needed) {
        reveal(plan::shrunk_side);
        let k = double::lemma_shrink_at_most_one(kbps as nat, needed);
        let scale = Real::Finite(false, k);
        let (m, n) = (w as nat, h as nat);
        let x = double::lemma_scaled_near(m, k, u32::MAX as nat);
        let y = double::lemma_scaled_near(n, k, u32::MAX as nat);
        let f = double::whole_part(double::product(double::whole(m), scale), u32::MAX as nat);
        let g = double::whole_part(double::product(double::whole(n), scale), u32::MAX as nat);
        assert(m * n == w * h) by (nonlinear_arith)
            requires
                m == w,
                n == h,
        ;
        assert(m * n == n * m) by (nonlinear_arith);
        plan::lemma_sides_agree(m, n, k, x, y, f, g);
        plan::lemma_sides_agree(n, m, k, y, x, g, f);
        if a > 2 {
            assert(a * h <= (b + 2) * w) by (nonlinear_arith)
                requires
                    0 <= a <= f,
                    f * n <= (g + 1) * m,
                    g <= b + 1,
                    m == w,
                    n == h,
            ;
        }
        if b > 2 {
            assert(b * w <= (a + 2) * h) by (nonlinear_arith)
                requires
                    0 <= b <= g,
                    g * m <= (f + 1) * n,
                    f <= a + 1,
                    m == w,
                    n == h,
            ;
        }
    } else {
        assert(w * h <= (h + 2) * w && h * w <= (w + 2) * h) by (nonlinear_arith)
            requires
                w >= 0,
                h >= 0,
        ;
    }
}

/// A side of a picture as it is displayed.
pub ghost enum Side {
    Top,
    Bottom,
    Left,
    Right,
}

/// The side at which the first row of a stored picture is displayed, by its EXIF
/// orientation.
pub open spec fn first_row(orientation: u8) -> Side {
    if orientation == 3 || orientation == 4 {
        Side::Bottom
    } else if orientation == 5 || orientation == 8 {
        Side::Left
    } else if orientation == 6 || orientation == 7 {
        Side::Right
    } else {
        Side::Top
    }
}

/// The side at which the first column of a stored picture is displayed.
pub open spec fn first_column(orientation: u8) -> Side {
    if orientation == 2 || orientation == 3 {
        Side::Right
    } else if orientation == 5 || orientation == 6 {
        Side::Top
    } else if orientation == 7 || orientation == 8 {
        Side::Bottom
    } else {
        Side::Left
    }
}

/// Whether the pixel in column `x` and row `y` of a stored picture of `w` columns
/// and `h` rows is displayed at `to`, counted from the left and from the top.
pub open spec fn is_displayed_at(
    orientation: u8,
    w: int,
    h: int,
    x: int,
    y: int,
    to: (int, int),
) -> bool {
    &&& match first_row(orientation) {
        Side::Top => to.1 == y,
        Side::Bottom => to.1 == h - 1 - y,
        Side::Left => to.0 == y,
        Side::Right => to.0 == h - 1 - y,
    }
    &&& match first_column(orientation) {
        Side::Left => to.0 == x,
        Side::Right => to.0 == w - 1 - x,
        Side::Top => to.1 == x,
        Side::Bottom => to.1 == w - 1 - x,
    }
}

/// Where a filter that turns or mirrors takes a pixel of a picture of `w` by `h`:
/// `transpose` turns a quarter, to the left at 0 and 2 and to the right at 1 and
/// 3, and flips it upside down after that at 0 and 3.
pub open spec fn taken_to(f: Seq<char>, w: int, h: int, x: int, y: int) -> Option<(int, int)> {
    if f == "hflip"@ {
        Some((w - 1 - x, y))
    } else if f == "vflip"@ {
        Some((x, h - 1 - y))
    } else if f == "hflip,vflip"@ {
        Some((w - 1 - x, h - 1 - y))
    } else if f == "transpose=1"@ {
        Some((h - 1 - y, x))
    } else if f == "transpose=2"@ {
        Some((y, w - 1 - x))
    } else if f == "transpose=0"@ {
        Some((y, x))
    } else if f == "transpose=3"@ {
        Some((h - 1 - y, w - 1 - x))
    } else {
        None
    }
}

/// The texts of the filters that turn are all different.
proof fn lemma_turns_differ()
    ensures
        "hflip"@ != "vflip"@,
        "hflip"@.len() == 5 && "vflip"@.len() == 5 && "hflip,vflip"@.len() == 11,
        "transpose=0"@ != "transpose=1"@ && "transpose=0"@ != "transpose=2"@ && "transpose=0"@
            != "transpose=3"@,
        "transpose=1"@ != "transpose=2"@ && "transpose=1"@ != "transpose=3"@ && "transpose=2"@
            != "transpose=3"@,
        "hflip,vflip"@ != "transpose=0"@ && "hflip,vflip"@ != "transpose=1"@ && "hflip,vflip"@
            != "transpose=2"@ && "hflip,vflip"@ != "transpose=3"@,
        "transpose=0"@.len() == 11 && "transpose=1"@.len() == 11 && "transpose=2"@.len() == 11
            && "transpose=3"@.len() == 11,
{
    reveal_strlit("hflip");
    reveal_strlit("vflip");
    reveal_strlit("hflip,vflip");
    reveal_strlit("transpose=0");
    reveal_strlit("transpose=1");
    reveal_strlit("transpose=2");
    reveal_strlit("transpose=3");
    assert("hflip"@[0] == 'h' && "vflip"@[0] == 'v' && "hflip,vflip"@[0] == 'h');
    assert("transpose=0"@[0] == 't' && "transpose=0"@[10] == '0' && "transpose=1"@[10] == '1');
    assert("transpose=2"@[10] == '2' && "transpose=3"@[10] == '3');
    assert("transpose=1"@[0] == 't' && "transpose=2"@[0] == 't' && "transpose=3"@[0] == 't');
}

/// An image is turned upright first of all: the first filter of its plan takes
/// every stored pixel to where its EXIF orientation says that it is displayed.
/// Where the orientation is not known, the rotation counts, to the left. An
/// upright image, and a video, which ffmpeg turns by itself, are not turned.
pub proof fn law_every_pixel_comes_upright(info: MediaInfo, s: Settings, x: int, y: int)
    requires
        0 <= x < info.width,
        0 <= y < info.height,
    ensures
        ({
            let p = plan::planned(info, s);
            let fs = plan::filters(p);
            let (w, h) = (info.width as int, info.height as int);
            let moves = taken_to(fs[0], w, h, x, y);
            let others: int = if p.crop is Some {
                3
            } else {
                2
            };
            let known = 1 <= info.orientation <= 8;
            &&& info.is_video || (known && info.orientation == 1) ==> fs.len() == others
            &&& !info.is_video && 2 <= info.orientation <= 8 ==> fs.len() == others + 1 && moves
                is Some && is_displayed_at(info.orientation, w, h, x, y, moves->0)
            &&& !info.is_video && !known ==> {
                if info.rotation % 360 == 90 {
                    fs.len() == others + 1 && moves == Some((y, w - 1 - x))
                } else if info.rotation % 360 == 180 {
                    fs.len() == others + 1 && moves == Some((w - 1 - x, h - 1 - y))
                } else if info.rotation % 360 == 270 {
                    fs.len() == others + 1 && moves == Some((h - 1 - y, x))
                } else {
                    fs.len() == others
                }
            }
        }),
{
    lemma_turns_differ();
    let p = plan::planned(info, s);
    assert(p.orient == plan::planned_orient(info));
    let o = plan::image_orientation(info);
    if !info.is_video && o != 1 {
        assert(plan::filters(p)[0] == plan::upright_filter(o)->0);
    }
}

/// What a filter makes of a picture of a size, as ffmpeg documents it: turning
/// by a quarter exchanges the sides, a crop takes its size out of a picture that
/// is no smaller, and a scale gives its size.
pub open spec fn makes(f: Seq<char>, from: (int, int), to: (int, int)) -> bool {
    ||| (f == "hflip"@ || f == "vflip"@ || f == "hflip,vflip"@ || f == "setsar=1"@) && to == from
    ||| (f == "transpose=0"@ || f == "transpose=1"@ || f == "transpose=2"@ || f == "transpose=3"@)
        && to == (from.1, from.0)
    ||| is_crop(f, to) && to.0 <= from.0 && to.1 <= from.1
    ||| is_scale(f, to)
}

/// Whether a filter crops to a size.
pub open spec fn is_crop(f: Seq<char>, to: (int, int)) -> bool {
    to.0 >= 0 && to.1 >= 0 && f == "crop="@ + text::decimal(to.0 as nat) + ":"@ + text::decimal(
        to.1 as nat,
    )
}

/// Whether a filter scales to a size.
pub open spec fn is_scale(f: Seq<char>, to: (int, int)) -> bool {
    to.0 >= 0 && to.1 >= 0 && f == "scale="@ + text::decimal(to.0 as nat) + ":"@ + text::decimal(
        to.1 as nat,
    ) + ":flags=lanczos"@
}

/// Whether filters, one after the other, take a picture through the given sizes.
pub open spec fn take_through(fs: Seq<Seq<char>>, sizes: Seq<(int, int)>) -> bool {
    &&& sizes.len() == fs.len() + 1
    &&& forall|i: int| 0 <= i < fs.len() ==> makes(#[trigger] fs[i], sizes[i], sizes[i + 1])
}

/// The sizes that a picture goes through on its way through the filters of its
/// plan: as it is stored (or, of a video, as ffmpeg has turned it), as it is
/// displayed, as it is cropped, and as it comes out.
pub open spec fn way(info: MediaInfo, p: EncodePlan) -> Seq<(int, int)> {
    let stored = if info.is_video {
        picture(info)
    } else {
        (info.width as int, info.height as int)
    };
    let out = (p.out_w as int, p.out_h as int);
    (if p.orient is Some {
        seq![stored]
    } else {
        seq![]
    }) + seq![picture(info)] + (match p.crop {
        Some((w, h)) => seq![(w as int, h as int)],
        None => seq![],
    }) + seq![out, out]
}

/// The filters of a plan do what the plan says: the picture is turned upright,
/// then the crop is taken out of the picture as it is displayed, in which it
/// fits, then that is scaled to the size of the output.
pub proof fn law_filters_carry_the_plan_out(info: MediaInfo, s: Settings)
    requires
        info.width >= 2,
        info.height >= 2,
    ensures
        ({
            let p = plan::planned(info, s);
            let (fs, sizes) = (plan::filters(p), way(info, p));
            &&& take_through(fs, sizes)
            &&& sizes[0] == if info.is_video {
                picture(info)
            } else {
                (info.width as int, info.height as int)
            }
            &&& forall|i: int|
                0 <= i < fs.len() && is_crop(#[trigger] fs[i], sizes[i + 1]) ==> sizes[i] == picture(
                    info,
                )
            &&& sizes.last() == (p.out_w as int, p.out_h as int)
        }),
{
    lemma_turns_differ();
    law_crop_has_the_aspect_of_its_name(info, s);
    let p = plan::planned(info, s);
    let (fs, sizes) = (plan::filters(p), way(info, p));
    assert(p.orient == plan::planned_orient(info));
    let o = plan::image_orientation(info);
    let (w, h) = (info.width as int, info.height as int);
    reveal_strlit("crop=");
    reveal_strlit("scale=");
    reveal_strlit("setsar=1");
    reveal_strlit("transpose=0");
    reveal_strlit("transpose=1");
    reveal_strlit("transpose=2");
    reveal_strlit("transpose=3");
    reveal_strlit("hflip");
    reveal_strlit("vflip");
    reveal_strlit("hflip,vflip");
    let a: int = if p.orient is Some {
        1
    } else {
        0
    };
    let b: int = if p.crop is Some {
        1
    } else {
        0
    };
    let scale = "scale="@ + text::decimal(p.out_w as nat) + ":"@ + text::decimal(p.out_h as nat)
        + ":flags=lanczos"@;
    assert(fs.len() == a + b + 2 && sizes.len() == a + b + 3);
    assert(fs[a + b] == scale && fs[a + b + 1] == "setsar=1"@);
    assert(scale[0] == 's' && scale[1] == 'c' && "setsar=1"@[0] == 's');
    assert(forall|z: (int, int)| is_crop(scale, z) ==> scale[0] == 'c');
    assert(forall|z: (int, int)| is_crop("setsar=1"@, z) ==> "setsar=1"@[0] == 'c');
    if a == 1 {
        let f = plan::upright_filter(o)->0;
        assert(fs[0] == f && f[0] != 'c');
        assert(forall|z: (int, int)| is_crop(f, z) ==> f[0] == 'c');
        assert(sizes[0] == (w, h) && sizes[1] == picture(info));
        assert(makes(fs[0], sizes[0], sizes[1]));
    }
    if b == 1 {
        let (cw, ch) = p.crop->0;
        assert(is_crop(fs[a], (cw as int, ch as int)));
        assert(sizes[a] == picture(info) && sizes[a + 1] == (cw as int, ch as int));
    }
    assert(is_scale(fs[a + b], sizes[a + b + 1]));
    assert forall|i: int| 0 <= i < fs.len() implies makes(
        #[trigger] fs[i],
        sizes[i],
        sizes[i + 1],
    ) by {
        assert(i == 0 || i == 1 || i == 2 || i == 3);
    }
}

/// The presets: each has the box of its aspect, the hover cards alone are muted
/// and capped, at ten megabytes, and in all else a preset is as the default,
/// which keeps everything but what is larger than 1920 pixels or faster than
/// thirty frames a second. There are no others.
pub proof fn law_presets_are_what_they_are_named(name: Seq<char>)
    ensures
        ({
            let base = plan::default_settings();
            let known = name == "hover"@ || name == "square"@ || name == "landscape"@ || name
                == "original"@;
            &&& base.ratio is Original && base.max_width == 1920 && base.max_height == 1920
            &&& base.max_mb is None && base.crf == 23 && !base.strip_audio
            &&& base.fps_cap == Some(Real::Finite(false, 30 * double::one()))
            &&& base.x264_preset == "medium"@ && base.image_format is Keep
            &&& base.image_quality == 85
            &&& plan::preset_settings(name) is Some <==> known
            &&& plan::preset_settings(name) matches Some(s) ==> {
                &&& name == "hover"@ ==> s.ratio is Hover45 && 5 * s.max_width == 4 * s.max_height
                    && s.max_width == 1080
                &&& name == "square"@ ==> s.ratio is Square && s.max_width == s.max_height
                    && s.max_width == 1080
                &&& name == "landscape"@ ==> s.ratio is Landscape169 && 9 * s.max_width == 16
                    * s.max_height && s.max_width == 1920
                &&& name == "original"@ ==> s == base
                &&& s.strip_audio == (name == "hover"@)
                &&& name == "hover"@ ==> s.max_mb == Some(Real::Finite(false, 10 * double::one()))
                &&& name != "hover"@ ==> s.max_mb is None
                &&& s.crf == base.crf && s.fps_cap == base.fps_cap
                &&& s.x264_preset == base.x264_preset && s.image_format == base.image_format
                &&& s.image_quality == base.image_quality
            }
        }),
{
    double::lemma_whole_exact(30);
    double::lemma_whole_exact(10);
    reveal_strlit("hover");
    reveal_strlit("square");
    reveal_strlit("landscape");
    reveal_strlit("original");
    assert("hover"@.len() == 5 && "square"@.len() == 6);
    assert("landscape"@.len() == 9 && "original"@.len() == 8);
}

/// A picture comes out as large as it may: what is left of it after the crop
/// keeps its size where that is inside the box, but for a pixel that makes a side
/// even; otherwise one of its sides comes within two pixels of the box, the even
/// pixel included. (This is without a byte cap.)
pub proof fn law_output_is_as_large_as_it_may(info: MediaInfo, s: Settings)
    requires
        s.max_mb is None,
    ensures
        ({
            let p = plan::planned(info, s);
            let (cw, ch) = kept(info, p);
            let (mw, mh) = (
                if s.max_width < 2 {
                    2
                } else {
                    s.max_width as int
                },
                if s.max_height < 2 {
                    2
                } else {
                    s.max_height as int
                },
            );
            &&& p.out_w <= mw && p.out_h <= mh
            &&& cw < mw && ch < mh ==> p.out_w >= cw - 1 && p.out_h >= ch - 1
            &&& p.out_w >= mw - 2 || p.out_h >= mh - 2 || (p.out_w >= cw - 1 && p.out_h >= ch - 1)
        }),
{
    let (cw, ch) = plan::cropped(info, s.ratio);
    let (mw, mh) = (
        plan::at_least(s.max_width as int, 2) as nat,
        plan::at_least(s.max_height as int, 2) as nat,
    );
    plan::lemma_cropped_within(info, s.ratio);
    law_output_fits(info, s);
    plan::law_fit(cw as nat, ch as nat, mw, mh);
    let (kw, kh) = kept(info, plan::planned(info, s));
    assert(kw <= cw <= kw + 1 || (cw < 2 && kw == 2));
    assert(kh <= ch <= kh + 1 || (ch < 2 && kh == 2));
    if mw < cw || mh < ch {
        plan::law_fit_fills_the_box(cw as nat, ch as nat, mw, mh);
    }
}

/// A cap on the frame rate is applied wherever the source runs more than a
/// hundredth of a frame above it, and nowhere else. The audio of a source that
/// has one is kept at 96 thousand bits a second unless it is to go.
pub proof fn law_frame_rate_and_audio_follow_the_settings(info: MediaInfo, s: Settings)
    ensures
        ({
            let p = plan::planned(info, s);
            let above = s.fps_cap is Some && double::less(
                double::sum(s.fps_cap->0@, double::literal(1, 100)),
                info.fps@,
            );
            &&& p.fps == if above {
                s.fps_cap
            } else {
                None
            }
            &&& p.audio_kbps == if info.has_audio && !s.strip_audio {
                Some(96u32)
            } else {
                None
            }
        }),
{
    plan::lemma_hundredth();
    let hundredth = double::nearest(double::one(), 100);
    double::lemma_sum_not_less(info.fps, hundredth);
}

/// A video is encoded at a bitrate exactly where there is a byte cap and it lasts
/// longer than a twentieth of a second, and never at less than 120 thousand bits
/// a second; otherwise at the quality asked for, up to the end of the scale.
pub proof fn law_rate_follows_the_settings(info: MediaInfo, s: Settings)
    ensures
        match plan::planned(info, s).rate {
            RateControl::TwoPass { video_kbps: n } => s.max_mb is Some && double::less(
                double::literal(5, 100),
                info.duration_s@,
            ) && (plan::planned_kbps(info, s) <= u32::MAX ==> n >= 120),
            RateControl::Crf(q) => !(s.max_mb is Some && double::less(
                double::literal(5, 100),
                info.duration_s@,
            )) && q == if s.crf <= 51 {
                s.crf
            } else {
                51
            },
        },
{
    plan::law_rate_control(info, s);
}

} // verus!
