//! Pure planning logic: given source media info and user settings, decide the
//! exact output dimensions, crop, and encoder rate control.
use crate::double;
use crate::double::{Double, Real};
use crate::ffmpeg;
use crate::ffmpeg::upright;
use crate::text;
use crate::text::{decimal_text, join_texts, joined, put, same};
use vstd::prelude::*;

verus! {

/// Aspect-ratio treatment for the output.
#[derive(Debug, Clone, Copy, PartialEq, Eq, Structural)]
pub enum Ratio {
    /// Center-crop to 4:5 (the kamiru.art work-grid "hover" cards).
    Hover45,
    /// Center-crop to 1:1.
    Square,
    /// Center-crop to 16:9.
    Landscape169,
    /// Keep the source aspect ratio, only scale down.
    Original,
}

impl Default for Ratio {
    fn default() -> (r: Ratio)
        ensures
            r == Ratio::Original,
    {
        Ratio::Original
    }
}

/// Target aspect as (w, h), or None to keep the source ratio.
pub open spec fn aspect(r: Ratio) -> Option<(u32, u32)> {
    match r {
        Ratio::Hover45 => Some((4u32, 5u32)),
        Ratio::Square => Some((1u32, 1u32)),
        Ratio::Landscape169 => Some((16u32, 9u32)),
        Ratio::Original => None,
    }
}

impl Ratio {
    /// Target aspect as (w, h), or None to keep the source ratio.
    pub fn target(self) -> (r: Option<(u32, u32)>)
        ensures
            r == aspect(self),
    {
        match self {
            Ratio::Hover45 => Some((4, 5)),
            Ratio::Square => Some((1, 1)),
            Ratio::Landscape169 => Some((16, 9)),
            Ratio::Original => None,
        }
    }
}

/// Output image format.
#[derive(Debug, Clone, Copy, PartialEq, Eq, Structural)]
pub enum ImageFormat {
    /// Keep the source format (falls back to jpg for exotic inputs).
    Keep,
    Jpg,
    Webp,
    Png,
}

impl Default for ImageFormat {
    fn default() -> (r: ImageFormat)
        ensures
            r == ImageFormat::Keep,
    {
        ImageFormat::Keep
    }
}

/// Everything the user can tune. Shared by the CLI and the GUI.
#[derive(Debug, Clone)]
pub struct Settings {
    pub ratio: Ratio,
    /// Bounding box the output must fit inside (after any crop).
    pub max_width: u32,
    pub max_height: u32,
    /// Auto-tune: hard cap on the output file size, in megabytes.
    /// When set, videos use two-pass ABR sized to hit this; images walk the
    /// quality ladder down until they fit.
    pub max_mb: Option<Double>,
    /// x264 CRF used when `max_mb` is not set (18 = near lossless, 32 = tiny).
    pub crf: u8,
    /// Cap the output frame rate (only applied when the source is higher).
    pub fps_cap: Option<Double>,
    /// Drop the audio track entirely (hover videos autoplay muted anyway).
    pub strip_audio: bool,
    /// x264 speed/efficiency trade-off.
    pub x264_preset: String,
    pub image_format: ImageFormat,
    /// Image quality 1..=100 used when `max_mb` is not set.
    pub image_quality: u8,
}

/// What settings say.
#[verifier::ext_equal]
pub struct SettingsV {
    pub ratio: Ratio,
    pub max_width: u32,
    pub max_height: u32,
    pub max_mb: Option<Real>,
    pub crf: u8,
    pub fps_cap: Option<Real>,
    pub strip_audio: bool,
    pub x264_preset: Seq<char>,
    pub image_format: ImageFormat,
    pub image_quality: u8,
}

/// The value of a number that may be missing.
pub open spec fn value_of(d: Option<Double>) -> Option<Real> {
    match d {
        None => None,
        Some(x) => Some(x@),
    }
}

impl View for Settings {
    type V = SettingsV;

    open spec fn view(&self) -> SettingsV {
        SettingsV {
            ratio: self.ratio,
            max_width: self.max_width,
            max_height: self.max_height,
            max_mb: value_of(self.max_mb),
            crf: self.crf,
            fps_cap: value_of(self.fps_cap),
            strip_audio: self.strip_audio,
            x264_preset: self.x264_preset@,
            image_format: self.image_format,
            image_quality: self.image_quality,
        }
    }
}

/// The settings before anything is tuned.
pub open spec fn default_settings() -> SettingsV {
    SettingsV {
        ratio: Ratio::Original,
        max_width: 1920,
        max_height: 1920,
        max_mb: None,
        crf: 23,
        fps_cap: Some(double::whole(30)),
        strip_audio: false,
        x264_preset: "medium"@,
        image_format: ImageFormat::Keep,
        image_quality: 85,
    }
}

/// The settings of the kamiru.art hover cards.
pub open spec fn hover_settings() -> SettingsV {
    SettingsV {
        ratio: Ratio::Hover45,
        max_width: 1080,
        max_height: 1350,
        max_mb: Some(double::whole(10)),
        strip_audio: true,
        ..default_settings()
    }
}

/// The settings that a name stands for.
pub open spec fn preset_settings(name: Seq<char>) -> Option<SettingsV> {
    if name == "hover"@ {
        Some(hover_settings())
    } else if name == "square"@ {
        Some(
            SettingsV {
                ratio: Ratio::Square,
                max_width: 1080,
                max_height: 1080,
                ..default_settings()
            },
        )
    } else if name == "landscape"@ {
        Some(
            SettingsV {
                ratio: Ratio::Landscape169,
                max_width: 1920,
                max_height: 1080,
                ..default_settings()
            },
        )
    } else if name == "original"@ {
        Some(default_settings())
    } else {
        None
    }
}

impl Default for Settings {
    fn default() -> (r: Settings)
        ensures
            r@ == default_settings(),
    {
        Settings {
            ratio: Ratio::Original,
            max_width: 1920,
            max_height: 1920,
            max_mb: None,
            crf: 23,
            fps_cap: Some(Double::from_u64(30)),
            strip_audio: false,
            x264_preset: "medium".to_owned(),
            image_format: ImageFormat::Keep,
            image_quality: 85,
        }
    }
}

impl Settings {
    /// Defaults tuned for the kamiru.art hover cards: 4:5 crop, muted,
    /// capped to 10 MB at up to 1080x1350.
    pub fn hover() -> (r: Self)
        ensures
            r@ == hover_settings(),
    {
        let mut s = Settings::default();
        s.ratio = Ratio::Hover45;
        s.max_width = 1080;
        s.max_height = 1350;
        s.max_mb = Some(Double::from_u64(10));
        s.strip_audio = true;
        s
    }

    /// The settings that a preset name stands for.
    pub fn preset(name: &str) -> (r: Option<Self>)
        ensures
            r is Some == preset_settings(name@) is Some,
            r is Some ==> r->0@ == preset_settings(name@)->0,
    {
        if same(name, "hover") {
            return Some(Settings::hover());
        }
        let mut s = Settings::default();
        if same(name, "square") {
            s.ratio = Ratio::Square;
            s.max_width = 1080;
            s.max_height = 1080;
            Some(s)
        } else if same(name, "landscape") {
            s.ratio = Ratio::Landscape169;
            s.max_width = 1920;
            s.max_height = 1080;
            Some(s)
        } else if same(name, "original") {
            Some(s)
        } else {
            None
        }
    }
}

/// What we learned about the source via ffprobe.
#[derive(Debug, Clone, Copy, PartialEq, Eq, Structural)]
pub struct MediaInfo {
    pub width: u32,
    pub height: u32,
    /// Display rotation in degrees (from the container's display matrix).
    pub rotation: i32,
    /// EXIF orientation of an image (1..=8; anything else means that none is
    /// known, and the rotation counts). Videos are turned upright by ffmpeg, by
    /// their rotation.
    pub orientation: u8,
    pub duration_s: Double,
    pub fps: Double,
    pub has_audio: bool,
    pub is_video: bool,
    pub size_bytes: u64,
}

/// What is known of a source.
#[verifier::ext_equal]
pub ghost struct MediaInfoV {
    pub width: u32,
    pub height: u32,
    pub rotation: i32,
    pub orientation: u8,
    pub duration_s: Real,
    pub fps: Real,
    pub has_audio: bool,
    pub is_video: bool,
    pub size_bytes: u64,
}

impl View for MediaInfo {
    type V = MediaInfoV;

    open spec fn view(&self) -> MediaInfoV {
        MediaInfoV {
            width: self.width,
            height: self.height,
            rotation: self.rotation,
            orientation: self.orientation,
            duration_s: self.duration_s@,
            fps: self.fps@,
            has_audio: self.has_audio,
            is_video: self.is_video,
            size_bytes: self.size_bytes,
        }
    }
}

impl Default for MediaInfo {
    fn default() -> (r: MediaInfo)
        ensures
            r@ == (MediaInfoV {
                width: 0,
                height: 0,
                rotation: 0,
                orientation: 0,
                duration_s: double::whole(0),
                fps: double::whole(0),
                has_audio: false,
                is_video: false,
                size_bytes: 0,
            }),
    {
        MediaInfo {
            width: 0,
            height: 0,
            rotation: 0,
            orientation: 0,
            duration_s: Double::from_u64(0),
            fps: Double::from_u64(0),
            has_audio: false,
            is_video: false,
            size_bytes: 0,
        }
    }
}

/// The orientation of a source that is no video: the one that is known, or else
/// the one that its rotation gives.
pub open spec fn image_orientation(info: MediaInfo) -> u8 {
    if 1 <= info.orientation <= 8 {
        info.orientation
    } else {
        ffmpeg::orientation_of_rotation(info.rotation)
    }
}

/// Whether the picture is displayed with its sides exchanged.
pub open spec fn on_its_side(info: MediaInfo) -> bool {
    if info.is_video {
        info.rotation % 180 == 90
    } else {
        5 <= image_orientation(info) <= 8
    }
}

/// Width and height as displayed.
pub open spec fn displayed(info: MediaInfo) -> (u32, u32) {
    if on_its_side(info) {
        (info.height, info.width)
    } else {
        (info.width, info.height)
    }
}

impl MediaInfo {
    /// The orientation of a source that is no video.
    fn own_orientation(&self) -> (r: u8)
        ensures
            r == image_orientation(*self),
    {
        if 1 <= self.orientation && self.orientation <= 8 {
            self.orientation
        } else {
            upright(self.rotation)
        }
    }

    /// Width/height as displayed (i.e. after rotation is applied).
    pub fn display_dims(&self) -> (r: (u32, u32))
        ensures
            r == displayed(*self),
    {
        let side: bool = if self.is_video {
            // 2147483700 is a multiple of 180 that makes the sum positive.
            (self.rotation as i64 + 2147483700) % 180 == 90
        } else {
            let o: u8 = self.own_orientation();
            5 <= o && o <= 8
        };
        if side {
            (self.height, self.width)
        } else {
            (self.width, self.height)
        }
    }
}

/// Rate control for the video encoder.
#[derive(Debug, Clone, Copy, PartialEq, Eq, Structural)]
pub enum RateControl {
    Crf(u8),
    /// Two-pass ABR at this video bitrate (kbit/s), sized for a byte target.
    TwoPass { video_kbps: u32 },
}

/// A fully resolved encode plan for one file.
#[derive(Debug, Clone, Copy, PartialEq, Eq)]
pub struct EncodePlan {
    /// Centered crop applied first, in source display pixels. None = no crop.
    pub crop: Option<(u32, u32)>,
    /// Final output dimensions (even, >= 2).
    pub out_w: u32,
    pub out_h: u32,
    /// Output fps override (only when capping below the source rate).
    pub fps: Option<Double>,
    pub rate: RateControl,
    /// AAC audio bitrate in kbit/s; None = strip audio (or no audio track).
    pub audio_kbps: Option<u32>,
    /// EXIF orientation (2..=8) to undo before anything else; None when the
    /// picture is stored upright or ffmpeg turns it by itself.
    pub orient: Option<u8>,
}

/// Never plan a video bitrate below this, no matter what.
pub const MIN_VIDEO_KBPS: u32 = 120;

pub const AUDIO_KBPS: u32 = 96;

/// The greater of two numbers.
pub open spec fn at_least(n: int, least: int) -> int {
    if n < least {
        least
    } else {
        n
    }
}

/// `n` made even by taking one away, but no less than two.
pub open spec fn evened(n: int) -> int {
    at_least(n - n % 2, 2)
}

/// `n` made even by taking one away, but no less than two.
pub fn even(n: u32) -> (r: u32)
    ensures
        r == evened(n as int),
        r % 2 == 0,
        r >= 2,
        r <= n || r == 2,
{
    let e: u32 = n - n % 2;
    if e < 2 {
        2
    } else {
        e
    }
}

/// The greater of two numbers.
fn max_u32(a: u32, b: u32) -> (r: u32)
    ensures
        r == at_least(a as int, b as int),
{
    if a < b {
        b
    } else {
        a
    }
}

/// The crop of (w, h) to the aspect `aw:ah`: full height where the width
/// allows it, and full width otherwise; no side vanishes.
pub open spec fn crop(w: nat, h: nat, aw: nat, ah: nat) -> (int, int) {
    if h * aw / ah <= w {
        (at_least((h * aw / ah) as int, 1), h as int)
    } else {
        (w as int, at_least((w * ah / aw) as int, 1))
    }
}

/// Centered crop of (w, h) to the target aspect `aw:ah`, in source pixels.
pub fn crop_to_ratio(w: u32, h: u32, aw: u32, ah: u32) -> (r: (u32, u32))
    requires
        ah > 0,
    ensures
        (r.0 as int, r.1 as int) == crop(w as nat, h as nat, aw as nat, ah as nat),
{
    let (lw, lh, law, lah) = (w as u64, h as u64, aw as u64, ah as u64);
    assert(lh * law <= u32::MAX * u32::MAX && lw * lah <= u32::MAX * u32::MAX) by (nonlinear_arith)
        requires
            lh <= u32::MAX,
            law <= u32::MAX,
            lw <= u32::MAX,
            lah <= u32::MAX,
    ;
    let cw: u64 = lh * law / lah;
    if cw <= lw {
        (if cw < 1 {
            1
        } else {
            cw as u32
        }, h)
    } else {
        proof {
            lemma_crop_shorter(lw as nat, lh as nat, law as nat, lah as nat);
        }
        let ch: u64 = lw * lah / law;
        (w, if ch < 1 {
            1
        } else {
            ch as u32
        })
    }
}

/// Where the full height is too wide, the full width is not too high.
proof fn lemma_crop_shorter(w: nat, h: nat, aw: nat, ah: nat)
    requires
        ah > 0,
        h * aw / ah > w,
    ensures
        aw > 0,
        w * ah / aw <= h,
        w * ah < h * aw,
{
    vstd::arithmetic::div_mod::lemma_fundamental_div_mod((h * aw) as int, ah as int);
    let q = h * aw / ah;
    assert(w * ah < h * aw) by (nonlinear_arith)
        requires
            h * aw == ah * q + (h * aw) % ah,
            (h * aw) % ah >= 0,
            q >= w + 1,
            ah > 0,
    ;
    if aw == 0 {
        assert(h * aw == 0);
        assert(w * ah >= 0) by (nonlinear_arith);
        assert(false);
    }
    vstd::arithmetic::div_mod::lemma_div_is_ordered((w * ah) as int, (h * aw) as int, aw as int);
    vstd::arithmetic::div_mod::lemma_div_multiples_vanish(h as int, aw as int);
    assert(aw * h == h * aw) by (nonlinear_arith);
}

/// The scale that brings (w, h) into (max_w, max_h).
#[verifier::opaque]
pub open spec fn fit_scale(w: nat, h: nat, max_w: nat, max_h: nat) -> Real {
    double::lesser(double::quotient(double::whole(max_w), double::whole(w)), double::quotient(double::whole(max_h), double::whole(h)))
}

/// A side of `n` pixels, scaled and rounded down, but no less than `least`.
pub open spec fn scaled(n: nat, scale: Real, least: int) -> int {
    at_least(double::whole_part(double::product(double::whole(n), scale), u32::MAX as nat) as int, least)
}

/// (w, h), scaled down where it does not fit inside (max_w, max_h).
pub open spec fn fit(w: nat, h: nat, max_w: nat, max_h: nat) -> (int, int) {
    if w <= max_w && h <= max_h {
        (w as int, h as int)
    } else {
        let s = fit_scale(w, h, max_w, max_h);
        (scaled(w, s, 1), scaled(h, s, 1))
    }
}

/// Scale (w, h) down (never up) to fit inside (max_w, max_h), keeping aspect.
pub fn fit_within(w: u32, h: u32, max_w: u32, max_h: u32) -> (r: (u32, u32))
    ensures
        (r.0 as int, r.1 as int) == fit(w as nat, h as nat, max_w as nat, max_h as nat),
{
    proof {
        reveal(fit_scale);
    }
    if w <= max_w && h <= max_h {
        return (w, h);
    }
    let s: Double = Double::from_u64(max_w as u64).div(Double::from_u64(w as u64)).min(
        Double::from_u64(max_h as u64).div(Double::from_u64(h as u64)),
    );
    let fw: u32 = Double::from_u64(w as u64).mul(s).to_u32();
    let fh: u32 = Double::from_u64(h as u64).mul(s).to_u32();
    (max_u32(fw, 1), max_u32(fh, 1))
}

/// The displayed size that a plan starts from: no side below two pixels.
pub open spec fn source(info: MediaInfo) -> (int, int) {
    (at_least(displayed(info).0 as int, 2), at_least(displayed(info).1 as int, 2))
}

/// The size after the crop to the wanted aspect.
#[verifier::opaque]
pub open spec fn cropped(info: MediaInfo, ratio: Ratio) -> (int, int) {
    let (w, h) = source(info);
    match aspect(ratio) {
        None => (w, h),
        Some((aw, ah)) => crop(w as nat, h as nat, aw as nat, ah as nat),
    }
}

/// The size inside the resolution box, made even.
pub open spec fn boxed(info: MediaInfo, s: Settings) -> (int, int) {
    let (w, h) = cropped(info, s.ratio);
    let (fw, fh) = fit(
        w as nat,
        h as nat,
        at_least(s.max_width as int, 2) as nat,
        at_least(s.max_height as int, 2) as nat,
    );
    (evened(fw), evened(fh))
}

/// The frame rate after the cap: the cap itself, where the source runs more
/// than a hundredth above it.
pub open spec fn capped_fps(info: MediaInfo, s: Settings) -> Double {
    match s.fps_cap {
        Some(cap) => if double::less(double::sum(cap@, double::literal(1, 100)), info.fps@) {
            cap
        } else {
            info.fps
        },
        None => info.fps,
    }
}

/// The frame rate that the bitrate is reckoned with: thirty where none is
/// known.
pub open spec fn reckoned_fps(info: MediaInfo, s: Settings) -> Real {
    let fps = capped_fps(info, s)@;
    if double::less(double::whole(0), fps) {
        fps
    } else {
        double::whole(30)
    }
}

/// Whether the audio track is kept.
pub open spec fn keeps_audio(info: MediaInfo, s: Settings) -> bool {
    info.has_audio && !s.strip_audio
}

/// The bits that a file of `mb` megabytes has for its streams: 96 of a
/// hundred, the rest being the container's, and never less than a tenth of a
/// megabyte.
pub open spec fn budget_bits(mb: Real) -> Real {
    let bytes = double::product(
        double::product(double::greater(mb, double::literal(1, 10)), double::whole(1024)),
        double::whole(1024),
    );
    double::product(double::product(bytes, double::whole(8)), double::literal(96, 100))
}

/// The bits that the audio track takes.
pub open spec fn audio_bits(duration: Real, keep: bool) -> Real {
    if keep {
        double::product(double::product(double::whole(96), double::whole(1000)), duration)
    } else {
        double::whole(0)
    }
}

/// The video bitrate that fills the budget, but no less than the minimum.
#[verifier::opaque]
pub open spec fn budget_kbps(mb: Real, duration: Real, keep: bool) -> int {
    let bits = double::sum(budget_bits(mb), double::negated(audio_bits(duration, keep)));
    at_least(
        double::floor(double::quotient(double::quotient(bits, duration), double::whole(1000))),
        MIN_VIDEO_KBPS as int,
    )
}

/// The bitrate of `w * h` pixels at a number of bits for each pixel of each
/// frame.
#[verifier::opaque]
pub open spec fn pixel_kbps(w: int, h: int, fps: Real, bits_per_pixel: Real) -> Real {
    double::quotient(
        double::product(
            double::product(double::product(double::whole(w as nat), double::whole(h as nat)), fps),
            bits_per_pixel,
        ),
        double::whole(1000),
    )
}

/// Below this many bits per pixel per frame, x264 output turns to mush.
pub open spec fn min_bits_per_pixel() -> Real {
    double::literal(45, 1000)
}

/// Above this many bits per pixel per frame, extra bitrate is invisible.
pub open spec fn max_bits_per_pixel() -> Real {
    double::literal(15, 100)
}

/// A side, shrunk to the square root of what the budget covers, made even.
#[verifier::opaque]
pub open spec fn shrunk_side(n: int, kbps: int, needed: Real) -> int {
    let shrink = double::root(double::quotient(double::whole(kbps as nat), needed));
    evened(scaled(n as nat, shrink, 2))
}

/// The size at which the bitrate is no longer too thin: the given one, or a
/// smaller one where the bitrate is below what that needs.
pub open spec fn affordable(w: int, h: int, kbps: int, fps: Real) -> (int, int) {
    let needed = pixel_kbps(w, h, fps, min_bits_per_pixel());
    if double::less(double::whole(kbps as nat), needed) {
        (shrunk_side(w, kbps, needed), shrunk_side(h, kbps, needed))
    } else {
        (w, h)
    }
}

/// The bitrate beyond which quality no longer rises.
pub open spec fn ceiling_kbps(w: int, h: int, fps: Real) -> int {
    at_least(
        double::ceil(pixel_kbps(w, h, fps, max_bits_per_pixel())),
        MIN_VIDEO_KBPS as int,
    )
}

/// The lesser of two numbers.
pub open spec fn at_most(n: int, most: int) -> int {
    if n > most {
        most
    } else {
        n
    }
}

/// Whether the plan is sized for a byte target.
pub open spec fn has_budget(info: MediaInfo, s: Settings) -> bool {
    s.max_mb is Some && double::less(double::literal(5, 100), info.duration_s@)
}

/// The size of the output.
pub open spec fn output_size(info: MediaInfo, s: Settings) -> (int, int) {
    let (w, h) = boxed(info, s);
    if has_budget(info, s) {
        affordable(
            w,
            h,
            budget_kbps(s.max_mb->0@, info.duration_s@, keeps_audio(info, s)),
            reckoned_fps(info, s),
        )
    } else {
        (w, h)
    }
}

/// The bitrate of a plan with a budget.
pub open spec fn planned_kbps(info: MediaInfo, s: Settings) -> int {
    let (w, h) = output_size(info, s);
    at_most(
        budget_kbps(s.max_mb->0@, info.duration_s@, keeps_audio(info, s)),
        ceiling_kbps(w, h, reckoned_fps(info, s)),
    )
}

/// The crop of a plan: none where it would cut nothing.
pub open spec fn planned_crop(info: MediaInfo, s: Settings) -> Option<(u32, u32)> {
    let (w, h) = cropped(info, s.ratio);
    if (w, h) == source(info) {
        None
    } else {
        Some((evened(w) as u32, evened(h) as u32))
    }
}

/// The orientation that a plan undoes.
pub open spec fn planned_orient(info: MediaInfo) -> Option<u8> {
    if !info.is_video && image_orientation(info) != 1 {
        Some(image_orientation(info))
    } else {
        None
    }
}

/// The rate control of a plan.
pub open spec fn planned_rate(info: MediaInfo, s: Settings) -> RateControl {
    if has_budget(info, s) {
        RateControl::TwoPass { video_kbps: (planned_kbps(info, s) % 0x1_0000_0000) as u32 }
    } else {
        RateControl::Crf(at_most(s.crf as int, 51) as u8)
    }
}

/// The plan for a source under the given settings.
pub open spec fn planned(info: MediaInfo, s: Settings) -> EncodePlan {
    let fps = capped_fps(info, s);
    EncodePlan {
        crop: planned_crop(info, s),
        out_w: output_size(info, s).0 as u32,
        out_h: output_size(info, s).1 as u32,
        fps: if double::less(double::sum(fps@, double::literal(1, 100)), info.fps@) {
            Some(fps)
        } else {
            None
        },
        rate: planned_rate(info, s),
        audio_kbps: if keeps_audio(info, s) {
            Some(AUDIO_KBPS)
        } else {
            None
        },
        orient: planned_orient(info),
    }
}

/// The bitrate of `w * h` pixels at a number of bits for each pixel.
fn kbps_of_pixels(w: u32, h: u32, fps: Double, bits_per_pixel: Double) -> (r: Double)
    ensures
        r@ == pixel_kbps(w as int, h as int, fps@, bits_per_pixel@),
{
    proof {
        reveal(pixel_kbps);
    }
    Double::from_u64(w as u64).mul(Double::from_u64(h as u64)).mul(fps).mul(bits_per_pixel).div(
        Double::from_u64(1000),
    )
}

/// The video bitrate that fills the budget.
fn kbps_of_budget(mb: Double, duration: Double, keep: bool) -> (r: u64)
    ensures
        r == budget_kbps(mb@, duration@, keep),
        r <= i64::MAX,
{
    proof {
        reveal(budget_kbps);
    }
    let k: Double = Double::from_u64(1024);
    let budget: Double = mb.max(Double::ratio(1, 10)).mul(k).mul(k).mul(Double::from_u64(8)).mul(
        Double::ratio(96, 100),
    );
    let audio: Double = if keep {
        Double::from_u64(AUDIO_KBPS as u64).mul(Double::from_u64(1000)).mul(duration)
    } else {
        Double::from_u64(0)
    };
    let kbps: i64 = budget.sub(audio).div(duration).div(Double::from_u64(1000)).floor_i64();
    if kbps < MIN_VIDEO_KBPS as i64 {
        MIN_VIDEO_KBPS as u64
    } else {
        kbps as u64
    }
}

/// A side, shrunk to what the budget covers.
fn shrink_side(n: u32, kbps: u64, needed: Double) -> (r: u32)
    ensures
        r == shrunk_side(n as int, kbps as int, needed@),
{
    proof {
        reveal(shrunk_side);
    }
    let shrink: Double = Double::from_u64(kbps).div(needed).sqrt();
    even(max_u32(Double::from_u64(n as u64).mul(shrink).to_u32(), 2))
}

/// Build the encode plan for one source file.
pub fn plan_video(info: &MediaInfo, s: &Settings) -> (r: EncodePlan)
    ensures
        r == planned(*info, *s),
{
    proof {
        reveal(cropped);
    }
    let (dw, dh) = info.display_dims();
    let (dw, dh) = (max_u32(dw, 2), max_u32(dh, 2));

    // 1. Crop to the requested aspect ratio (centered).
    let (cw, ch) = match s.ratio.target() {
        Some((aw, ah)) => crop_to_ratio(dw, dh, aw, ah),
        None => (dw, dh),
    };
    let crop: Option<(u32, u32)> = if cw == dw && ch == dh {
        None
    } else {
        Some((even(cw), even(ch)))
    };

    // 2. Fit inside the resolution box; make dimensions even for h264 now so
    //    the rate-control math below sees the real output size.
    let (fw, fh) = fit_within(cw, ch, max_u32(s.max_width, 2), max_u32(s.max_height, 2));
    let (mut ow, mut oh) = (even(fw), even(fh));

    // 3. Frame rate cap.
    let hundredth: Double = Double::ratio(1, 100);
    let fps_out: Double = match s.fps_cap {
        Some(cap) => if cap.add(hundredth).lt(info.fps) {
            cap
        } else {
            info.fps
        },
        None => info.fps,
    };
    let fps_used: Double = if Double::from_u64(0).lt(fps_out) {
        fps_out
    } else {
        Double::from_u64(30)
    };

    // 4. Rate control.
    let keep_audio: bool = info.has_audio && !s.strip_audio;
    let long: bool = Double::ratio(5, 100).lt(info.duration_s);
    let rate = match s.max_mb {
        Some(mb) if long => {
            let budget: u64 = kbps_of_budget(mb, info.duration_s, keep_audio);
            // If the budget is too thin for these dimensions, shrink the frame
            // until the bits-per-pixel floor is respected again.
            let needed: Double = kbps_of_pixels(ow, oh, fps_used, Double::ratio(45, 1000));
            if Double::from_u64(budget).lt(needed) {
                ow = shrink_side(ow, budget, needed);
                oh = shrink_side(oh, budget, needed);
            }
            // ...and don't waste bits either: quality plateaus past the
            // ceiling, so short clips come out well under the size cap.

            let most: i64 = kbps_of_pixels(ow, oh, fps_used, Double::ratio(15, 100)).ceil_i64();
            let most: u64 = if most < MIN_VIDEO_KBPS as i64 {
                MIN_VIDEO_KBPS as u64
            } else {
                most as u64
            };
            let kbps: u64 = if budget > most {
                most
            } else {
                budget
            };
            RateControl::TwoPass { video_kbps: (kbps % 0x1_0000_0000) as u32 }
        },
        _ => RateControl::Crf(
            if s.crf > 51 {
                51
            } else {
                s.crf
            },
        ),
    };

    EncodePlan {
        crop,
        out_w: ow,
        out_h: oh,
        fps: if fps_out.add(hundredth).lt(info.fps) {
            Some(fps_out)
        } else {
            None
        },
        rate,
        audio_kbps: if keep_audio {
            Some(AUDIO_KBPS)
        } else {
            None
        },
        orient: if !info.is_video && info.own_orientation() != 1 {
            Some(info.own_orientation())
        } else {
            None
        },
    }
}

/// The filter that turns a picture of this orientation upright.
pub open spec fn upright_filter(orientation: u8) -> Option<Seq<char>> {
    if orientation == 2 {
        Some("hflip"@)
    } else if orientation == 3 {
        Some("hflip,vflip"@)
    } else if orientation == 4 {
        Some("vflip"@)
    } else if orientation == 5 {
        Some("transpose=0"@)
    } else if orientation == 6 {
        Some("transpose=1"@)
    } else if orientation == 7 {
        Some("transpose=3"@)
    } else if orientation == 8 {
        Some("transpose=2"@)
    } else {
        None
    }
}

/// The filters of a plan: upright first, then the crop (in source display
/// pixels), then the scale to the exact output size.
pub open spec fn filters(p: EncodePlan) -> Seq<Seq<char>> {
    let upright: Seq<Seq<char>> = match p.orient {
        Some(o) => match upright_filter(o) {
            Some(f) => seq![f],
            None => seq![],
        },
        None => seq![],
    };
    let cut: Seq<Seq<char>> = match p.crop {
        Some((w, h)) => seq!["crop="@ + text::decimal(w as nat) + ":"@ + text::decimal(h as nat)],
        None => seq![],
    };
    upright + cut + seq![
        "scale="@ + text::decimal(p.out_w as nat) + ":"@ + text::decimal(p.out_h as nat)
            + ":flags=lanczos"@,
        "setsar=1"@,
    ]
}

/// The filter that turns a picture of this orientation upright.
fn filter_upright(orientation: u8) -> (r: Option<&'static str>)
    ensures
        r is Some == upright_filter(orientation) is Some,
        r is Some ==> r->0@ == upright_filter(orientation)->0,
{
    match orientation {
        2 => Some("hflip"),
        3 => Some("hflip,vflip"),
        4 => Some("vflip"),
        5 => Some("transpose=0"),
        6 => Some("transpose=1"),
        7 => Some("transpose=3"),
        8 => Some("transpose=2"),
        _ => None,
    }
}

/// Two numbers, with a colon between them, behind a name.
fn sized(name: &str, w: u32, h: u32) -> (r: String)
    ensures
        r@ == name@ + text::decimal(w as nat) + ":"@ + text::decimal(h as nat),
{
    joined(name, &decimal_text(w as u64)).concat(":").concat(&decimal_text(h as u64))
}

/// The ffmpeg `-vf` filter chain for a plan. Crop first (in source display
/// pixels), then scale to the exact output size.
pub fn filter_chain(plan: &EncodePlan) -> (r: String)
    ensures
        r@ == text::join(filters(*plan), ","@),
{
    let mut parts: Vec<String> = Vec::new();
    assert(text::texts(parts@) =~= Seq::<Seq<char>>::empty());
    if let Some(o) = plan.orient {
        if let Some(f) = filter_upright(o) {
            put(&mut parts, f);
        }
    }
    let ghost upright = text::texts(parts@);
    if let Some((cw, ch)) = plan.crop {
        put(&mut parts, &sized("crop=", cw, ch));
    }
    let ghost cut = text::texts(parts@);
    put(&mut parts, &sized("scale=", plan.out_w, plan.out_h).concat(":flags=lanczos"));
    put(&mut parts, "setsar=1");
    assert(text::texts(parts@) =~= filters(*plan));
    join_texts(&parts, ",")
}

/// Quality ladder used when auto-tuning an image to a byte budget.
pub open spec fn ladder(format: ImageFormat) -> Seq<u32> {
    match format {
        ImageFormat::Webp => seq![90u32, 82, 75, 65, 55, 45, 35, 25],
        _ => seq![2u32, 3, 5, 7, 10, 14, 18, 24, 31],
    }
}

/// Quality ladder used when auto-tuning an image to a byte budget.
/// Values are in each encoder's own scale (mjpeg 2..31 lower=better,
/// libwebp 0..100 higher=better, jpeg-style 1..100 for our UI slider).
pub fn image_quality_ladder(format: ImageFormat) -> (r: Vec<u32>)
    ensures
        r@ == ladder(format),
{
    match format {
        ImageFormat::Webp => vec![90, 82, 75, 65, 55, 45, 35, 25],
        // mjpeg -q:v scale (2 = best).
        _ => vec![2, 3, 5, 7, 10, 14, 18, 24, 31],
    }
}

/// A slider position, brought into 1..=100.
pub open spec fn slider(q: u8) -> int {
    at_most(at_least(q as int, 1), 100)
}

/// Map a 1..=100 UI quality slider to the mjpeg -q:v scale (2 best .. 31
/// worst): the whole number nearest to `2 + (100 - q) * 29 / 99`.
pub open spec fn jpeg_q(q: u8) -> int {
    2 + ((100 - slider(q)) * 58 + 99) / 198
}

/// Map a 1..=100 UI quality slider to the mjpeg -q:v scale (2 best .. 31 worst).
pub fn jpeg_q_from_percent(q: u8) -> (r: u32)
    ensures
        r == jpeg_q(q),
        2 <= r <= 31,
{
    let q: u32 = if q < 1 {
        1
    } else if q > 100 {
        100
    } else {
        q as u32
    };
    2 + ((100 - q) * 58 + 99) / 198
}

/// The scale of a fit, in units: no more than one, and small enough for
/// either side.
proof fn lemma_fit_scale(w: nat, h: nat, max_w: nat, max_h: nat) -> (k: nat)
    requires
        0 < w <= u32::MAX,
        0 < h <= u32::MAX,
        max_w <= u32::MAX,
        max_h <= u32::MAX,
        max_w < w || max_h < h,
    ensures
        fit_scale(w, h, max_w, max_h) == Real::Finite(false, k),
        k <= double::one(),
        2 * (w * k) <= (2 * max_w + 1) * double::one(),
        2 * (h * k) <= (2 * max_h + 1) * double::one(),
        k == double::nearest(max_w * double::one(), w) || k == double::nearest(
            max_h * double::one(),
            h,
        ),
{
    reveal(fit_scale);
    let a = double::lemma_whole_quotient(max_w, w);
    let b = double::lemma_whole_quotient(max_h, h);
    let k = if b < a {
        b
    } else {
        a
    };
    assert(w * k <= w * a) by (nonlinear_arith)
        requires
            k <= a,
    ;
    assert(h * k <= h * b) by (nonlinear_arith)
        requires
            k <= b,
    ;
    k
}

/// Fitting a picture never enlarges it, never loses a side, and stays inside
/// the box (which counts as one pixel wide or high where it is empty).
pub proof fn law_fit(w: nat, h: nat, max_w: nat, max_h: nat)
    requires
        0 < w <= u32::MAX,
        0 < h <= u32::MAX,
        max_w <= u32::MAX,
        max_h <= u32::MAX,
    ensures
        1 <= fit(w, h, max_w, max_h).0 <= w,
        1 <= fit(w, h, max_w, max_h).1 <= h,
        fit(w, h, max_w, max_h).0 <= at_least(max_w as int, 1),
        fit(w, h, max_w, max_h).1 <= at_least(max_h as int, 1),
{
    if max_w < w || max_h < h {
        let k = lemma_fit_scale(w, h, max_w, max_h);
        lemma_scaled_within(w, k);
        lemma_scaled_within(h, k);
        double::lemma_scaled_at_most(w, k, max_w, u32::MAX as nat);
        double::lemma_scaled_at_most(h, k, max_h, u32::MAX as nat);
    }
}

/// Fitting a picture keeps its aspect to within a pixel: neither side is more
/// than a pixel longer than the other side asks for. (A side that is down to a
/// single pixel may stand for less than one, and in pictures of `2^52` pixels
/// the rounding may come to a pixel of its own.)
pub proof fn law_fit_keeps_the_aspect(w: nat, h: nat, max_w: nat, max_h: nat)
    requires
        0 < w <= u32::MAX,
        0 < h <= u32::MAX,
        w * h < 0x10_0000_0000_0000,
        max_w <= u32::MAX,
        max_h <= u32::MAX,
    ensures
        ({
            let (a, b) = fit(w, h, max_w, max_h);
            &&& a > 1 ==> a * h <= (b + 1) * w
            &&& b > 1 ==> b * w <= (a + 1) * h
        }),
{
    let (a, b) = fit(w, h, max_w, max_h);
    if max_w < w || max_h < h {
        let k = lemma_fit_scale(w, h, max_w, max_h);
        let x = double::lemma_scaled_near(w, k, u32::MAX as nat);
        let y = double::lemma_scaled_near(h, k, u32::MAX as nat);
        let s = Real::Finite(false, k);
        let f = double::whole_part(double::product(double::whole(w), s), u32::MAX as nat);
        let g = double::whole_part(double::product(double::whole(h), s), u32::MAX as nat);
        assert(w * h == h * w) by (nonlinear_arith);
        lemma_sides_agree(w, h, k, x, y, f, g);
        lemma_sides_agree(h, w, k, y, x, g, f);
        if f < 1 || g < 1 {
            assert((g + 1) * w <= (b + 1) * w) by (nonlinear_arith)
                requires
                    g <= b,
            ;
            assert((f + 1) * h <= (a + 1) * h) by (nonlinear_arith)
                requires
                    f <= a,
            ;
        }
    } else {
        assert(w * h <= (h + 1) * w && h * w <= (w + 1) * h) by (nonlinear_arith);
    }
}

/// A picture that has to be fitted is not made smaller than it must be: one of
/// its sides comes within a pixel of the box.
pub proof fn law_fit_fills_the_box(w: nat, h: nat, max_w: nat, max_h: nat)
    requires
        0 < w <= u32::MAX,
        0 < h <= u32::MAX,
        max_w <= u32::MAX,
        max_h <= u32::MAX,
        max_w < w || max_h < h,
    ensures
        fit(w, h, max_w, max_h).0 >= max_w - 1 || fit(w, h, max_w, max_h).1 >= max_h - 1,
{
    let k = lemma_fit_scale(w, h, max_w, max_h);
    if k == double::nearest(max_w * double::one(), w) {
        lemma_side_fills(w, max_w, k);
    } else {
        lemma_side_fills(h, max_h, k);
    }
}

/// A side of `n` pixels that is scaled to `m` loses less than a pixel to the
/// rounding.
proof fn lemma_side_fills(n: nat, m: nat, k: nat)
    requires
        0 < n <= u32::MAX,
        m <= u32::MAX,
        k == double::nearest(m * double::one(), n),
        k <= double::one(),
    ensures
        scaled(n, Real::Finite(false, k), 1) >= m - 1,
{
    if m > 1 {
        let o = double::one();
        lemma_one_is_huge();
        assert(m * o >= n * 0x10_0000_0000_0000) by (nonlinear_arith)
            requires
                m >= 1,
                o >= 0x4000_0000_0000_0000_0000_0000_0000_0000_0000,
                n <= 0xFFFF_FFFF,
        ;
        lemma_rounding(m * o, n);
        let x = double::lemma_scaled_near(n, k, u32::MAX as nat);
        let f = double::whole_part(
            double::product(double::whole(n), Real::Finite(false, k)),
            u32::MAX as nat,
        );
        let z = n * k;
        assert((m - 1) * o < x) by (nonlinear_arith)
            requires
                (m * o) * 0x1F_FFFF_FFFF_FFFF <= z * 0x20_0000_0000_0000,
                0x1F_FFFF_FFFF_FFFF * z <= 0x20_0000_0000_0000 * x,
                1 < m <= 0xFFFF_FFFF,
                o > 0,
        ;
        assert(m - 1 < f + 1) by (nonlinear_arith)
            requires
                (m - 1) * o < x,
                x < (f + 1) * o,
                o > 0,
        ;
    }
}

/// A fraction of many units is rounded by no more than one part in `2^53`.
pub proof fn lemma_rounding(num: nat, den: nat)
    requires
        den > 0,
        num >= den * 0x10_0000_0000_0000,
    ensures
        den * double::nearest(num, den) * 0x20_0000_0000_0000 <= num * 0x20_0000_0000_0001,
        num * 0x1F_FFFF_FFFF_FFFF <= den * double::nearest(num, den) * 0x20_0000_0000_0000,
{
    let y = double::nearest(num, den);
    let step = vstd::arithmetic::power2::pow2(double::excess(num / den));
    double::lemma_nearest_error(num, den);
    double::lemma_step_small(num, den);
    assert(den * step * 0x10_0000_0000_0000 <= num);
    let (x, z) = (den * y, den * step);
    assert(x * 0x20_0000_0000_0000 <= num * 0x20_0000_0000_0001);
}

/// Two sides of one picture, scaled alike, are at most a pixel apart from its
/// aspect.
pub proof fn lemma_sides_agree(w: nat, h: nat, k: nat, x: nat, y: nat, f: nat, g: nat)
    requires
        w * h < 0x10_0000_0000_0000,
        k <= double::one(),
        f * double::one() <= x,
        y < (g + 1) * double::one(),
        0x20_0000_0000_0000 * x <= 0x20_0000_0000_0001 * (w * k),
        0x1F_FFFF_FFFF_FFFF * (h * k) <= 0x20_0000_0000_0000 * y,
    ensures
        f * h <= (g + 1) * w,
{
    let o = double::one();
    vstd::arithmetic::power2::lemma_pow2_pos(1074);
    let u = w * h * k;
    assert(0x20_0000_0000_0000 * (h * x) <= 0x20_0000_0000_0001 * u) by (nonlinear_arith)
        requires
            0x20_0000_0000_0000 * x <= 0x20_0000_0000_0001 * (w * k),
            u == w * h * k,
    ;
    assert(0x1F_FFFF_FFFF_FFFF * u <= 0x20_0000_0000_0000 * (w * y)) by (nonlinear_arith)
        requires
            0x1F_FFFF_FFFF_FFFF * (h * k) <= 0x20_0000_0000_0000 * y,
            u == w * h * k,
    ;
    assert(u <= 0xF_FFFF_FFFF_FFFF * o) by (nonlinear_arith)
        requires
            u == w * h * k,
            w * h <= 0xF_FFFF_FFFF_FFFF,
            k <= o,
    ;
    let (c, d) = (h * x, w * y);
    assert(c - d < o) by (nonlinear_arith)
        requires
            0x20_0000_0000_0000 * c <= 0x20_0000_0000_0001 * u,
            0x1F_FFFF_FFFF_FFFF * u <= 0x20_0000_0000_0000 * d,
            u <= 0xF_FFFF_FFFF_FFFF * o,
            o > 0,
    ;
    let (p, q) = (f * h, (g + 1) * w);
    assert(p * o <= h * x) by (nonlinear_arith)
        requires
            f * o <= x,
            p == f * h,
    ;
    assert(w * y <= q * o) by (nonlinear_arith)
        requires
            y < (g + 1) * o,
            q == (g + 1) * w,
    ;
    assert(p <= q) by (nonlinear_arith)
        requires
            p * o <= h * x,
            w * y <= q * o,
            h * x - w * y < o,
            o > 0,
    ;
}

/// A scale of at most one does not enlarge.
proof fn lemma_scaled_within(n: nat, k: nat)
    requires
        n <= u32::MAX,
        k <= double::one(),
    ensures
        double::whole_part(
            double::product(double::whole(n), Real::Finite(false, k)),
            u32::MAX as nat,
        ) <= n,
{
    assert(2 * (n * k) <= (2 * n + 1) * double::one()) by (nonlinear_arith)
        requires
            k <= double::one(),
    ;
    double::lemma_scaled_at_most(n, k, n, u32::MAX as nat);
}

/// A crop cuts nothing off one of the sides, and gives the other the most
/// whole pixels that the aspect allows (but never none).
pub proof fn law_crop(w: nat, h: nat, aw: nat, ah: nat)
    requires
        0 < w,
        0 < h,
        0 < aw,
        0 < ah,
    ensures
        ({
            let (cw, ch) = crop(w, h, aw, ah);
            &&& 1 <= cw <= w
            &&& 1 <= ch <= h
            &&& h * aw < (w + 1) * ah ==> ch == h && (h * aw >= ah ==> cw * ah <= h * aw < (cw + 1)
                * ah)
            &&& h * aw >= (w + 1) * ah ==> cw == w && (w * ah >= aw ==> ch * aw <= w * ah < (ch + 1)
                * aw)
        }),
{
    vstd::arithmetic::div_mod::lemma_fundamental_div_mod((h * aw) as int, ah as int);
    vstd::arithmetic::div_mod::lemma_fundamental_div_mod((w * ah) as int, aw as int);
    let (q, p) = (h * aw / ah, w * ah / aw);
    assert(q * ah <= h * aw < (q + 1) * ah) by (nonlinear_arith)
        requires
            h * aw == ah * q + (h * aw) % ah,
            0 <= (h * aw) % ah < ah,
    ;
    assert(p * aw <= w * ah < (p + 1) * aw) by (nonlinear_arith)
        requires
            w * ah == aw * p + (w * ah) % aw,
            0 <= (w * ah) % aw < aw,
    ;
    if q == 0 {
        assert(h * aw < ah) by (nonlinear_arith)
            requires
                h * aw < (q + 1) * ah,
                q == 0,
        ;
    }
    if p == 0 {
        assert(w * ah < aw) by (nonlinear_arith)
            requires
                w * ah < (p + 1) * aw,
                p == 0,
        ;
    }
    if q > w {
        lemma_crop_shorter(w, h, aw, ah);
        assert(h * aw >= (w + 1) * ah) by (nonlinear_arith)
            requires
                q * ah <= h * aw,
                q >= w + 1,
                ah > 0,
        ;
    } else {
        assert(h * aw < (w + 1) * ah) by (nonlinear_arith)
            requires
                h * aw < (q + 1) * ah,
                q <= w,
                ah > 0,
        ;
    }
}

/// A shrunk side is no longer than it was, where the bitrate falls short.
proof fn lemma_shrunk_within(n: int, kbps: int, needed: Real)
    requires
        2 <= n <= u32::MAX,
        n % 2 == 0,
        0 <= kbps <= i64::MAX,
        double::less(double::whole(kbps as nat), needed),
    ensures
        2 <= shrunk_side(n, kbps, needed) <= n,
        shrunk_side(n, kbps, needed) % 2 == 0,
{
    reveal(shrunk_side);
    let k = double::lemma_shrink_at_most_one(kbps as nat, needed);
    lemma_scaled_within(n as nat, k);
}

/// What a plan puts out is even on both sides, lies inside the source as
/// displayed and inside the box that the settings give (no side of either
/// counting for less than two pixels): a plan never enlarges.
pub proof fn law_output_fits(info: MediaInfo, s: Settings)
    ensures
        ({
            let p = planned(info, s);
            &&& p.out_w as int == output_size(info, s).0
            &&& p.out_h as int == output_size(info, s).1
            &&& p.out_w % 2 == 0 && p.out_h % 2 == 0
            &&& 2 <= p.out_w <= source(info).0
            &&& 2 <= p.out_h <= source(info).1
            &&& p.out_w <= at_least(s.max_width as int, 2)
            &&& p.out_h <= at_least(s.max_height as int, 2)
        }),
{
    lemma_boxed_within(info, s);
    let (bw, bh) = boxed(info, s);
    if has_budget(info, s) {
        let (mb, dur, keep) = (s.max_mb->0@, info.duration_s@, keeps_audio(info, s));
        lemma_budget_range(mb, dur, keep);
        lemma_affordable_within(bw, bh, budget_kbps(mb, dur, keep), reckoned_fps(info, s));
    }
}

/// What the budget affords is no larger than what is asked for.
pub proof fn lemma_affordable_within(w: int, h: int, kbps: int, fps: Real)
    requires
        2 <= w <= u32::MAX,
        2 <= h <= u32::MAX,
        w % 2 == 0,
        h % 2 == 0,
        0 <= kbps <= i64::MAX,
    ensures
        2 <= affordable(w, h, kbps, fps).0 <= w,
        2 <= affordable(w, h, kbps, fps).1 <= h,
        affordable(w, h, kbps, fps).0 % 2 == 0,
        affordable(w, h, kbps, fps).1 % 2 == 0,
{
    let needed = pixel_kbps(w, h, fps, min_bits_per_pixel());
    if double::less(double::whole(kbps as nat), needed) {
        lemma_shrunk_within(w, kbps, needed);
        lemma_shrunk_within(h, kbps, needed);
    }
}

/// The bitrate of a budget is one that the machine holds.
pub proof fn lemma_budget_range(mb: Real, duration: Real, keep: bool)
    ensures
        MIN_VIDEO_KBPS <= budget_kbps(mb, duration, keep) <= i64::MAX,
{
    reveal(budget_kbps);
    let bits = double::sum(budget_bits(mb), double::negated(audio_bits(duration, keep)));
    lemma_floor_bounded(double::quotient(double::quotient(bits, duration), double::whole(1000)));
}

/// The size inside the box is even and inside the source.
pub proof fn lemma_boxed_within(info: MediaInfo, s: Settings)
    ensures
        ({
            let (w, h) = boxed(info, s);
            &&& w % 2 == 0 && h % 2 == 0
            &&& 2 <= w <= source(info).0
            &&& 2 <= h <= source(info).1
            &&& w <= at_least(s.max_width as int, 2)
            &&& h <= at_least(s.max_height as int, 2)
        }),
{
    let (cw, ch) = cropped(info, s.ratio);
    lemma_cropped_within(info, s.ratio);
    let (mw, mh) = (at_least(s.max_width as int, 2), at_least(s.max_height as int, 2));
    law_fit(cw as nat, ch as nat, mw as nat, mh as nat);
}

/// A number, rounded to a whole one, is one that the machine holds.
proof fn lemma_floor_bounded(v: Real)
    ensures
        i64::MIN <= double::floor(v) <= i64::MAX,
        i64::MIN <= double::ceil(v) <= i64::MAX,
{
}

/// A crop to an aspect lies inside the source.
pub proof fn lemma_cropped_within(info: MediaInfo, ratio: Ratio)
    ensures
        1 <= cropped(info, ratio).0 <= source(info).0,
        1 <= cropped(info, ratio).1 <= source(info).1,
        ratio is Original ==> cropped(info, ratio) == source(info),
{
    reveal(cropped);
    let (w, h) = source(info);
    match aspect(ratio) {
        Some((aw, ah)) => law_crop(w as nat, h as nat, aw as nat, ah as nat),
        None => {},
    }
}

/// The crop of a plan is even on both sides and lies inside the source; and
/// no plan crops where the aspect is to be kept.
pub proof fn law_crop_fits(info: MediaInfo, s: Settings)
    ensures
        planned(info, s).crop == planned_crop(info, s),
        s.ratio is Original ==> planned_crop(info, s) is None,
        planned_crop(info, s) matches Some((cw, ch)) ==> {
            &&& cw % 2 == 0 && ch % 2 == 0
            &&& 2 <= cw <= source(info).0
            &&& 2 <= ch <= source(info).1
        },
{
    lemma_cropped_within(info, s.ratio);
    lemma_planned_crop(info, s);
}

pub proof fn lemma_planned_crop(info: MediaInfo, s: Settings)
    ensures
        planned(info, s).crop == planned_crop(info, s),
{
}

/// The rate control of a plan: two passes exactly where there is a byte
/// budget and something to spend it on, and otherwise the quality asked for,
/// brought into the scale of the encoder.
pub proof fn law_rate_control(info: MediaInfo, s: Settings)
    ensures
        planned(info, s).rate == planned_rate(info, s),
        planned_rate(info, s) is TwoPass <==> has_budget(info, s),
        planned_rate(info, s) matches RateControl::Crf(q) ==> q <= 51 && (s.crf <= 51 ==> q
            == s.crf),
        planned_rate(info, s) matches RateControl::TwoPass { video_kbps } ==> (planned_kbps(info, s)
            <= u32::MAX ==> video_kbps == planned_kbps(info, s)),
        MIN_VIDEO_KBPS <= planned_kbps(info, s) <= i64::MAX,
{
    lemma_planned_rate(info, s);
    law_kbps_bounds(info, s);
}

proof fn lemma_planned_rate(info: MediaInfo, s: Settings)
    ensures
        planned(info, s).rate == planned_rate(info, s),
{
}

/// The bitrate of a plan is never below the minimum, nor above what fills the
/// budget, nor above what is visible.
pub proof fn law_kbps_bounds(info: MediaInfo, s: Settings)
    ensures
        MIN_VIDEO_KBPS <= planned_kbps(info, s) <= i64::MAX,
        planned_kbps(info, s) <= budget_kbps(
            s.max_mb->0@,
            info.duration_s@,
            keeps_audio(info, s),
        ),
        planned_kbps(info, s) <= ceiling_kbps(
            output_size(info, s).0,
            output_size(info, s).1,
            reckoned_fps(info, s),
        ),
{
    let (w, h) = output_size(info, s);
    lemma_budget_range(s.max_mb->0@, info.duration_s@, keeps_audio(info, s));
    lemma_ceiling_range(w, h, reckoned_fps(info, s));
}

proof fn lemma_ceiling_range(w: int, h: int, fps: Real)
    ensures
        MIN_VIDEO_KBPS <= ceiling_kbps(w, h, fps) <= i64::MAX,
{
    lemma_floor_bounded(pixel_kbps(w, h, fps, max_bits_per_pixel()));
}

/// A quotient of at least `2^54` units lies above the exact one by less than
/// one part in `2^53`.
pub proof fn lemma_quotient_excess(num: nat, den: nat)
    requires
        den > 0,
        double::nearest(num, den) >= 0x40_0000_0000_0000,
    ensures
        den * double::nearest(num, den) * 0x20_0000_0000_0000 <= num * 0x20_0000_0000_0001,
{
    let y = double::nearest(num, den);
    let step = vstd::arithmetic::power2::pow2(double::excess(num / den));
    double::lemma_nearest_error(num, den);
    double::lemma_step_small(num, den);
    assert(den * step * 0x10_0000_0000_0000 <= num) by {
        if step == 1 {
            assert(den * 0x40_0000_0000_0000 <= den * y) by (nonlinear_arith)
                requires
                    y >= 0x40_0000_0000_0000,
            ;
        }
    }
    assert(den * y * 0x20_0000_0000_0000 <= num * 0x20_0000_0000_0001) by (nonlinear_arith)
        requires
            2 * (den * y) <= 2 * num + den * step,
            den * step * 0x10_0000_0000_0000 <= num,
    ;
}

/// A bitrate above nothing, made of `x` bits over a duration of `d`, does not
/// exceed them but for rounding.
pub proof fn lemma_budget_rounding(x: nat, d: nat, v: int)
    requires
        d > 0,
        v > 0,
        v == double::floor(
            double::quotient(
                double::quotient(Real::Finite(false, x), Real::Finite(false, d)),
                double::whole(1000),
            ),
        ),
    ensures
        (v * 1000) * d * 0x8_0000_0000_0000 <= x * 0x8_0000_0000_0001,
{
    let o = double::one();
    let y = double::nearest(x * o, d);
    let z = double::nearest(y, 1000);
    double::lemma_whole_exact(1000);
    lemma_one_is_large();
    double::lemma_nearest_scaled(y, 1000, o);
    assert(y * o == o * y && o * 1000 == 1000 * o) by (nonlinear_arith);
    // Past the range of numbers the bitrate is the greatest whole number,
    // which is little beside what was cut off.
    assert((v * 1000) * o * 0x20_0000_0000_0000 <= y * 0x20_0000_0000_0001) by {
        if y < double::overflow() {
            assert(v * o <= z) by {
                if z < double::overflow() {
                    vstd::arithmetic::div_mod::lemma_fundamental_div_mod(z as int, o as int);
                    assert(v * o <= z) by (nonlinear_arith)
                        requires
                            v <= z / o,
                            z == o * (z / o) + z % o,
                            z % o >= 0,
                            o > 0,
                    ;
                } else {
                    assert(v * o <= i64::MAX * o) by (nonlinear_arith)
                        requires
                            v <= i64::MAX,
                            o > 0,
                    ;
                }
            }
            assert(v * o >= o) by (nonlinear_arith)
                requires
                    v >= 1,
                    o > 0,
            ;
            lemma_quotient_excess(y, 1000);
            assert((v * 1000) * o * 0x20_0000_0000_0000 <= 1000 * z * 0x20_0000_0000_0000)
                by (nonlinear_arith)
                requires
                    v * o <= z,
            ;
        } else {
            assert((v * 1000) * o <= y) by (nonlinear_arith)
                requires
                    v <= 0x7FFF_FFFF_FFFF_FFFF,
                    y >= 0x200_0000_0000_0000_0000 * o,
                    o > 0,
            ;
        }
    }
    assert(y >= o) by (nonlinear_arith)
        requires
            (v * 1000) * o * 0x20_0000_0000_0000 <= y * 0x20_0000_0000_0001,
            v >= 1,
            o > 0,
    ;
    lemma_quotient_excess(x * o, d);
    let t: int = 0x20_0000_0000_0000;
    assert(((v * 1000) * d * 0x8_0000_0000_0000) * o <= (x * 0x8_0000_0000_0001) * o) by {
        let (a, b, c) = ((v * 1000) * o, y as int, (x * o) as int);
        assert(d * (a * t) <= d * (b * (t + 1))) by (nonlinear_arith)
            requires
                a * t <= b * (t + 1),
                d > 0,
        ;
        assert(((v * 1000) * d) * o * t * t <= c * (t + 1) * (t + 1)) by (nonlinear_arith)
            requires
                d * (a * t) <= d * (b * (t + 1)),
                d * b * t <= c * (t + 1),
                a == (v * 1000) * o,
                t > 0,
        ;
        assert(((v * 1000) * d * 0x8_0000_0000_0000) * o <= (x * 0x8_0000_0000_0001) * o)
            by (nonlinear_arith)
            requires
                ((v * 1000) * d) * o * t * t <= c * (t + 1) * (t + 1),
                t == 0x20_0000_0000_0000,
                c == x * o,
                c >= 0,
        ;
    }
    assert((v * 1000) * d * 0x8_0000_0000_0000 <= x * 0x8_0000_0000_0001) by (nonlinear_arith)
        requires
            ((v * 1000) * d * 0x8_0000_0000_0000) * o <= (x * 0x8_0000_0000_0001) * o,
            o > 0,
    ;
}

/// One is many units, and what is past the range of numbers is many times
/// more.
proof fn lemma_one_is_large()
    ensures
        double::one() >= 0x40_0000_0000_0000,
        double::overflow() >= 0x200_0000_0000_0000_0000 * double::one(),
{
    vstd::arithmetic::power2::lemma2_to64_rest();
    vstd::arithmetic::power2::lemma_pow2_strictly_increases(54, 1074);
    vstd::arithmetic::power2::lemma_pow2_adds(73, 1074);
    vstd::arithmetic::power2::lemma_pow2_adds(64, 9);
    vstd::arithmetic::power2::lemma2_to64();
    vstd::arithmetic::power2::lemma_pow2_strictly_increases(1147, 2098);
}

/// The byte cap is kept, as far as the video goes: wherever the bitrate is
/// above the minimum, the bits that it makes over the whole duration stay
/// within the bits that the cap leaves to the video, but for a rounding of
/// less than one part in `2^51`. (`x` and `d` are those bits and the
/// duration, in the unit of `Real`.)
pub proof fn law_budget_is_kept(info: MediaInfo, s: Settings, x: nat, d: nat)
    requires
        has_budget(info, s),
        info.duration_s@ == Real::Finite(false, d),
        double::sum(
            budget_bits(s.max_mb->0@),
            double::negated(audio_bits(info.duration_s@, keeps_audio(info, s))),
        ) == Real::Finite(false, x),
        planned_kbps(info, s) > MIN_VIDEO_KBPS,
    ensures
        (planned_kbps(info, s) * 1000) * d * 0x8_0000_0000_0000 <= x * 0x8_0000_0000_0001,
{
    reveal(budget_kbps);
    let o = double::one();
    let bits = Real::Finite(false, x);
    let dur = info.duration_s@;
    let v = budget_kbps(s.max_mb->0@, dur, keeps_audio(info, s));
    double::lemma_whole_exact(1000);
    vstd::arithmetic::power2::lemma_pow2_pos(1074);
    assert(d > 0);
    let q1 = double::quotient(bits, dur);
    let q2 = double::quotient(q1, double::whole(1000));
    assert(v == double::floor(q2));
    lemma_budget_rounding(x, d, v);
    let p = planned_kbps(info, s);
    assert((p * 1000) * d * 0x8_0000_0000_0000 <= (v * 1000) * d * 0x8_0000_0000_0000)
        by (nonlinear_arith)
        requires
            0 <= p <= v,
            d >= 0,
    ;
}

/// A better slider position never gives a worse encoder quality, and the two
/// ends of the slider are the two ends of the encoder's scale.
pub proof fn law_jpeg_q_monotone(a: u8, b: u8)
    requires
        a <= b,
    ensures
        jpeg_q(b) <= jpeg_q(a),
        2 <= jpeg_q(a) <= 31,
        jpeg_q(100) == 2,
        jpeg_q(1) == 31,
{
}

/// The ladder goes from the best quality down: up the scale of mjpeg and
/// down that of libwebp, each step a worse one and all inside the scale.
pub proof fn law_ladder_goes_down(format: ImageFormat, i: int, j: int)
    requires
        0 <= i < j < ladder(format).len(),
    ensures
        format is Webp ==> ladder(format)[j] < ladder(format)[i] <= 100,
        !(format is Webp) ==> 2 <= ladder(format)[i] < ladder(format)[j] <= 31,
{
}

/// The frame rate is only ever lowered, to the cap; and the audio goes exactly
/// where there is none or it is unwanted.
pub proof fn law_fps_and_audio(info: MediaInfo, s: Settings)
    ensures
        planned(info, s).fps matches Some(f) ==> s.fps_cap == Some(f) && double::less(
            f@,
            info.fps@,
        ),
        planned(info, s).audio_kbps is Some <==> info.has_audio && !s.strip_audio,
{
    lemma_hundredth();
    let hundredth = double::nearest(double::one(), 100);
    double::lemma_sum_not_less(info.fps, hundredth);
    double::lemma_sum_not_less(capped_fps(info, s), hundredth);
}

/// A hundredth is a finite number.
pub proof fn lemma_hundredth()
    ensures
        double::literal(1, 100) == Real::Finite(false, double::nearest(double::one(), 100)),
{
    let o = double::one();
    lemma_one_is_large();
    assert(1 * vstd::arithmetic::power2::pow2(1074) == o);
    double::lemma_nearest_at_most(o, 100, 1, 1074);
}

/// Products of what is ordered are ordered.
pub proof fn lemma_products_ordered(a: nat, b: nat, c: nat, d: nat)
    requires
        a <= b,
        c <= d,
    ensures
        a * c <= b * d,
{
    assert(a * c <= b * d) by (nonlinear_arith)
        requires
            a <= b,
            c <= d,
    ;
}

/// A common factor does not change an order.
pub proof fn lemma_factor_dropped(a: nat, b: nat, f: nat)
    requires
        f > 0,
        f * a <= f * b,
    ensures
        a <= b,
{
    assert(a <= b) by (nonlinear_arith)
        requires
            f > 0,
            f * a <= f * b,
    ;
}

/// Each factor of a shrunk frame, rounded as it is, and what they come to.
proof fn lemma_shrunk_chain(
    a: nat,
    b: nat,
    w: nat,
    h: nat,
    scale: nat,
    num: nat,
    q: nat,
    k: nat,
    n: nat,
    o: nat,
    t: nat,
    s: nat,
)
    requires
        o > 0,
        t == 0x20_0000_0000_0000,
        s == 0x400_0000_0000_0000,
        a * o * t <= w * scale * (t + 1),
        b * o * t <= h * scale * (t + 1),
        2 * scale * t <= num * (t + 1),
        num * num * s <= 4 * (q * o) * (s + 1),
        n * q * t <= k * o * (t + 1),
    ensures
        a * b * n * 0x4_0000_0000_0000 <= w * h * k * 0x4_0000_0000_0001,
{
    let (ab, wh, u) = (a * b, w * h, t + 1);
    let (tt, uu) = (t * t, u * u);
    let (t4, u4) = (tt * tt, uu * uu);
    let (oo, cc, mm) = (o * o, scale * scale, num * num);
    lemma_products_ordered(a * o * t, w * scale * u, b * o * t, h * scale * u);
    assert((a * o * t) * (b * o * t) == ab * oo * tt) by (nonlinear_arith)
        requires
            ab == a * b,
            oo == o * o,
            tt == t * t,
    ;
    assert((w * scale * u) * (h * scale * u) == wh * cc * uu) by (nonlinear_arith)
        requires
            wh == w * h,
            cc == scale * scale,
            uu == u * u,
    ;
    lemma_products_ordered(2 * scale * t, num * u, 2 * scale * t, num * u);
    assert((2 * scale * t) * (2 * scale * t) == 4 * cc * tt) by (nonlinear_arith)
        requires
            cc == scale * scale,
            tt == t * t,
    ;
    assert((num * u) * (num * u) == mm * uu) by (nonlinear_arith)
        requires
            mm == num * num,
            uu == u * u,
    ;
    // From the sides to the scale, and from the scale to its square.
    let first = ab * oo * tt;
    lemma_products_ordered(first, wh * cc * uu, 4 * tt, 4 * tt);
    lemma_products_ordered(wh * uu, wh * uu, 4 * cc * tt, mm * uu);
    assert((wh * cc * uu) * (4 * tt) == (wh * uu) * (4 * cc * tt)) by (nonlinear_arith);
    assert(first * (4 * tt) == 4 * (ab * oo) * t4) by (nonlinear_arith)
        requires
            first == ab * oo * tt,
            t4 == tt * tt,
    ;
    assert((wh * uu) * (mm * uu) == (wh * u4) * mm) by (nonlinear_arith)
        requires
            u4 == uu * uu,
    ;
    // From the square of the scale to the ratio.
    lemma_products_ordered(4 * (ab * oo) * t4, (wh * u4) * mm, s, s);
    lemma_products_ordered(wh * u4, wh * u4, mm * s, 4 * (q * o) * (s + 1));
    assert(((wh * u4) * mm) * s == (wh * u4) * (mm * s)) by (nonlinear_arith);
    assert((4 * (ab * oo) * t4) * s == (4 * o) * ((ab * o) * t4 * s)) by (nonlinear_arith)
        requires
            oo == o * o,
    ;
    assert((wh * u4) * (4 * (q * o) * (s + 1)) == (4 * o) * (wh * u4 * q * (s + 1)))
        by (nonlinear_arith);
    lemma_factor_dropped((ab * o) * t4 * s, wh * u4 * q * (s + 1), 4 * o);
    // From the ratio to the bitrates.
    lemma_products_ordered((ab * o) * t4 * s, wh * u4 * q * (s + 1), n * t, n * t);
    lemma_products_ordered(wh * u4 * (s + 1), wh * u4 * (s + 1), n * q * t, k * o * u);
    assert((wh * u4 * q * (s + 1)) * (n * t) == (wh * u4 * (s + 1)) * (n * q * t))
        by (nonlinear_arith);
    assert(((ab * o) * t4 * s) * (n * t) == o * ((ab * n) * (t4 * t * s))) by (nonlinear_arith);
    assert((wh * u4 * (s + 1)) * (k * o * u) == o * ((wh * k) * (u4 * u * (s + 1))))
        by (nonlinear_arith);
    lemma_factor_dropped((ab * n) * (t4 * t * s), (wh * k) * (u4 * u * (s + 1)), o);
    let (c, d) = (t4 * t * s, u4 * u * (s + 1));
    assert(d * 0x4_0000_0000_0000 <= c * 0x4_0000_0000_0001 && c > 0) by (nonlinear_arith)
        requires
            c == ((t * t) * (t * t)) * t * s,
            d == ((u * u) * (u * u)) * u * (s + 1),
            t == 0x20_0000_0000_0000,
            u == 0x20_0000_0000_0001,
            s == 0x400_0000_0000_0000,
    ;
    assert((ab * n) * 0x4_0000_0000_0000 <= (wh * k) * 0x4_0000_0000_0001) by (nonlinear_arith)
        requires
            (ab * n) * c <= (wh * k) * d,
            d * 0x4_0000_0000_0000 <= c * 0x4_0000_0000_0001,
            c > 0,
            ab >= 0,
            n >= 0,
            wh >= 0,
            k >= 0,
    ;
}

/// Where the bitrate is too thin for a frame, the frame that is left is one
/// that it covers: `a * b` pixels need no more than the bitrate where `w * h`
/// need `n`, but for a rounding of less than one part in `2^50`. (`k` is the
/// bitrate and `n` what the frame needs, in the unit of `Real`; a side of two
/// pixels is never shrunk further.)
pub proof fn law_shrunk_frame_is_covered(w: int, h: int, kbps: int, k: nat, n: nat)
    requires
        2 <= w <= u32::MAX,
        2 <= h <= u32::MAX,
        0 <= kbps <= i64::MAX,
        double::whole(kbps as nat) == Real::Finite(false, k),
        k < n,
        shrunk_side(w, kbps, Real::Finite(false, n)) > 2,
        shrunk_side(h, kbps, Real::Finite(false, n)) > 2,
    ensures
        ({
            let a = shrunk_side(w, kbps, Real::Finite(false, n));
            let b = shrunk_side(h, kbps, Real::Finite(false, n));
            a * b * n * 0x4_0000_0000_0000 <= w * h * k * 0x4_0000_0000_0001
        }),
{
    reveal(shrunk_side);
    let o = double::one();
    let t: nat = 0x20_0000_0000_0000;
    let s: nat = 0x400_0000_0000_0000;
    let needed = Real::Finite(false, n);
    let (a, b) = (shrunk_side(w, kbps, needed), shrunk_side(h, kbps, needed));
    let scale = double::lemma_shrink_at_most_one(kbps as nat, needed);
    let q = double::nearest(k * o, n);
    lemma_ratio_in_range(k, n);
    lemma_one_is_huge();
    lemma_scaled_rounding(w as nat, scale, a as nat);
    lemma_scaled_rounding(h as nat, scale, b as nat);
    assert(scale * 0x2_0000_0000 >= o) by {
        lemma_products_ordered(3, a as nat, o * t, o * t);
        assert(a as nat * (o * t) == a as nat * o * t) by (nonlinear_arith);
        lemma_products_ordered(w as nat, 0x1_0000_0000, scale * (t + 1), scale * (t + 1));
        assert(w as nat * (scale * (t + 1)) == w as nat * scale * (t + 1)) by (nonlinear_arith);
        lemma_products_ordered(scale, scale, t + 1, 2 * t);
        assert(0x1_0000_0000 * (scale * (2 * t)) == t * (scale * 0x2_0000_0000))
            by (nonlinear_arith);
        assert(3 * (o * t) == t * (3 * o)) by (nonlinear_arith);
        lemma_factor_dropped(3 * o, scale * 0x2_0000_0000, t);
    }
    assert(scale > 0x400_0000_0000_0000_0000);
    let r = double::lemma_root_exists(q * o);
    let num: nat = if r * r == q * o {
        2 * r
    } else {
        2 * r + 1
    };
    assert(q > 0);
    assert(scale == double::nearest(num, 2));
    lemma_quotient_excess(num, 2);
    assert(scale <= num) by (nonlinear_arith)
        requires
            2 * scale * t <= num * (t + 1),
            t == 0x20_0000_0000_0000,
    ;
    assert(r * 4 >= scale);
    assert(num * num * s <= 4 * (q * o) * (s + 1)) by {
        if r * r == q * o {
            assert((2 * r) * (2 * r) * s <= 4 * (r * r) * (s + 1)) by (nonlinear_arith)
                requires
                    r >= 0,
                    s >= 0,
            ;
        } else {
            let x = q * o;
            assert((2 * r + 1) * (2 * r + 1) * s <= 4 * x * (s + 1)) by (nonlinear_arith)
                requires
                    r * r <= x,
                    r >= 2 * s,
                    s >= 1,
            ;
        }
    }
    assert(q * 0x40_0000_0000_0000_0000 >= o) by {
        let z = r * 0x8_0000_0000;
        lemma_products_ordered(o, z, o, z);
        assert(z * z == (r * r) * 0x40_0000_0000_0000_0000) by (nonlinear_arith)
            requires
                z == r * 0x8_0000_0000,
        ;
        assert((q * o) * 0x40_0000_0000_0000_0000 == o * (q * 0x40_0000_0000_0000_0000))
            by (nonlinear_arith);
        lemma_factor_dropped(o, q * 0x40_0000_0000_0000_0000, o);
    }
    lemma_quotient_excess(k * o, n);
    lemma_shrunk_chain(a as nat, b as nat, w as nat, h as nat, scale, num, q, k, n, o, t, s);
    assert(a as nat * b as nat == a * b && w as nat * h as nat == w * h) by (nonlinear_arith)
        requires
            a >= 0,
            b >= 0,
            w >= 0,
            h >= 0,
    ;
}

/// The ratio of a number to a greater one is finite.
pub proof fn lemma_ratio_in_range(k: nat, n: nat)
    requires
        k < n,
    ensures
        double::quotient(Real::Finite(false, k), Real::Finite(false, n)) == Real::Finite(
            false,
            double::nearest(k * double::one(), n),
        ),
{
    let o = double::one();
    assert(k * o <= n * (1 * vstd::arithmetic::power2::pow2(1074))) by (nonlinear_arith)
        requires
            k <= n,
            o == vstd::arithmetic::power2::pow2(1074),
    ;
    lemma_one_is_large();
    double::lemma_nearest_at_most(k * o, n, 1, 1074);
}

/// A side that was scaled to more than two pixels, by no more than its scale
/// but for rounding.
proof fn lemma_scaled_rounding(n: nat, scale: nat, a: nat)
    requires
        n <= u32::MAX,
        a > 2,
        a == evened(scaled(n, Real::Finite(false, scale), 2)),
        scale <= double::one(),
    ensures
        a * double::one() * 0x20_0000_0000_0000 <= n * scale * 0x20_0000_0000_0001,
{
    let o = double::one();
    lemma_one_is_huge();
    double::lemma_whole_exact(n);
    double::lemma_nearest_scaled(n * scale, 1, o);
    assert((n * o) * scale == o * (n * scale)) by (nonlinear_arith);
    assert(o * 1 == o);
    let p = double::nearest(n * scale, 1);
    assert(double::product(double::whole(n), Real::Finite(false, scale)) == double::finite(
        false,
        p,
    ));
    assert(n * scale <= 1 * (n * vstd::arithmetic::power2::pow2(1074))) by (nonlinear_arith)
        requires
            scale <= o,
            o == vstd::arithmetic::power2::pow2(1074),
    ;
    double::lemma_nearest_at_most(n * scale, 1, n, 1074);
    lemma_in_range(n);
    let whole = p / o;
    assert(a <= whole);
    vstd::arithmetic::div_mod::lemma_fundamental_div_mod(p as int, o as int);
    assert(a * o <= p) by (nonlinear_arith)
        requires
            a <= whole,
            p == o * whole + p % o,
            p % o >= 0,
            o > 0,
    ;
    assert(p >= 0x40_0000_0000_0000) by (nonlinear_arith)
        requires
            a * o <= p,
            a >= 1,
            o >= 0x40_0000_0000_0000,
    ;
    lemma_quotient_excess(n * scale, 1);
    assert(a * o * 0x20_0000_0000_0000 <= n * scale * 0x20_0000_0000_0001) by (nonlinear_arith)
        requires
            a * o <= p,
            1 * p * 0x20_0000_0000_0000 <= n * scale * 0x20_0000_0000_0001,
    ;
}

/// A whole number of 32 bits is in the range of numbers.
proof fn lemma_in_range(n: nat)
    requires
        n <= u32::MAX,
    ensures
        n * double::one() < double::overflow(),
{
    lemma_one_is_huge();
    assert(n * double::one() < 0x200_0000_0000_0000_0000 * double::one()) by (nonlinear_arith)
        requires
            n <= 0xFFFF_FFFF,
            double::one() > 0,
    ;
}

/// One is very many units.
pub proof fn lemma_one_is_huge()
    ensures
        double::one() >= 0x4000_0000_0000_0000_0000_0000_0000_0000_0000,
        double::overflow() >= 0x200_0000_0000_0000_0000 * double::one(),
{
    lemma_one_is_large();
    vstd::arithmetic::power2::lemma2_to64();
    vstd::arithmetic::power2::lemma2_to64_rest();
    vstd::arithmetic::power2::lemma_pow2_adds(64, 64);
    vstd::arithmetic::power2::lemma_pow2_adds(128, 14);
    vstd::arithmetic::power2::lemma_pow2_strictly_increases(142, 1074);
    assert(vstd::arithmetic::power2::pow2(142) == 0x1_0000_0000_0000_0000
        * 0x1_0000_0000_0000_0000 * 0x4000);
}

} // verus!
