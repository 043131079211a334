//! Animated turntables.
//!
//! Two sweeps, played back to back: first a full turn about the vertical
//! axis, then a full tumble about the horizontal one. Each sweep ends on the
//! pose it started from, and the last frame of the second sweep is the first
//! frame of the first, so the whole thing loops with no visible seam. The
//! duplicate closing frame of each sweep is dropped for exactly that reason --
//! leaving it in makes the animation hitch once per revolution.

use vstd::prelude::*;

use crate::iso::{mix, mixed, Image};

verus! {

/// How a turntable is swept.
#[derive(Debug, Clone, Copy, PartialEq, Eq, Structural)]
pub struct SpinOptions {
    /// Frames in the azimuth (vertical-axis) sweep.
    pub az_frames: usize,
    /// Frames in the elevation (tumble) sweep.
    pub el_frames: usize,
    /// Hundredths of a second per frame, which is the unit GIF stores.
    pub delay_cs: u16,
}

impl Default for SpinOptions {
    fn default() -> (r: Self)
        ensures
            r == (SpinOptions { az_frames: 48, el_frames: 48, delay_cs: 5 }),
    {
        SpinOptions { az_frames: 48, el_frames: 48, delay_cs: 5 }
    }
}

/// Which angle a sweep turns.
#[derive(Debug, Clone, Copy, PartialEq, Eq, Structural)]
pub enum Sweep {
    Azimuth,
    Elevation,
}

/// One pose of a turntable: `part` parts of `whole` of a full turn.
#[derive(Debug, Clone, Copy, PartialEq, Eq, Structural)]
pub struct Pose {
    pub sweep: Sweep,
    pub part: usize,
    pub whole: usize,
}

/// The poses of one sweep: from the start on, in equal steps, without the full
/// turn itself.
pub open spec fn sweep_poses(sweep: Sweep, whole: usize) -> Seq<Pose> {
    Seq::new(whole as nat, |i: int| Pose { sweep, part: i as usize, whole })
}

/// The poses of a full turntable, in order: as many as both sweeps have frames.
/// The closing duplicate of each sweep is omitted so playback loops seamlessly.
pub fn spin_poses(opts: &SpinOptions) -> (r: Vec<Pose>)
    ensures
        r@ == sweep_poses(Sweep::Azimuth, opts.az_frames) + sweep_poses(
            Sweep::Elevation,
            opts.el_frames,
        ),
{
    let ghost first = sweep_poses(Sweep::Azimuth, opts.az_frames);
    let ghost second = sweep_poses(Sweep::Elevation, opts.el_frames);
    let mut out: Vec<Pose> = Vec::new();
    let mut i: usize = 0;
    while i < opts.az_frames
        invariant
            i <= opts.az_frames,
            first == sweep_poses(Sweep::Azimuth, opts.az_frames),
            out@ == first.take(i as int),
        decreases opts.az_frames - i,
    {
        out.push(Pose { sweep: Sweep::Azimuth, part: i, whole: opts.az_frames });
        assert(out@ =~= first.take(i + 1));
        i += 1;
    }
    let mut k: usize = 0;
    assert(out@ =~= first + second.take(0));
    while k < opts.el_frames
        invariant
            k <= opts.el_frames,
            second == sweep_poses(Sweep::Elevation, opts.el_frames),
            out@ == first + second.take(k as int),
        decreases opts.el_frames - k,
    {
        out.push(Pose { sweep: Sweep::Elevation, part: k, whole: opts.el_frames });
        assert(out@ =~= first + second.take(k + 1));
        k += 1;
    }
    assert(second.take(k as int) =~= second);
    out
}

/// The colour that frames are flattened onto: the viewer's dark background.
pub const BACKDROP: [u8; 3] = [26, 27, 38];

/// One byte of a flattened frame: of an opaque pixel it stays, of another the
/// colours are composited and the alpha becomes full.
pub open spec fn flat_byte(px: Seq<u8>, i: int) -> u8 {
    let a = px[i - i % 4 + 3];
    if i % 4 == 3 {
        255
    } else if a == 255 {
        px[i]
    } else {
        mixed(
            px[i],
            if i % 4 == 0 {
                26
            } else if i % 4 == 1 {
                27
            } else {
                38
            },
            a,
        )
    }
}

/// A frame without transparency. GIF has no alpha channel, only one fully
/// transparent palette entry, so anything partly transparent has to be
/// composited first.
pub fn flatten(frame: &Image) -> (r: Vec<u8>)
    requires
        frame.well_formed(),
    ensures
        r@.len() == frame.px@.len(),
        forall|i: int| 0 <= i < frame.px@.len() ==> #[trigger] r@[i] == flat_byte(frame.px@, i),
{
    let mut out: Vec<u8> = Vec::new();
    let n: usize = frame.px.len();
    assert(n % 4 == 0);
    let mut i: usize = 0;
    while i < n
        invariant
            i <= n,
            n == frame.px@.len(),
            n % 4 == 0,
            i % 4 == 0,
            out@.len() == i,
            forall|k: int| 0 <= k < i ==> #[trigger] out@[k] == flat_byte(frame.px@, k),
        decreases n - i,
    {
        let r: u8 = frame.px[i];
        let g: u8 = frame.px[i + 1];
        let b: u8 = frame.px[i + 2];
        let a: u8 = frame.px[i + 3];
        if a == 255 {
            out.push(r);
            out.push(g);
            out.push(b);
        } else {
            out.push(mix(r, BACKDROP[0], a));
            out.push(mix(g, BACKDROP[1], a));
            out.push(mix(b, BACKDROP[2], a));
        }
        out.push(255);
        i += 4;
    }
    out
}

/// The size of the animation: that of its first frame. `None`: there is no
/// frame to write.
pub fn canvas_size(frames: &[Image]) -> (r: Option<(usize, usize)>)
    ensures
        r == (if frames@.len() == 0 {
            None
        } else {
            Some((frames@[0].w, frames@[0].h))
        }),
{
    if frames.len() == 0 {
        None
    } else {
        Some((frames[0].w, frames[0].h))
    }
}

/// A frame in at most 256 colours: its palette, three bytes a colour, and the
/// colour of each pixel.
pub struct Quantized {
    pub palette: Vec<u8>,
    pub indices: Vec<u8>,
    /// The colour that stands for no colour at all.
    pub transparent: Option<u8>,
}

/// The contents of such a frame.
#[verifier::ext_equal]
pub struct QuantizedView {
    pub palette: Seq<u8>,
    pub indices: Seq<u8>,
    pub transparent: Option<u8>,
}

impl View for Quantized {
    type V = QuantizedView;

    open spec fn view(&self) -> QuantizedView {
        QuantizedView {
            palette: self.palette@,
            indices: self.indices@,
            transparent: self.transparent,
        }
    }
}

/// The frame that `gif` makes of the pixels.
pub uninterp spec fn gif_frame(
    width: u16,
    height: u16,
    pixels: Seq<u8>,
    speed: i32,
) -> QuantizedView;

/// `gif::Frame::from_rgba_speed`: reduces pixels of four bytes each to at most
/// 256 colours. The choice of colours is named and not spelt out; there is one
/// index for each pixel, and no transparent colour where no pixel is fully
/// transparent. It panics on a number of bytes that does not fit the size, and
/// on a speed outside 1 to 30.
#[verifier::external_body]
fn from_rgba_speed(width: u16, height: u16, pixels: Vec<u8>, speed: i32) -> (r: Quantized)
    requires
        pixels@.len() == width as int * height as int * 4,
        1 <= speed <= 30,
    ensures
        r@ == gif_frame(width, height, pixels@, speed),
        r@.indices.len() == width as int * height as int,
        (forall|i: int| 0 <= i < pixels@.len() && i % 4 == 3 ==> #[trigger] pixels@[i] != 0)
            ==> r@.transparent is None,
{
    let mut pixels = pixels;
    let f = gif::Frame::from_rgba_speed(width, height, &mut pixels, speed);
    Quantized {
        palette: f.palette.unwrap_or_default(),
        indices: f.buffer.into_owned(),
        transparent: f.transparent,
    }
}

/// How hard the colours of a frame are worked out: a good compromise between
/// speed and quality.
pub const QUANTIZE_SPEED: i32 = 10;

/// A frame made ready for the animation: flattened, then quantised on its own.
/// A shared palette would be tidier, but the shading ramp shifts as the part
/// turns and a fixed palette bands badly on the large flat faces these renders
/// are mostly made of.
pub fn quantize(frame: &Image) -> (r: Quantized)
    requires
        frame.well_formed(),
        frame.w <= u16::MAX,
        frame.h <= u16::MAX,
    ensures
        r@ == gif_frame(
            frame.w as u16,
            frame.h as u16,
            Seq::new(frame.px@.len(), |i: int| flat_byte(frame.px@, i)),
            QUANTIZE_SPEED,
        ),
        r@.indices.len() == frame.w * frame.h,
        r@.transparent is None,
{
    let pixels = flatten(frame);
    assert(pixels@ =~= Seq::new(frame.px@.len(), |i: int| flat_byte(frame.px@, i)));
    from_rgba_speed(frame.w as u16, frame.h as u16, pixels, QUANTIZE_SPEED)
}

/// All frames have the size of the first one.
pub fn same_size(frames: &[Image]) -> (r: bool)
    ensures
        r == (forall|i: int|
            0 <= i < frames@.len() ==> (#[trigger] frames@[i]).w == frames@[0].w && frames@[i].h
                == frames@[0].h),
{
    let mut i: usize = 0;
    while i < frames.len()
        invariant
            i <= frames@.len(),
            forall|k: int|
                0 <= k < i ==> (#[trigger] frames@[k]).w == frames@[0].w && frames@[k].h
                    == frames@[0].h,
        decreases frames@.len() - i,
    {
        if frames[i].w != frames[0].w || frames[i].h != frames[0].h {
            return false;
        }
        i += 1;
    }
    true
}

} // verus!
