//! The interaction state machine: resize, pan and zoom gestures turn into new
//! view parameters and a freshly rendered buffer.
//!
//! The session is Idle until a button press anchors the cursor; the matching
//! release converts the cursor travel into a plane displacement and pans the
//! view.  A scroll scales the view by `exp(delta)`, either anchored at the
//! plane point under the cursor or around the center, per policy.  Every
//! view-affecting event synchronously replaces the whole pixel buffer; cursor
//! motion alone repaints nothing.

use vstd::prelude::*;
use crate::fixed::{Fix, FIX_ONE, sat64, tmul, tdiv, tdiv_int, abs_i, clamp_u32, fadd, fsub, fneg,
    fmul, fdiv, fdiv_int};
use crate::math::exp2_spec;
use crate::viewport::{ViewState, MAX_DIM};
use crate::render::{RenderConfig, image_bytes, generate};
use vstd::arithmetic::div_mod::lemma_div_of0;

verus! {

/// `log2(e)` in Q32.32, rounded toward zero: converts a natural-exponent
/// scroll delta into a base-2 exponent.
pub const LOG2E_BITS: i64 = 6196328018;

/// Decoded interaction events, delivered by the host shell.
#[derive(Clone, Copy, PartialEq, Eq, Structural, Debug)]
pub enum Event {
    Resize { width: u32, height: u32 },
    ButtonPress,
    ButtonRelease,
    CursorMove { x: Fix, y: Fix },
    Scroll { delta: Fix },
}

/// Whether a scroll zooms around the plane point under the cursor or around
/// the view center.
#[derive(Clone, Copy, PartialEq, Eq, Structural, Debug)]
pub enum ZoomPolicy {
    Anchored,
    Unanchored,
}

/// Clamp a requested pixel dimension into the accepted range, so a degenerate
/// resize can never make the viewport normalization divide by zero.
pub open spec fn clamp_dim(x: int) -> int {
    if x < 1 {
        1
    } else if x > MAX_DIM as int {
        MAX_DIM as int
    } else {
        x
    }
}

/// The view after a resize: new clamped dimensions, same center and scale.
pub open spec fn resize_spec(vs: ViewState, w: int, h: int) -> ViewState {
    ViewState { width: clamp_dim(w) as u32, height: clamp_dim(h) as u32, ..vs }
}

/// One pan component: the pixel travel `delta`, negated when `neg`, divided
/// by the normalizing dimension and scaled, in exact saturating fixed point.
pub open spec fn pan_component(delta: int, neg: bool, d: int, s: int) -> int {
    let nd = if neg {
        sat64(-delta)
    } else {
        delta
    };
    sat64(tmul(sat64(tdiv_int(nd, d)), s))
}

/// The view after a pan from anchor `(ax, ay)` to cursor `(cx, cy)`: the
/// center moves by `(-(cx - ax), cy - ay) / dmax * scale`.
pub open spec fn pan_spec(vs: ViewState, ax: int, ay: int, cx: int, cy: int) -> ViewState {
    let d = vs.dmax();
    let s = vs.scale.v();
    let pan_re = pan_component(sat64(cx - ax), true, d, s);
    let pan_im = pan_component(sat64(cy - ay), false, d, s);
    ViewState {
        center_re: Fix { bits: sat64(vs.center_re.v() + pan_re) as i64 },
        center_im: Fix { bits: sat64(vs.center_im.v() + pan_im) as i64 },
        ..vs
    }
}

/// The zoom factor `exp(delta)` of a scroll: the delta is converted to a
/// base-2 exponent and clamped to the supported exponent range.
pub open spec fn zoom_factor(delta: int) -> int {
    let darg = sat64(tmul(delta, LOG2E_BITS as int));
    let clamped = if darg > 32 * FIX_ONE as int {
        32 * FIX_ONE as int
    } else if darg < -32 * FIX_ONE as int {
        -32 * FIX_ONE as int
    } else {
        darg
    };
    exp2_spec(clamped)
}

/// A new scale is kept positive: the one boundary the fixed-point division
/// could cross.
pub open spec fn clamp_scale(x: int) -> int {
    if x < 1 {
        1
    } else {
        x
    }
}

/// The view after a scroll.  Anchored policy: the scale shrinks by the factor
/// and the center moves to `p + (center - p) / factor`, keeping the plane
/// point `p` under the cursor fixed.  Unanchored policy: the scale grows by
/// the factor and the center stays.
pub open spec fn scroll_spec(vs: ViewState, cursor_x: Fix, cursor_y: Fix, delta: int,
    zoom: ZoomPolicy) -> ViewState {
    let f = zoom_factor(delta);
    match zoom {
        ZoomPolicy::Anchored => {
            let px = vs.plane_x(clamp_u32(cursor_x.v() / FIX_ONE as int));
            let py = vs.plane_y(clamp_u32(cursor_y.v() / FIX_ONE as int));
            ViewState {
                scale: Fix { bits: clamp_scale(sat64(tdiv(vs.scale.v(), f))) as i64 },
                center_re: Fix { bits: sat64(px + sat64(tdiv(sat64(vs.center_re.v() - px), f))) as i64 },
                center_im: Fix { bits: sat64(py + sat64(tdiv(sat64(vs.center_im.v() - py), f))) as i64 },
                ..vs
            }
        },
        ZoomPolicy::Unanchored => {
            ViewState { scale: Fix { bits: clamp_scale(sat64(tmul(vs.scale.v(), f))) as i64 }, ..vs }
        },
    }
}

/// The view after one event, given the cursor and anchor at that moment.
pub open spec fn step_view(view: ViewState, cursor_x: Fix, cursor_y: Fix,
    anchor: Option<(Fix, Fix)>, zoom: ZoomPolicy, e: Event) -> ViewState {
    match e {
        Event::Resize { width, height } => resize_spec(view, width as int, height as int),
        Event::ButtonPress => view,
        Event::ButtonRelease => match anchor {
            Some(a) => pan_spec(view, a.0.v(), a.1.v(), cursor_x.v(), cursor_y.v()),
            None => view,
        },
        Event::CursorMove { .. } => view,
        Event::Scroll { delta } => scroll_spec(view, cursor_x, cursor_y, delta.v(), zoom),
    }
}

/// A whole interactive session: the current view, the cursor, the pan anchor
/// (`Some` exactly while panning), the fixed configuration, and the pixel
/// buffer of the current view.
pub struct AppState {
    pub view: ViewState,
    pub cursor_x: Fix,
    pub cursor_y: Fix,
    pub anchor: Option<(Fix, Fix)>,
    pub config: RenderConfig,
    pub zoom: ZoomPolicy,
    pub buffer: Vec<u8>,
}

impl AppState {
    /// Session invariant: the view is well formed and the stored buffer is
    /// exactly the rendering of the current view.
    pub open spec fn inv(self) -> bool {
        &&& self.view.wf()
        &&& self.buffer@ == image_bytes(self.view, self.config)
    }

    /// Start a session on the default initial view: center `(-0.5, 0)`,
    /// scale 4, and a 10 x 10 placeholder viewport that the first real resize
    /// replaces.
    pub fn new(config: RenderConfig, zoom: ZoomPolicy) -> (s: AppState)
        ensures
            s.inv(),
            s.view.center_re.v() == -(FIX_ONE as int) / 2,
            s.view.center_im.v() == 0,
            s.view.scale.v() == 4 * FIX_ONE as int,
            s.view.width == 10,
            s.view.height == 10,
            s.cursor_x.v() == 0,
            s.cursor_y.v() == 0,
            s.anchor.is_none(),
            s.config == config,
            s.zoom == zoom,
    {
        let view = ViewState {
            center_re: Fix { bits: -0x8000_0000 },
            center_im: Fix { bits: 0 },
            scale: Fix { bits: 4 * FIX_ONE },
            width: 10,
            height: 10,
        };
        let buffer = generate(&view, config);
        AppState {
            view,
            cursor_x: Fix { bits: 0 },
            cursor_y: Fix { bits: 0 },
            anchor: None,
            config,
            zoom,
            buffer,
        }
    }

    /// Re-render the current view and replace the stored buffer.
    pub fn regenerate(&mut self)
        requires
            old(self).view.wf(),
        ensures
            final(self).view == old(self).view,
            final(self).cursor_x == old(self).cursor_x,
            final(self).cursor_y == old(self).cursor_y,
            final(self).anchor == old(self).anchor,
            final(self).config == old(self).config,
            final(self).zoom == old(self).zoom,
            final(self).inv(),
    {
        self.buffer = generate(&self.view, self.config);
    }

    /// Process one interaction event: update cursor and anchor, apply the
    /// view transition, and re-render exactly on resize, pan release and
    /// scroll.
    pub fn update(&mut self, e: Event)
        requires
            old(self).inv(),
        ensures
            final(self).inv(),
            final(self).config == old(self).config,
            final(self).zoom == old(self).zoom,
            final(self).view == step_view(old(self).view, old(self).cursor_x, old(self).cursor_y,
                old(self).anchor, old(self).zoom, e),
            final(self).cursor_x == (match e {
                Event::CursorMove { x, .. } => x,
                _ => old(self).cursor_x,
            }),
            final(self).cursor_y == (match e {
                Event::CursorMove { y, .. } => y,
                _ => old(self).cursor_y,
            }),
            final(self).anchor == (match e {
                Event::ButtonPress => Some((old(self).cursor_x, old(self).cursor_y)),
                Event::ButtonRelease => None::<(Fix, Fix)>,
                _ => old(self).anchor,
            }),
            (match e {
                Event::ButtonPress | Event::CursorMove { .. } => final(self).buffer@ == old(
                self).buffer@,
                _ => true,
            }),
    {
        match e {
            Event::Resize { width, height } => {
                self.view.width = clamp_dim_exec(width);
                self.view.height = clamp_dim_exec(height);
                self.regenerate();
            },
            Event::ButtonPress => {
                self.anchor = Some((self.cursor_x, self.cursor_y));
            },
            Event::ButtonRelease => {
                let a = self.anchor;
                self.anchor = None;
                match a {
                    Some((ax, ay)) => {
                        let d: u64 = if self.view.width >= self.view.height {
                            self.view.width as u64
                        } else {
                            self.view.height as u64
                        };
                        let pdx = fdiv_int(fneg(fsub(self.cursor_x, ax)), d);
                        let pdy = fdiv_int(fsub(self.cursor_y, ay), d);
                        let pan_re = fmul(pdx, self.view.scale);
                        let pan_im = fmul(pdy, self.view.scale);
                        self.view.center_re = fadd(self.view.center_re, pan_re);
                        self.view.center_im = fadd(self.view.center_im, pan_im);
                        self.regenerate();
                    },
                    None => {},
                }
            },
            Event::CursorMove { x, y } => {
                self.cursor_x = x;
                self.cursor_y = y;
            },
            Event::Scroll { delta } => {
                let darg = fmul(delta, Fix { bits: LOG2E_BITS });
                let clamped: Fix = if darg.bits > 32 * FIX_ONE {
                    Fix { bits: 32 * FIX_ONE }
                } else if darg.bits < -32 * FIX_ONE {
                    Fix { bits: -32 * FIX_ONE }
                } else {
                    darg
                };
                let f = crate::math::exp2_fix(clamped);
                match self.zoom {
                    ZoomPolicy::Anchored => {
                        let ux = self.cursor_x.floor_u32();
                        let uy = self.cursor_y.floor_u32();
                        let p = self.view.xy_to_point(ux, uy);
                        let new_scale = clamp_scale_exec(fdiv(self.view.scale, f));
                        let new_re = fadd(p.0, fdiv(fsub(self.view.center_re, p.0), f));
                        let new_im = fadd(p.1, fdiv(fsub(self.view.center_im, p.1), f));
                        self.view.scale = new_scale;
                        self.view.center_re = new_re;
                        self.view.center_im = new_im;
                    },
                    ZoomPolicy::Unanchored => {
                        self.view.scale = clamp_scale_exec(fmul(self.view.scale, f));
                    },
                }
                self.regenerate();
            },
        }
    }
}

/// Clamp a requested pixel dimension into the accepted range.
fn clamp_dim_exec(x: u32) -> (r: u32)
    ensures
        r as int == clamp_dim(x as int),
        1 <= r <= MAX_DIM,
{
    if x < 1 {
        1
    } else if x > MAX_DIM {
        MAX_DIM
    } else {
        x
    }
}

/// Keep a new scale positive.
fn clamp_scale_exec(x: Fix) -> (r: Fix)
    ensures
        r.v() == clamp_scale(x.v()),
        r.v() >= 1,
{
    if x.bits < 1 {
        Fix { bits: 1 }
    } else {
        x
    }
}

/// Pan invariance in exact arithmetic.  With the viewport map written over
/// the common denominator `2d` — pixel `x` shows the plane value
/// `(c * 2d + (2x - k) * s) / 2d`, where `c` is the center, `s` the scale and
/// `k` the pixel width — a pan that moves the center by `-(x2 - x1) * s / d`
/// makes pixel `x2` show exactly what pixel `x1` showed before.
pub proof fn lemma_pan_invariant(c: int, s: int, d2: int, k: int, x1: int, x2: int)
    ensures
        c * d2 - 2 * (x2 - x1) * s + (2 * x2 - k) * s == c * d2 + (2 * x1 - k) * s,
{
    assert(2 * (x2 - x1) * s == 2 * x2 * s - 2 * x1 * s) by (nonlinear_arith);
    assert((2 * x2 - k) * s == 2 * x2 * s - k * s) by (nonlinear_arith);
    assert((2 * x1 - k) * s == 2 * x1 * s - k * s) by (nonlinear_arith);
}

/// A release at the press position does not move the view: the pan of a zero
/// pixel travel is the identity.
pub proof fn lemma_pan_noop(vs: ViewState, ax: Fix, ay: Fix)
    requires
        vs.wf(),
    ensures
        pan_spec(vs, ax.v(), ay.v(), ax.v(), ay.v()) == vs,
{
    let d = vs.dmax();
    let s = vs.scale.v();
    assert(sat64(ax.v() - ax.v()) == 0);
    assert(abs_i(0) == 0);
    lemma_div_of0(d);
    assert(tdiv_int(0, d) == 0);
    assert(0 * abs_i(s) == 0) by (nonlinear_arith);
    lemma_div_of0(FIX_ONE as int);
    assert(tmul(0, s) == 0);
    assert(pan_component(0, true, d, s) == 0);
    assert(pan_component(0, false, d, s) == 0);
    assert(pan_spec(vs, ax.v(), ay.v(), ax.v(), ay.v()) =~= vs);
}

/// Zoom anchor invariance in exact arithmetic.  Let `p = c + o * s` be the
/// plane value under the cursor, where `c` is the center, `s` the scale over
/// its denominator, and `o` the pixel offset of the cursor from the center.
/// The anchored zoom moves the center to `p + (c - p) / f` and the scale to
/// `s / f`; multiplying through by `f`, the new plane value under the same
/// pixel — new center plus `o` times new scale — is again exactly `p`.
pub proof fn lemma_zoom_anchor_invariant(c: int, s: int, o: int, f: int, p: int)
    requires
        p == c + o * s,
    ensures
        (p * f + (c - p)) + o * s == p * f,
{
}

} // verus!
