//! Full-image rendering: every pixel independently mapped to a plane point,
//! escape-tested, colored, and written into a row-major B,G,R,A byte buffer.
//!
//! The per-pixel work is a pure function of the view state and configuration,
//! so the whole image is one too; the parallel fan-out over rows cannot change
//! a single byte, and rendering the same view twice gives identical buffers.

use vstd::prelude::*;
use crate::fixed::Fix;
use crate::viewport::ViewState;
use crate::escape::{EscapeResult, Bailout, escaped_at, first_escape_at, smooth_spec, z_iter,
    normsq, test_number, NUM_COLORS};
use crate::color::{Color, Palette, color_spec, color_palette};
use vstd::arithmetic::div_mod::{lemma_fundamental_div_mod, lemma_fundamental_div_mod_converse};

use rayon::iter::{IntoParallelIterator, ParallelIterator};

verus! {

/// The rendering configuration: which bailout radius and which palette.
#[derive(Clone, Copy, PartialEq, Eq, Structural, Debug)]
pub struct RenderConfig {
    pub bailout: Bailout,
    pub palette: Palette,
}

/// Two first escapes of one orbit are the same step.
pub proof fn lemma_first_escape_unique(cr: int, ci: int, bail: Bailout, k1: int, k2: int)
    requires
        first_escape_at(cr, ci, bail, k1),
        first_escape_at(cr, ci, bail, k2),
    ensures
        k1 == k2,
{
    if k1 < k2 {
        assert(!escaped_at(cr, ci, bail, k1 as nat));
    }
    if k2 < k1 {
        assert(!escaped_at(cr, ci, bail, k2 as nat));
    }
}

/// The escape result of a point as a value: the smoothed count of the first
/// escape within the budget, or `Bounded` when there is none.
pub open spec fn escape_spec(cr: int, ci: int, n: int, bail: Bailout) -> EscapeResult {
    if exists|k: int| (#[trigger] first_escape_at(cr, ci, bail, k)) && k <= n {
        let k = choose|k: int| (#[trigger] first_escape_at(cr, ci, bail, k)) && k <= n;
        EscapeResult::Escaped {
            count: Fix { bits: smooth_spec(k as nat, normsq(z_iter(cr, ci, k as nat)) as nat) as i64 },
        }
    } else {
        EscapeResult::Bounded
    }
}

/// What `test_number` promises determines its result: the escape test is a
/// function of the point, the budget and the bailout radius.
pub proof fn lemma_escape_characterization(cr: int, ci: int, n: int, bail: Bailout,
    r: EscapeResult)
    requires
        n >= 0,
        match r {
            EscapeResult::Bounded => forall|k: int|
                1 <= k <= n ==> !(#[trigger] escaped_at(cr, ci, bail, k as nat)),
            EscapeResult::Escaped { count } => exists|k: int|
                (#[trigger] first_escape_at(cr, ci, bail, k)) && k <= n
                    && count.v() == smooth_spec(k as nat, normsq(z_iter(cr, ci, k as nat)) as nat),
        },
    ensures
        r == escape_spec(cr, ci, n, bail),
{
    match r {
        EscapeResult::Bounded => {
            if exists|k: int| (#[trigger] first_escape_at(cr, ci, bail, k)) && k <= n {
                let k = choose|k: int| (#[trigger] first_escape_at(cr, ci, bail, k)) && k <= n;
                assert(escaped_at(cr, ci, bail, k as nat));
                assert(false);
            }
        },
        EscapeResult::Escaped { count } => {
            let k0 = choose|k: int|
                (#[trigger] first_escape_at(cr, ci, bail, k)) && k <= n
                    && count.v() == smooth_spec(k as nat, normsq(z_iter(cr, ci, k as nat)) as nat);
            assert(first_escape_at(cr, ci, bail, k0) && k0 <= n);
            let k1 = choose|k: int| (#[trigger] first_escape_at(cr, ci, bail, k)) && k <= n;
            lemma_first_escape_unique(cr, ci, bail, k0, k1);
        },
    }
}

/// The color of the pixel at `(x, y)`: plane point, escape test with the
/// default budget, palette, composed.
pub open spec fn pixel_color(vs: ViewState, cfg: RenderConfig, x: int, y: int) -> Color {
    color_spec(escape_spec(vs.plane_x(x), vs.plane_y(y), NUM_COLORS as int, cfg.bailout),
        NUM_COLORS as int, cfg.palette)
}

/// Byte `ch` of the pixel at `(x, y)`, in B,G,R,A channel order.
pub open spec fn pixel_byte(vs: ViewState, cfg: RenderConfig, x: int, y: int, ch: int) -> u8 {
    let c = pixel_color(vs, cfg, x, y);
    if ch == 0 {
        c.b
    } else if ch == 1 {
        c.g
    } else if ch == 2 {
        c.r
    } else {
        c.a
    }
}

/// The bytes of row `y`, in pixel order.
pub open spec fn row_bytes(vs: ViewState, cfg: RenderConfig, y: int) -> Seq<u8> {
    Seq::new((4 * vs.width) as nat, |j: int| pixel_byte(vs, cfg, j / 4, y, j % 4))
}

/// The bytes of the whole image, row-major with the top row first.
pub open spec fn image_bytes(vs: ViewState, cfg: RenderConfig) -> Seq<u8> {
    Seq::new((4 * vs.width * vs.height) as nat,
        |j: int| pixel_byte(vs, cfg, (j / 4) % (vs.width as int), (j / 4) / (vs.width as int),
            j % 4))
}

/// Render one pixel row.
pub fn render_row(vs: ViewState, cfg: RenderConfig, y: u32) -> (row: Vec<u8>)
    requires
        vs.wf(),
    ensures
        row@ == row_bytes(vs, cfg, y as int),
{
    let mut row: Vec<u8> = Vec::new();
    let mut x: u32 = 0;
    while x < vs.width
        invariant
            vs.wf(),
            x <= vs.width,
            row@.len() == 4 * x,
            forall|j: int| 0 <= j < 4 * x ==> row@[j] == row_bytes(vs, cfg, y as int)[j],
        decreases vs.width - x,
    {
        let p = vs.xy_to_point(x, y);
        let e = test_number(p.0, p.1, NUM_COLORS, cfg.bailout);
        proof {
            lemma_escape_characterization(vs.plane_x(x as int), vs.plane_y(y as int),
                NUM_COLORS as int, cfg.bailout, e);
        }
        let c = color_palette(e, NUM_COLORS, cfg.palette);
        row.push(c.b);
        row.push(c.g);
        row.push(c.r);
        row.push(c.a);
        proof {
            assert(c == pixel_color(vs, cfg, x as int, y as int));
            assert forall|j: int| 4 * x <= j < 4 * (x + 1) implies row@[j] == row_bytes(vs, cfg,
                y as int)[j] by {
                lemma_fundamental_div_mod_converse(j, 4, x as int, j - 4 * x);
            }
        }
        x = x + 1;
    }
    proof {
        assert(row@ =~= row_bytes(vs, cfg, y as int));
    }
    row
}

/// Relies on rayon's `into_par_iter().map(..).collect()` over a range: it
/// applies the given function to every index and collects the results in
/// index order, so the output rows are exactly the sequential rows whatever
/// the worker count or schedule.
#[verifier::external_body]
fn par_render_rows(vs: ViewState, cfg: RenderConfig) -> (rows: Vec<Vec<u8>>)
    requires
        vs.wf(),
    ensures
        rows@.len() == vs.height as int,
        forall|y: int| 0 <= y < vs.height as int ==> rows@[y]@ == row_bytes(vs, cfg, y),
{
    (0..vs.height).into_par_iter().map(|y| render_row(vs, cfg, y)).collect()
}

/// Render the full image: `width * height * 4` bytes, row-major, top row
/// first, each pixel the exact composition of viewport mapping, escape test
/// and palette.
pub fn generate(vs: &ViewState, cfg: RenderConfig) -> (buf: Vec<u8>)
    requires
        vs.wf(),
    ensures
        buf@ == image_bytes(*vs, cfg),
        buf@.len() == 4 * vs.width as int * vs.height as int,
        forall|x: int, y: int, ch: int|
            0 <= x < vs.width as int && 0 <= y < vs.height as int && 0 <= ch < 4
                ==> buf@[4 * (y * vs.width as int + x) + ch] == pixel_byte(*vs, cfg, x, y, ch),
{
    let w = vs.width;
    let h = vs.height;
    let rows = par_render_rows(*vs, cfg);
    let mut buf: Vec<u8> = Vec::new();
    let mut y: u32 = 0;
    while y < h
        invariant
            vs.wf(),
            w == vs.width,
            h == vs.height,
            y <= h,
            rows@.len() == h as int,
            forall|r: int| 0 <= r < h as int ==> rows@[r]@ == row_bytes(*vs, cfg, r),
            buf@.len() == 4 * (w as int) * (y as int),
            forall|j: int| 0 <= j < 4 * (w as int) * (y as int)
                ==> buf@[j] == image_bytes(*vs, cfg)[j],
        decreases h - y,
    {
        let row = &rows[y as usize];
        let mut i: usize = 0;
        proof {
            assert(rows@[y as int]@ == row_bytes(*vs, cfg, y as int));
            assert(row@.len() == (4 * vs.width) as nat);
            assert(4 * (w as int) * ((y + 1) as int) == 4 * (w as int) * (y as int) + 4 * (
            w as int)) by (nonlinear_arith);
            assert(4 * (w as int) * (y as int) >= 0) by (nonlinear_arith)
                requires
                    w as int >= 0,
                    y as int >= 0,
            ;
            assert(4 * (w as int) * (y as int) + 4 * (w as int) <= 4 * (w as int) * (h as int))
                by (nonlinear_arith)
                requires
                    y as int + 1 <= h as int,
                    w as int >= 0,
            ;
        }
        while i < row.len()
            invariant
                vs.wf(),
                w == vs.width,
                h == vs.height,
                y < h,
                rows@.len() == h as int,
                forall|r: int| 0 <= r < h as int ==> rows@[r]@ == row_bytes(*vs, cfg, r),
                row@ == row_bytes(*vs, cfg, y as int),
                i <= row@.len(),
                row@.len() == 4 * (w as int),
                buf@.len() == 4 * (w as int) * (y as int) + i as int,
                4 * (w as int) * (y as int) + 4 * (w as int) <= 4 * (w as int) * (h as int),
                forall|j: int| 0 <= j < buf@.len() ==> buf@[j] == image_bytes(*vs, cfg)[j],
            decreases row@.len() - i,
        {
            let b = row[i];
            buf.push(b);
            proof {
                let base = 4 * (w as int) * (y as int);
                let g = base + i as int;
                let ii = i as int;
                // g = 4*(w*y + i/4) + i%4, so g/4 == w*y + i/4 and g%4 == i%4
                lemma_fundamental_div_mod(ii, 4);
                assert(4 * (w as int) * (y as int) == 4 * ((w as int) * (y as int)))
                    by (nonlinear_arith);
                assert((w as int) * (y as int) == (y as int) * (w as int)) by (nonlinear_arith);
                assert(g == ((w as int) * (y as int) + ii / 4) * 4 + ii % 4);
                lemma_fundamental_div_mod_converse(g, 4, (w as int) * (y as int) + ii / 4, ii % 4);
                // w*y + i/4 = y*w + x with x = i/4 < w, so (g/4) % w == x, (g/4) / w == y
                lemma_fundamental_div_mod_converse((w as int) * (y as int) + ii / 4, w as int,
                    y as int, ii / 4);
                assert(buf@[g] == image_bytes(*vs, cfg)[g]);
            }
            i = i + 1;
        }
        y = y + 1;
    }
    proof {
        assert(4 * (w as int) * (h as int) == 4 * (w as int) * (h as int));
        assert(buf@ =~= image_bytes(*vs, cfg));
        assert forall|x: int, yy: int, ch: int|
            0 <= x < w as int && 0 <= yy < h as int && 0 <= ch < 4 implies buf@[4 * (yy * (
        w as int) + x) + ch] == pixel_byte(*vs, cfg, x, yy, ch) by {
            let g = 4 * (yy * (w as int) + x) + ch;
            lemma_fundamental_div_mod_converse(g, 4, yy * (w as int) + x, ch);
            lemma_fundamental_div_mod_converse(yy * (w as int) + x, w as int, yy, x);
            assert(yy * (w as int) == (w as int) * yy) by (nonlinear_arith);
            assert(0 <= g < 4 * (w as int) * (h as int)) by (nonlinear_arith)
                requires
                    0 <= x < w as int,
                    0 <= yy < h as int,
                    0 <= ch < 4,
                    g == 4 * (yy * (w as int) + x) + ch,
            ;
        }
    }
    buf
}

/// Determinism: the image bytes are a function of view state and
/// configuration alone, so two renders of the same view are byte-identical,
/// whatever the degree of parallelism.
pub proof fn lemma_render_deterministic(vs: ViewState, cfg: RenderConfig, b1: Seq<u8>,
    b2: Seq<u8>)
    requires
        b1 == image_bytes(vs, cfg),
        b2 == image_bytes(vs, cfg),
    ensures
        b1 == b2,
{
}

} // verus!
