//! The pixel-buffer abstraction: geometry, bounds checks, linear addressing,
//! and the point / rectangle primitives built on them.
//!
//! A [`Canvas`] owns a linear buffer of 32-bit packed pixels addressed as
//! `y * stride + x`, where the stride (pixels per scan line) may exceed the
//! logical width because of scan-line padding.  Every write goes through the
//! range checks [`Canvas::is_in_x_range`] / [`Canvas::is_in_y_range`]; the one
//! unchecked entry point, [`Canvas::unchecked_pixel_index`], demands
//! pre-checked coordinates in its precondition, so no other path can compute
//! an address.

use vstd::prelude::*;
use vstd::math::min;

verus! {

/// Error returned by a drawing operation whose target coordinates, or whose
/// rectangle or line endpoints, fail the canvas bounds checks.  The operation
/// is abandoned; `fill_rect` guarantees it has then written nothing at all.
#[derive(Clone, Copy, PartialEq, Eq, Structural, Debug)]
pub enum DrawError {
    OutOfRange,
}

/// A pixel buffer with explicit geometry.
///
/// `buf` holds `pixels_per_line * height` packed 32-bit pixels; the pixel at
/// `(x, y)` lives at linear index `y * pixels_per_line + x`.  Cells with
/// `x >= width` are scan-line padding: they exist in the buffer but no
/// checked drawing operation ever touches them.
pub struct Canvas {
    /// The pixel storage, one `u32` per pixel, row after row.
    pub buf: Vec<u32>,
    /// Logical width in pixels.
    pub width: i64,
    /// Logical height in pixels.
    pub height: i64,
    /// Pixels per scan line (the stride); may exceed `width`.
    pub pixels_per_line: i64,
}

impl Canvas {
    /// Geometry is consistent: all dimensions are non-negative, the buffer
    /// holds exactly one `u32` per addressable cell, and the total cell count
    /// stays small enough that every linear index fits in `i64`.
    pub open spec fn wf(self) -> bool {
        &&& 0 <= self.width
        &&& 0 <= self.height
        &&& 0 <= self.pixels_per_line
        &&& self.pixels_per_line * self.height <= i64::MAX
        &&& self.buf@.len() == self.pixels_per_line * self.height
    }

    /// The pixel contents as a mathematical sequence.
    pub open spec fn pixels(self) -> Seq<u32> {
        self.buf@
    }

    /// Largest exclusive bound on x coordinates: the smaller of width and
    /// stride.  An x at or beyond this would alias into the next row or run
    /// past the buffer, so the x range check clamps to it.
    pub open spec fn x_limit(self) -> int {
        min(self.width as int, self.pixels_per_line as int)
    }

    /// `x` passes the x range check.
    pub open spec fn in_x(self, x: int) -> bool {
        0 <= x < self.x_limit()
    }

    /// `y` passes the y range check.
    pub open spec fn in_y(self, y: int) -> bool {
        0 <= y < self.height
    }

    /// Linear index of the pixel at `(x, y)`.
    pub open spec fn idx(self, x: int, y: int) -> int {
        y * (self.pixels_per_line as int) + x
    }

    /// Value of the pixel at `(x, y)` (meaningful for in-range coordinates).
    pub open spec fn pixel(self, x: int, y: int) -> u32 {
        self.pixels()[self.idx(x, y)]
    }

    /// Both canvases describe the same geometry (only pixel contents differ).
    pub open spec fn same_geometry(self, other: Canvas) -> bool {
        &&& self.width == other.width
        &&& self.height == other.height
        &&& self.pixels_per_line == other.pixels_per_line
    }

    /// Some in-range coordinate pair addresses linear index `i`.  Indices
    /// for which this fails lie at or past the x clamp of their row —
    /// scan-line padding — and are never written.
    pub open spec fn addressable(self, i: int) -> bool {
        exists|x: int, y: int| self.in_x(x) && self.in_y(y) && self.idx(x, y) == i
    }

    /// Build a canvas of the given geometry with every pixel zeroed.
    pub fn new(width: i64, height: i64, pixels_per_line: i64) -> (r: Canvas)
        requires
            0 <= width,
            0 <= height,
            0 <= pixels_per_line,
            height <= usize::MAX,
            pixels_per_line <= usize::MAX,
            pixels_per_line * height <= i64::MAX,
            pixels_per_line * height <= usize::MAX,
        ensures
            r.wf(),
            r.width == width,
            r.height == height,
            r.pixels_per_line == pixels_per_line,
            r.pixels().len() == pixels_per_line * height,
            forall|i: int| 0 <= i < r.pixels().len() ==> r.pixels()[i] == 0u32,
    {
        proof {
            assert(pixels_per_line as usize as int == pixels_per_line as int);
            assert(height as usize as int == height as int);
        }
        let n: usize = (pixels_per_line as usize) * (height as usize);
        let buf: Vec<u32> = vec![0u32; n];
        Canvas { buf, width, height, pixels_per_line }
    }

    /// Bytes that one packed pixel occupies in the underlying buffer.
    pub fn bytes_per_pixel(&self) -> (r: i64)
        ensures
            r == 4,
    {
        4
    }

    /// The stride: pixels per scan line, padding included.
    pub fn pixels_per_scan_line(&self) -> (r: i64)
        ensures
            r == self.pixels_per_line,
    {
        self.pixels_per_line
    }

    /// Logical width in pixels.
    pub fn width(&self) -> (r: i64)
        ensures
            r == self.width,
    {
        self.width
    }

    /// Logical height in pixels.
    pub fn height(&self) -> (r: i64)
        ensures
            r == self.height,
    {
        self.height
    }

    /// The x range check: `0 <= px < min(width, stride)`.
    pub fn is_in_x_range(&self, px: i64) -> (b: bool)
        ensures
            b == self.in_x(px as int),
    {
        0 <= px && px < (if self.width < self.pixels_per_line {
            self.width
        } else {
            self.pixels_per_line
        })
    }

    /// The y range check: `0 <= py < height`.
    pub fn is_in_y_range(&self, py: i64) -> (b: bool)
        ensures
            b == self.in_y(py as int),
    {
        0 <= py && py < self.height
    }

    /// The one validated "construct an address from pre-checked coordinates"
    /// entry point: callers must have passed both range checks already.
    pub fn unchecked_pixel_index(&self, x: i64, y: i64) -> (i: usize)
        requires
            self.wf(),
            self.in_x(x as int),
            self.in_y(y as int),
        ensures
            i == self.idx(x as int, y as int),
            i < self.pixels().len(),
    {
        let l: usize = self.buf.len();
        proof {
            lemma_idx_in_bounds(*self, x as int, y as int);
            assert(self.idx(x as int, y as int) < l);
        }
        (y * self.pixels_per_line + x) as usize
    }

    /// Checked addressing: the linear index of `(x, y)` if both range checks
    /// pass, and nothing otherwise (so no write can happen).
    pub fn pixel_at(&self, x: i64, y: i64) -> (r: Option<usize>)
        requires
            self.wf(),
        ensures
            r is Some <==> self.in_x(x as int) && self.in_y(y as int),
            r is Some ==> r->Some_0 == self.idx(x as int, y as int) && r->Some_0 < self.pixels().len(),
    {
        if self.is_in_x_range(x) && self.is_in_y_range(y) {
            Some(self.unchecked_pixel_index(x, y))
        } else {
            None
        }
    }

    /// Read the pixel at `(x, y)`, if it is in range.
    pub fn get_pixel(&self, x: i64, y: i64) -> (r: Option<u32>)
        requires
            self.wf(),
        ensures
            r is Some <==> self.in_x(x as int) && self.in_y(y as int),
            r is Some ==> r->Some_0 == self.pixel(x as int, y as int),
    {
        match self.pixel_at(x, y) {
            Some(i) => Some(self.buf[i]),
            None => None,
        }
    }
}

/// Write one pixel without range checks; callers must have validated the
/// coordinates (the precondition makes an invalid call impossible).
pub fn unchecked_draw_point(canvas: &mut Canvas, color: u32, x: i64, y: i64)
    requires
        old(canvas).wf(),
        old(canvas).in_x(x as int),
        old(canvas).in_y(y as int),
    ensures
        final(canvas).wf(),
        final(canvas).same_geometry(*old(canvas)),
        final(canvas).pixels() == old(canvas).pixels().update(
            old(canvas).idx(x as int, y as int),
            color,
        ),
{
    let i = canvas.unchecked_pixel_index(x, y);
    canvas.buf[i] = color;
}

/// Draw one point: fails with `OutOfRange` (writing nothing) when `(x, y)`
/// fails either range check, and otherwise sets exactly that pixel to
/// `color`.
pub fn draw_point(canvas: &mut Canvas, color: u32, x: i64, y: i64) -> (r: Result<(), DrawError>)
    requires
        old(canvas).wf(),
    ensures
        final(canvas).wf(),
        final(canvas).same_geometry(*old(canvas)),
        r is Ok <==> old(canvas).in_x(x as int) && old(canvas).in_y(y as int),
        r is Ok ==> final(canvas).pixels() == old(canvas).pixels().update(
            old(canvas).idx(x as int, y as int),
            color,
        ),
        r is Err ==> final(canvas).pixels() == old(canvas).pixels() && r == Err::<(), DrawError>(
            DrawError::OutOfRange,
        ),
{
    if canvas.is_in_x_range(x) && canvas.is_in_y_range(y) {
        unchecked_draw_point(canvas, color, x, y);
        Ok(())
    } else {
        Err(DrawError::OutOfRange)
    }
}

/// Fill the rectangle `[px, px + w) x [py, py + h)` with `color`.
///
/// All four corners are validated first; when any fails, the call returns
/// `OutOfRange` having written nothing at all.  On success every pixel of the
/// rectangle reads `color` afterwards and every other cell is unchanged.
pub fn fill_rect(
    canvas: &mut Canvas,
    color: u32,
    px: i64,
    py: i64,
    w: i64,
    h: i64,
) -> (r: Result<(), DrawError>)
    requires
        old(canvas).wf(),
        i64::MIN < px + w <= i64::MAX,
        i64::MIN < py + h <= i64::MAX,
    ensures
        final(canvas).wf(),
        final(canvas).same_geometry(*old(canvas)),
        r is Ok <==> old(canvas).in_x(px as int) && old(canvas).in_y(py as int) && old(
            canvas,
        ).in_x(px + w - 1) && old(canvas).in_y(py + h - 1),
        r is Ok ==> painted(
            *old(canvas),
            *final(canvas),
            rect_cover(px as int, py as int, w as int, h as int),
            color,
        ),
        r is Err ==> final(canvas).pixels() == old(canvas).pixels() && r == Err::<(), DrawError>(
            DrawError::OutOfRange,
        ),
{
    if !canvas.is_in_x_range(px) || !canvas.is_in_y_range(py) || !canvas.is_in_x_range(px + w - 1)
        || !canvas.is_in_y_range(py + h - 1) {
        return Err(DrawError::OutOfRange);
    }
    let ghost c0 = *canvas;
    let ghost cover = rect_cover(px as int, py as int, w as int, h as int);
    if w <= 0 || h <= 0 {
        proof {
            lemma_painted_refl(c0, cover, color);
        }
        return Ok(());
    }
    let mut y = py;
    proof {
        lemma_painted_refl(c0, rect_cover(px as int, py as int, w as int, 0), color);
    }
    while y < py + h
        invariant
            c0.wf(),
            canvas.wf(),
            canvas.same_geometry(c0),
            c0.in_x(px as int),
            c0.in_y(py as int),
            c0.in_x(px + w - 1),
            c0.in_y(py + h - 1),
            0 < w,
            0 < h,
            py + h <= i64::MAX,
            px + w <= i64::MAX,
            py <= y <= py + h,
            painted(c0, *canvas, rect_cover(px as int, py as int, w as int, y - py), color),
        decreases py + h - y,
    {
        let mut x = px;
        proof {
            lemma_painted_ext(
                c0,
                *canvas,
                rect_cover(px as int, py as int, w as int, y - py),
                row_prefix_cover(px as int, py as int, w as int, px as int, y as int),
                color,
            );
        }
        while x < px + w
            invariant
                c0.wf(),
                canvas.wf(),
                canvas.same_geometry(c0),
                c0.in_x(px as int),
                c0.in_y(py as int),
                c0.in_x(px + w - 1),
                c0.in_y(py + h - 1),
                0 < w,
                0 < h,
                py + h <= i64::MAX,
                px + w <= i64::MAX,
                py <= y < py + h,
                px <= x <= px + w,
                painted(c0, *canvas, row_prefix_cover(px as int, py as int, w as int, x as int, y as int), color),
            decreases px + w - x,
        {
            let ghost c1 = *canvas;
            unchecked_draw_point(canvas, color, x, y);
            proof {
                lemma_painted_step(
                    c0,
                    c1,
                    *canvas,
                    row_prefix_cover(px as int, py as int, w as int, x as int, y as int),
                    color,
                    x as int,
                    y as int,
                );
                lemma_painted_ext(
                    c0,
                    *canvas,
                    union_cover(
                        row_prefix_cover(px as int, py as int, w as int, x as int, y as int),
                        point_cover(x as int, y as int),
                    ),
                    row_prefix_cover(px as int, py as int, w as int, x + 1, y as int),
                    color,
                );
            }
            x = x + 1;
        }
        proof {
            lemma_painted_ext(
                c0,
                *canvas,
                row_prefix_cover(px as int, py as int, w as int, px + w, y as int),
                rect_cover(px as int, py as int, w as int, y + 1 - py),
                color,
            );
        }
        y = y + 1;
    }
    proof {
        lemma_painted_ext(
            c0,
            *canvas,
            rect_cover(px as int, py as int, w as int, h as int),
            cover,
            color,
        );
    }
    Ok(())
}

/// Cover predicate for the rows of a rectangle strictly above `y` together
/// with the cells of row `y` strictly left of `x` (the part of a rectangle
/// fill finished while the fill loop stands at column `x` of row `y`).
pub open spec fn row_prefix_cover(px: int, py: int, w: int, x: int, y: int) -> spec_fn(
    int,
    int,
) -> bool {
    |a: int, b: int| (px <= a < px + w && py <= b < y) || (b == y && px <= a < x)
}

/// An in-range coordinate pair addresses a cell inside the buffer.
pub proof fn lemma_idx_in_bounds(c: Canvas, x: int, y: int)
    requires
        c.wf(),
        c.in_x(x),
        c.in_y(y),
    ensures
        0 <= c.idx(x, y) < c.pixels().len(),
        0 <= y * (c.pixels_per_line as int),
{
    let s = c.pixels_per_line as int;
    let h = c.height as int;
    assert(y * s + x < h * s) by (nonlinear_arith)
        requires
            0 <= x < s,
            0 <= y < h,
    ;
    assert(0 <= y * s) by (nonlinear_arith)
        requires
            0 <= y,
            0 <= s,
    ;
}

/// Cover predicate that holds of the single point `(x, y)`.
pub open spec fn point_cover(x: int, y: int) -> spec_fn(int, int) -> bool {
    |px: int, py: int| px == x && py == y
}

/// Cover predicate that holds of no point.
pub open spec fn empty_cover() -> spec_fn(int, int) -> bool {
    |px: int, py: int| false
}

/// Cover predicate that holds where either argument holds.
pub open spec fn union_cover(
    a: spec_fn(int, int) -> bool,
    b: spec_fn(int, int) -> bool,
) -> spec_fn(int, int) -> bool {
    |px: int, py: int| a(px, py) || b(px, py)
}

/// Cover predicate for the rectangle `[px, px + w) x [py, py + h)`.
pub open spec fn rect_cover(px: int, py: int, w: int, h: int) -> spec_fn(int, int) -> bool {
    |x: int, y: int| px <= x < px + w && py <= y < py + h
}

/// `c1` is `c0` with exactly the in-range points satisfying `cover` painted
/// in `color`: every covered in-range pixel reads `color`, and every buffer
/// cell that no covered in-range coordinate addresses is unchanged (padding
/// cells included).
pub open spec fn painted(
    c0: Canvas,
    c1: Canvas,
    cover: spec_fn(int, int) -> bool,
    color: u32,
) -> bool {
    &&& c1.same_geometry(c0)
    &&& c1.pixels().len() == c0.pixels().len()
    &&& (forall|x: int, y: int|
        c0.in_x(x) && c0.in_y(y) && #[trigger] cover(x, y) ==> c1.pixel(x, y) == color)
    &&& (forall|i: int|
        0 <= i < c0.pixels().len() && (forall|x: int, y: int|
            c0.in_x(x) && c0.in_y(y) && #[trigger] cover(x, y) ==> c0.idx(x, y) != i)
            ==> #[trigger] c1.pixels()[i] == c0.pixels()[i])
}

/// A canvas is itself with nothing painted.
pub proof fn lemma_painted_refl(c: Canvas, cover: spec_fn(int, int) -> bool, color: u32)
    requires
        forall|x: int, y: int| c.in_x(x) && c.in_y(y) ==> !#[trigger] cover(x, y),
    ensures
        painted(c, c, cover, color),
{
}

/// An in-range point that the cover misses keeps its old value.
pub proof fn lemma_painted_pixel_unchanged(
    c0: Canvas,
    c1: Canvas,
    cover: spec_fn(int, int) -> bool,
    color: u32,
    x: int,
    y: int,
)
    requires
        c0.wf(),
        painted(c0, c1, cover, color),
        c0.in_x(x),
        c0.in_y(y),
        !cover(x, y),
    ensures
        c1.pixel(x, y) == c0.pixel(x, y),
{
    lemma_idx_in_bounds(c0, x, y);
    assert forall|x2: int, y2: int|
        c0.in_x(x2) && c0.in_y(y2) && #[trigger] cover(x2, y2) implies c0.idx(x2, y2) != c0.idx(
        x,
        y,
    ) by {
        if c0.idx(x2, y2) == c0.idx(x, y) {
            lemma_idx_injective(c0, x2, y2, x, y);
        }
    }
}

/// Two covers that agree on every in-range point describe the same painting.
pub proof fn lemma_painted_ext(
    c0: Canvas,
    c1: Canvas,
    a: spec_fn(int, int) -> bool,
    b: spec_fn(int, int) -> bool,
    color: u32,
)
    requires
        painted(c0, c1, a, color),
        forall|x: int, y: int|
            c0.in_x(x) && c0.in_y(y) ==> (#[trigger] a(x, y) <==> #[trigger] b(x, y)),
    ensures
        painted(c0, c1, b, color),
{
    assert forall|x: int, y: int|
        c0.in_x(x) && c0.in_y(y) && #[trigger] b(x, y) implies c1.pixel(x, y) == color by {
        assert(a(x, y));
    }
    assert forall|i: int|
        0 <= i < c0.pixels().len() && (forall|x: int, y: int|
            c0.in_x(x) && c0.in_y(y) && #[trigger] b(x, y) ==> c0.idx(x, y) != i)
            implies #[trigger] c1.pixels()[i] == c0.pixels()[i] by {
        assert forall|x: int, y: int|
            c0.in_x(x) && c0.in_y(y) && #[trigger] a(x, y) implies c0.idx(x, y) != i by {
            assert(b(x, y));
        }
    }
}

/// Painting one cover and then another, in the same color, paints the union.
pub proof fn lemma_painted_trans(
    c0: Canvas,
    c1: Canvas,
    c2: Canvas,
    a: spec_fn(int, int) -> bool,
    b: spec_fn(int, int) -> bool,
    color: u32,
)
    requires
        c0.wf(),
        painted(c0, c1, a, color),
        painted(c1, c2, b, color),
    ensures
        painted(c0, c2, union_cover(a, b), color),
{
    assert(c1.wf());
    let u = union_cover(a, b);
    assert forall|x: int, y: int|
        c0.in_x(x) && c0.in_y(y) && #[trigger] u(x, y) implies c2.pixel(x, y) == color by {
        if b(x, y) {
            assert(c2.pixel(x, y) == color);
        } else {
            assert(a(x, y));
            assert(c1.pixel(x, y) == color);
            lemma_painted_pixel_unchanged(c1, c2, b, color, x, y);
        }
    }
    assert forall|i: int|
        0 <= i < c0.pixels().len() && (forall|x: int, y: int|
            c0.in_x(x) && c0.in_y(y) && #[trigger] u(x, y) ==> c0.idx(x, y) != i)
            implies #[trigger] c2.pixels()[i] == c0.pixels()[i] by {
        assert forall|x: int, y: int|
            c0.in_x(x) && c0.in_y(y) && #[trigger] a(x, y) implies c0.idx(x, y) != i by {
            assert(u(x, y));
        }
        assert forall|x: int, y: int|
            c1.in_x(x) && c1.in_y(y) && #[trigger] b(x, y) implies c1.idx(x, y) != i by {
            assert(u(x, y));
        }
        assert(c1.pixels()[i] == c0.pixels()[i]);
        assert(c2.pixels()[i] == c1.pixels()[i]);
    }
}

/// A painting determines the result completely: two canvases painted from
/// the same start with the same cover and color hold the same pixels.
pub proof fn lemma_painted_deterministic(
    c0: Canvas,
    c1: Canvas,
    c2: Canvas,
    cover: spec_fn(int, int) -> bool,
    color: u32,
)
    requires
        c0.wf(),
        painted(c0, c1, cover, color),
        painted(c0, c2, cover, color),
    ensures
        c1.pixels() =~= c2.pixels(),
{
    assert forall|i: int| 0 <= i < c1.pixels().len() implies c1.pixels()[i] == c2.pixels()[i] by {
        if c0.addressable(i) {
            let (x, y) = choose|x: int, y: int| c0.in_x(x) && c0.in_y(y) && c0.idx(x, y) == i;
            lemma_idx_in_bounds(c0, x, y);
            if cover(x, y) {
                assert(c1.pixel(x, y) == color && c2.pixel(x, y) == color);
            } else {
                lemma_painted_pixel_unchanged(c0, c1, cover, color, x, y);
                lemma_painted_pixel_unchanged(c0, c2, cover, color, x, y);
            }
        } else {
            assert forall|x: int, y: int|
                c0.in_x(x) && c0.in_y(y) && #[trigger] cover(x, y) implies c0.idx(x, y) != i by {
                if c0.idx(x, y) == i {
                    assert(c0.addressable(i));
                }
            }
            assert(c1.pixels()[i] == c0.pixels()[i]);
            assert(c2.pixels()[i] == c0.pixels()[i]);
        }
    }
}

/// A point that fails the range checks can be added to a painting's cover
/// without any write: no in-range pixel answers to it.
pub proof fn lemma_painted_cover_outside(
    c0: Canvas,
    c1: Canvas,
    cover: spec_fn(int, int) -> bool,
    color: u32,
    x: int,
    y: int,
)
    requires
        painted(c0, c1, cover, color),
        !(c0.in_x(x) && c0.in_y(y)),
    ensures
        painted(c0, c1, union_cover(cover, point_cover(x, y)), color),
{
    let u = union_cover(cover, point_cover(x, y));
    assert forall|x2: int, y2: int|
        c0.in_x(x2) && c0.in_y(y2) && #[trigger] u(x2, y2) implies c1.pixel(x2, y2) == color by {
        assert(cover(x2, y2));
    }
    assert forall|i: int|
        0 <= i < c0.pixels().len() && (forall|x2: int, y2: int|
            c0.in_x(x2) && c0.in_y(y2) && #[trigger] u(x2, y2) ==> c0.idx(x2, y2) != i)
            implies #[trigger] c1.pixels()[i] == c0.pixels()[i] by {
        assert forall|x2: int, y2: int|
            c0.in_x(x2) && c0.in_y(y2) && #[trigger] cover(x2, y2) implies c0.idx(x2, y2)
            != i by {
            assert(u(x2, y2));
        }
    }
}

/// Writing `color` through the unchecked index of one in-range point extends
/// a painting by that point.
pub proof fn lemma_painted_step(
    c0: Canvas,
    c1: Canvas,
    c2: Canvas,
    cover: spec_fn(int, int) -> bool,
    color: u32,
    x: int,
    y: int,
)
    requires
        c0.wf(),
        painted(c0, c1, cover, color),
        c2.same_geometry(c1),
        c1.in_x(x),
        c1.in_y(y),
        c2.pixels() == c1.pixels().update(c1.idx(x, y), color),
    ensures
        painted(c0, c2, union_cover(cover, point_cover(x, y)), color),
{
    assert(c1.wf());
    lemma_idx_in_bounds(c1, x, y);
    assert(painted(c1, c2, point_cover(x, y), color)) by {
        assert forall|i: int|
            0 <= i < c1.pixels().len() && (forall|x2: int, y2: int|
                c1.in_x(x2) && c1.in_y(y2) && #[trigger] point_cover(x, y)(x2, y2) ==> c1.idx(
                    x2,
                    y2,
                ) != i) implies #[trigger] c2.pixels()[i] == c1.pixels()[i] by {
            assert(point_cover(x, y)(x, y));
            assert(c1.idx(x, y) != i);
        }
    }
    lemma_painted_trans(c0, c1, c2, cover, point_cover(x, y), color);
}

/// Distinct in-range coordinate pairs address distinct cells.
pub proof fn lemma_idx_injective(c: Canvas, x1: int, y1: int, x2: int, y2: int)
    requires
        c.wf(),
        c.in_x(x1),
        c.in_y(y1),
        c.in_x(x2),
        c.in_y(y2),
        c.idx(x1, y1) == c.idx(x2, y2),
    ensures
        x1 == x2,
        y1 == y2,
{
    let s = c.pixels_per_line as int;
    assert(y1 == y2 && x1 == x2) by (nonlinear_arith)
        requires
            0 <= x1 < s,
            0 <= x2 < s,
            y1 * s + x1 == y2 * s + x2,
    ;
}

} // verus!
