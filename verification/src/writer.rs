//! The text cursor writer: a stateful façade over a canvas that renders a
//! character stream with line-feed and advance semantics.
//!
//! A line feed resets the cursor column to zero and moves one 16-pixel text
//! row down; any other character is drawn at the cursor and advances it by
//! the 8-pixel column width.  The cursor is never clamped to the canvas:
//! once it runs past the visible area the per-point bounds checks drop the
//! glyph pixels, but the cursor keeps advancing.

use vstd::prelude::*;
use crate::canvas::{Canvas, painted};
use crate::font::{glyph_cover, lookup_glyph_spec};

verus! {

/// The cursor after one character: a line feed resets the column and
/// advances the row by the 16-pixel glyph height, anything else advances
/// the column by the 8-pixel glyph width.
pub open spec fn cursor_step(cx: int, cy: int, c: char) -> (int, int) {
    if c == '\n' {
        (0, cy + 16)
    } else {
        (cx + 8, cy)
    }
}

/// The cursor after a whole character sequence, starting from `(cx, cy)`.
pub open spec fn cursor_after(s: Seq<char>, cx: int, cy: int) -> (int, int)
    decreases s.len(),
{
    if s.len() == 0 {
        (cx, cy)
    } else {
        let step = cursor_step(cx, cy, s[0]);
        cursor_after(s.skip(1), step.0, step.1)
    }
}

/// Appending one character steps the cursor once more.
pub proof fn lemma_cursor_after_push(s: Seq<char>, cx: int, cy: int, c: char)
    ensures
        cursor_after(s.push(c), cx, cy) == cursor_step(
            cursor_after(s, cx, cy).0,
            cursor_after(s, cx, cy).1,
            c,
        ),
    decreases s.len(),
{
    if s.len() == 0 {
        let step = cursor_step(cx, cy, c);
        assert(s.push(c)[0] == c);
        assert(s.push(c).skip(1) =~= Seq::<char>::empty());
        assert(cursor_after(s.push(c), cx, cy) == cursor_after(s.push(c).skip(1), step.0, step.1));
        assert(cursor_after(Seq::<char>::empty(), step.0, step.1) == step);
    } else {
        assert(s.push(c)[0] == s[0]);
        assert(s.push(c).skip(1) =~= s.skip(1).push(c));
        let step = cursor_step(cx, cy, s[0]);
        lemma_cursor_after_push(s.skip(1), step.0, step.1, c);
    }
}

/// The cursor row never decreases and the column stays non-negative.
pub proof fn lemma_cursor_after_bounds(s: Seq<char>, cx: int, cy: int)
    requires
        0 <= cx,
        0 <= cy,
    ensures
        0 <= cursor_after(s, cx, cy).0 <= cx + 8 * s.len(),
        cy <= cursor_after(s, cx, cy).1 <= cy + 16 * s.len(),
    decreases s.len(),
{
    if s.len() > 0 {
        let step = cursor_step(cx, cy, s[0]);
        lemma_cursor_after_bounds(s.skip(1), step.0, step.1);
    }
}

/// Cover predicate for a character stream written from cursor `(cx, cy)`:
/// each non-line-feed character's glyph drawn at the cursor position it was
/// written under.
pub open spec fn text_cover(font: Seq<char>, s: Seq<char>, cx: int, cy: int) -> spec_fn(
    int,
    int,
) -> bool {
    |px: int, py: int|
        exists|i: int|
            0 <= i < s.len() && s[i] != '\n' && #[trigger] glyph_cover(
                font,
                s[i],
                cursor_after(s.take(i), cx, cy).0,
                cursor_after(s.take(i), cx, cy).1,
            )(px, py)
}

/// Cover predicate for the first `n` characters of the stream.
pub open spec fn text_prefix_cover(
    font: Seq<char>,
    s: Seq<char>,
    cx: int,
    cy: int,
    n: int,
) -> spec_fn(int, int) -> bool {
    |px: int, py: int|
        exists|i: int|
            0 <= i < n && i < s.len() && s[i] != '\n' && #[trigger] glyph_cover(
                font,
                s[i],
                cursor_after(s.take(i), cx, cy).0,
                cursor_after(s.take(i), cx, cy).1,
            )(px, py)
}

/// A text writer: the canvas it owns exclusively while writing, and the
/// cursor position in pixels.  The cursor starts at the origin and is never
/// clamped to the canvas bounds.
pub struct VramTextWriter {
    /// The canvas written into.
    pub vram: Canvas,
    /// Cursor column in pixels.
    pub cursor_x: i64,
    /// Cursor row in pixels.
    pub cursor_y: i64,
}

impl VramTextWriter {
    /// The cursor never goes negative.
    pub open spec fn wf(self) -> bool {
        &&& self.vram.wf()
        &&& 0 <= self.cursor_x
        &&& 0 <= self.cursor_y
    }

    /// Take exclusive hold of a canvas, with the cursor at the origin.
    pub fn new(vram: Canvas) -> (r: VramTextWriter)
        ensures
            r.vram == vram,
            r.cursor_x == 0,
            r.cursor_y == 0,
    {
        VramTextWriter { vram, cursor_x: 0, cursor_y: 0 }
    }

    /// Current cursor column in pixels.
    pub fn cursor_x(&self) -> (r: i64)
        ensures
            r == self.cursor_x,
    {
        self.cursor_x
    }

    /// Current cursor row in pixels.
    pub fn cursor_y(&self) -> (r: i64)
        ensures
            r == self.cursor_y,
    {
        self.cursor_y
    }

    /// Give the canvas back.
    pub fn into_vram(self) -> (r: Canvas)
        ensures
            r == self.vram,
    {
        self.vram
    }

    /// Write a character stream at the cursor in white.
    ///
    /// A line feed resets the column to zero and advances the row by 16;
    /// any other character is drawn at the cursor (out-of-range glyph
    /// pixels are silently dropped) and advances the column by 8.  The
    /// cursor afterwards is exactly [`cursor_after`] of the stream, and the
    /// canvas holds the old pixels with every covered glyph cell painted
    /// white.  The precondition only keeps the unclamped cursor arithmetic
    /// inside 64 bits.
    pub fn write_str(&mut self, font: &str, s: &str)
        requires
            old(self).wf(),
            old(self).cursor_x + 8 * s@.len() + 7 <= i64::MAX,
            old(self).cursor_y + 16 * s@.len() + 15 <= i64::MAX,
        ensures
            final(self).wf(),
            final(self).vram.same_geometry(old(self).vram),
            final(self).cursor_x == cursor_after(
                s@,
                old(self).cursor_x as int,
                old(self).cursor_y as int,
            ).0,
            final(self).cursor_y == cursor_after(
                s@,
                old(self).cursor_x as int,
                old(self).cursor_y as int,
            ).1,
            painted(
                old(self).vram,
                final(self).vram,
                text_cover(font@, s@, old(self).cursor_x as int, old(self).cursor_y as int),
                0xffffffu32,
            ),
    {
        let ghost c0 = self.vram;
        let ghost cx0 = self.cursor_x as int;
        let ghost cy0 = self.cursor_y as int;
        let n = s.unicode_len();
        let mut i: usize = 0;
        proof {
            crate::canvas::lemma_painted_refl(c0, text_prefix_cover(font@, s@, cx0, cy0, 0), 0xffffffu32);
            assert(s@.take(0) =~= Seq::<char>::empty());
        }
        while i < n
            invariant
                i <= n,
                n == s@.len(),
                c0.wf(),
                self.vram.wf(),
                self.vram.same_geometry(c0),
                0 <= cx0,
                0 <= cy0,
                cx0 + 8 * s@.len() + 7 <= i64::MAX,
                cy0 + 16 * s@.len() + 15 <= i64::MAX,
                self.cursor_x as int == cursor_after(s@.take(i as int), cx0, cy0).0,
                self.cursor_y as int == cursor_after(s@.take(i as int), cx0, cy0).1,
                painted(
                    c0,
                    self.vram,
                    text_prefix_cover(font@, s@, cx0, cy0, i as int),
                    0xffffffu32,
                ),
            decreases n - i,
        {
            let c = s.get_char(i);
            proof {
                lemma_cursor_after_bounds(s@.take(i as int), cx0, cy0);
                assert(s@.take(i as int).len() == i as int);
            }
            if c == '\n' {
                self.cursor_x = 0;
                self.cursor_y = self.cursor_y + 16;
                proof {
                    assert(s@.take(i + 1) =~= s@.take(i as int).push(c));
                    lemma_cursor_after_push(s@.take(i as int), cx0, cy0, c);
                    let a = text_prefix_cover(font@, s@, cx0, cy0, i as int);
                    let b = text_prefix_cover(font@, s@, cx0, cy0, i + 1);
                    assert forall|px: int, py: int| c0.in_x(px) && c0.in_y(py) implies (
                    #[trigger] a(px, py) <==> #[trigger] b(px, py)) by {
                        if a(px, py) {
                            let k = choose|k: int|
                                0 <= k < i && k < s@.len() && s@[k] != '\n' && #[trigger] glyph_cover(
                                    font@,
                                    s@[k],
                                    cursor_after(s@.take(k), cx0, cy0).0,
                                    cursor_after(s@.take(k), cx0, cy0).1,
                                )(px, py);
                            assert(0 <= k < i + 1);
                        }
                        if b(px, py) {
                            let k = choose|k: int|
                                0 <= k < i + 1 && k < s@.len() && s@[k] != '\n'
                                    && #[trigger] glyph_cover(
                                    font@,
                                    s@[k],
                                    cursor_after(s@.take(k), cx0, cy0).0,
                                    cursor_after(s@.take(k), cx0, cy0).1,
                                )(px, py);
                            assert(k != i);
                            assert(0 <= k < i);
                        }
                    }
                    crate::canvas::lemma_painted_ext(c0, self.vram, a, b, 0xffffffu32);
                }
            } else {
                let gx = self.cursor_x;
                let gy = self.cursor_y;
                let ghost c1 = self.vram;
                crate::font::draw_font_fg(&mut self.vram, font, gx, gy, 0xffffff, c);
                self.cursor_x = self.cursor_x + 8;
                proof {
                    assert(s@.take(i + 1) =~= s@.take(i as int).push(c));
                    lemma_cursor_after_push(s@.take(i as int), cx0, cy0, c);
                    crate::canvas::lemma_painted_trans(
                        c0,
                        c1,
                        self.vram,
                        text_prefix_cover(font@, s@, cx0, cy0, i as int),
                        glyph_cover(font@, c, gx as int, gy as int),
                        0xffffffu32,
                    );
                    let a = crate::canvas::union_cover(
                        text_prefix_cover(font@, s@, cx0, cy0, i as int),
                        glyph_cover(font@, c, gx as int, gy as int),
                    );
                    let b = text_prefix_cover(font@, s@, cx0, cy0, i + 1);
                    assert forall|px: int, py: int| c0.in_x(px) && c0.in_y(py) implies (
                    #[trigger] a(px, py) <==> #[trigger] b(px, py)) by {
                        if a(px, py) {
                            if text_prefix_cover(font@, s@, cx0, cy0, i as int)(px, py) {
                                let k = choose|k: int|
                                    0 <= k < i && k < s@.len() && s@[k] != '\n'
                                        && #[trigger] glyph_cover(
                                        font@,
                                        s@[k],
                                        cursor_after(s@.take(k), cx0, cy0).0,
                                        cursor_after(s@.take(k), cx0, cy0).1,
                                    )(px, py);
                                assert(0 <= k < i + 1);
                            } else {
                                assert(s@[i as int] == c && c != '\n');
                                assert(glyph_cover(
                                    font@,
                                    s@[i as int],
                                    cursor_after(s@.take(i as int), cx0, cy0).0,
                                    cursor_after(s@.take(i as int), cx0, cy0).1,
                                )(px, py));
                            }
                        }
                        if b(px, py) {
                            let k = choose|k: int|
                                0 <= k < i + 1 && k < s@.len() && s@[k] != '\n'
                                    && #[trigger] glyph_cover(
                                    font@,
                                    s@[k],
                                    cursor_after(s@.take(k), cx0, cy0).0,
                                    cursor_after(s@.take(k), cx0, cy0).1,
                                )(px, py);
                            if k == i {
                                assert(glyph_cover(font@, c, gx as int, gy as int)(px, py));
                            } else {
                                assert(text_prefix_cover(font@, s@, cx0, cy0, i as int)(px, py));
                            }
                        }
                    }
                    crate::canvas::lemma_painted_ext(c0, self.vram, a, b, 0xffffffu32);
                }
            }
            i = i + 1;
        }
        proof {
            assert(s@.take(n as int) =~= s@);
            lemma_cursor_after_bounds(s@, cx0, cy0);
            let a = text_prefix_cover(font@, s@, cx0, cy0, n as int);
            let b = text_cover(font@, s@, cx0, cy0);
            assert forall|px: int, py: int| c0.in_x(px) && c0.in_y(py) implies (#[trigger] a(
                px,
                py,
            ) <==> #[trigger] b(px, py)) by {
                if a(px, py) {
                    let k = choose|k: int|
                        0 <= k < n && k < s@.len() && s@[k] != '\n' && #[trigger] glyph_cover(
                            font@,
                            s@[k],
                            cursor_after(s@.take(k), cx0, cy0).0,
                            cursor_after(s@.take(k), cx0, cy0).1,
                        )(px, py);
                    assert(glyph_cover(
                        font@,
                        s@[k],
                        cursor_after(s@.take(k), cx0, cy0).0,
                        cursor_after(s@.take(k), cx0, cy0).1,
                    )(px, py));
                }
                if b(px, py) {
                    let k = choose|k: int|
                        0 <= k < s@.len() && s@[k] != '\n' && #[trigger] glyph_cover(
                            font@,
                            s@[k],
                            cursor_after(s@.take(k), cx0, cy0).0,
                            cursor_after(s@.take(k), cx0, cy0).1,
                        )(px, py);
                    assert(0 <= k < n);
                }
            }
            crate::canvas::lemma_painted_ext(c0, self.vram, a, b, 0xffffffu32);
        }
    }
}

} // verus!
