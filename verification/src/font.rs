//! The bitmap font: glyph lookup in a textual font asset, and glyph and
//! string rendering on a canvas.
//!
//! The asset format is line oriented: a block starts with a line `0xHH`
//! (hexadecimal byte code) and is followed by up to sixteen lines of up to
//! eight characters each, where `*` marks a foreground pixel and anything
//! else background.  Cells that no asset character covers — short lines,
//! missing lines — count as foreground.  Lookup is a linear scan for the
//! first block whose code matches.

use vstd::prelude::*;
use crate::canvas::{Canvas, draw_point, painted};

verus! {

/// A hexadecimal digit, either case.
pub open spec fn is_hex_digit(c: char) -> bool {
    ('0' <= c && c <= '9') || ('a' <= c && c <= 'f') || ('A' <= c && c <= 'F')
}

/// Value of a hexadecimal digit.
pub open spec fn hex_digit_val(c: char) -> int {
    if '0' <= c && c <= '9' {
        c as int - 48
    } else if 'a' <= c && c <= 'f' {
        c as int - 87
    } else {
        c as int - 55
    }
}

/// Value of a string of hexadecimal digits, most significant first.
pub open spec fn hex_val(s: Seq<char>) -> int
    decreases s.len(),
{
    if s.len() == 0 {
        0
    } else {
        hex_val(s.drop_last()) * 16 + hex_digit_val(s.last())
    }
}

/// `s` parses as a byte written in hexadecimal: non-empty, hexadecimal
/// digits only, and a value that fits in eight bits.
pub open spec fn is_hex_u8(s: Seq<char>) -> bool {
    &&& s.len() >= 1
    &&& (forall|i: int| 0 <= i < s.len() ==> is_hex_digit(#[trigger] s[i]))
    &&& hex_val(s) <= 255
}

/// A string of hexadecimal digits has a non-negative value.
pub proof fn lemma_hex_val_nonneg(s: Seq<char>)
    requires
        forall|i: int| 0 <= i < s.len() ==> is_hex_digit(#[trigger] s[i]),
    ensures
        0 <= hex_val(s),
    decreases s.len(),
{
    if s.len() > 0 {
        lemma_hex_val_nonneg(s.drop_last());
    }
}

/// Index of the first line feed in `s`, or `s.len()` if there is none.
pub open spec fn first_newline(s: Seq<char>) -> nat
    decreases s.len(),
{
    if s.len() == 0 {
        0
    } else if s[0] == '\n' {
        0
    } else {
        1 + first_newline(s.skip(1))
    }
}

/// Characterization: a position with no line feed before it, holding a line
/// feed (or the end), is the first line feed.
pub proof fn lemma_first_newline_is(s: Seq<char>, k: int)
    requires
        0 <= k <= s.len(),
        forall|i: int| 0 <= i < k ==> s[i] != '\n',
        k < s.len() ==> s[k] == '\n',
    ensures
        first_newline(s) == k,
    decreases s.len(),
{
    if s.len() > 0 && s[0] != '\n' {
        assert forall|i: int| 0 <= i < k - 1 implies s.skip(1)[i] != '\n' by {
            assert(s[i + 1] != '\n');
        }
        assert(k - 1 < s.skip(1).len() ==> s.skip(1)[k - 1] == '\n');
        lemma_first_newline_is(s.skip(1), k - 1);
    }
}

/// The lines of `s`, split on line feeds exactly as the asset is read: a
/// trailing line feed yields a final empty line, and a text without any
/// line feed is one line.
pub open spec fn lines_of(s: Seq<char>) -> Seq<Seq<char>>
    decreases s.len(),
{
    let i = first_newline(s);
    if i >= s.len() {
        seq![s]
    } else {
        seq![s.take(i as int)] + lines_of(s.skip(i as int + 1))
    }
}

/// Splitting off one complete first line: if the first `k` characters hold
/// no line feed and a line feed follows them, the lines of `s` are that
/// prefix followed by the lines of what comes after the line feed.
pub proof fn lemma_lines_of_split(s: Seq<char>, k: int)
    requires
        0 <= k < s.len(),
        forall|i: int| 0 <= i < k ==> s[i] != '\n',
        s[k] == '\n',
    ensures
        lines_of(s) == seq![s.take(k)] + lines_of(s.skip(k + 1)),
{
    lemma_first_newline_is(s, k);
}

/// A text without line feeds is a single line.
pub proof fn lemma_lines_of_whole(s: Seq<char>)
    requires
        forall|i: int| 0 <= i < s.len() ==> s[i] != '\n',
    ensures
        lines_of(s) == seq![s],
{
    lemma_first_newline_is(s, s.len() as int);
}

/// Collect the characters of `s` into a vector.
pub fn str_to_chars(s: &str) -> (r: Vec<char>)
    ensures
        r@ == s@,
{
    let n = s.unicode_len();
    let mut r: Vec<char> = Vec::new();
    let mut i: usize = 0;
    while i < n
        invariant
            i <= n,
            n == s@.len(),
            r@ =~= s@.take(i as int),
        decreases n - i,
    {
        r.push(s.get_char(i));
        proof {
            assert(r@ =~= s@.take(i + 1));
        }
        i = i + 1;
    }
    proof {
        assert(s@.take(n as int) =~= s@);
    }
    r
}

/// Split `chars` into its lines, exactly as [`lines_of`] describes.
pub fn split_lines(chars: &Vec<char>) -> (r: Vec<Vec<char>>)
    ensures
        r@.len() == lines_of(chars@).len(),
        forall|i: int| 0 <= i < r@.len() ==> r@[i]@ == lines_of(chars@)[i],
{
    let n = chars.len();
    let mut lines: Vec<Vec<char>> = Vec::new();
    let mut cur: Vec<char> = Vec::new();
    let mut i: usize = 0;
    proof {
        assert((cur@ + chars@.skip(0)) =~= chars@);
        assert(Seq::new(lines@.len(), |k: int| lines@[k]@) + lines_of(chars@) =~= lines_of(
            chars@,
        ));
    }
    while i < n
        invariant
            i <= n,
            n == chars@.len(),
            forall|k: int| 0 <= k < cur@.len() ==> cur@[k] != '\n',
            lines_of(chars@) =~= Seq::new(lines@.len(), |k: int| lines@[k]@) + lines_of(
                cur@ + chars@.skip(i as int),
            ),
        decreases n - i,
    {
        let c = chars[i];
        let ghost rest = chars@.skip(i as int);
        let ghost done = Seq::new(lines@.len(), |k: int| lines@[k]@);
        let ghost cur0 = cur@;
        if c == '\n' {
            proof {
                let t = cur0 + rest;
                assert(t[cur0.len() as int] == '\n');
                assert forall|k: int| 0 <= k < cur0.len() implies t[k] != '\n' by {
                    assert(t[k] == cur0[k]);
                }
                lemma_lines_of_split(t, cur0.len() as int);
                assert(t.take(cur0.len() as int) =~= cur0);
                assert(t.skip(cur0.len() as int + 1) =~= chars@.skip(i + 1));
                assert(lines_of(t) == seq![cur0] + lines_of(chars@.skip(i + 1)));
            }
            lines.push(cur);
            cur = Vec::new();
            proof {
                assert(Seq::new(lines@.len(), |k: int| lines@[k]@) =~= done.push(cur0));
                assert((cur@ + chars@.skip(i + 1)) =~= chars@.skip(i + 1));
                assert(done + (seq![cur0] + lines_of(chars@.skip(i + 1))) =~= done.push(cur0)
                    + lines_of(chars@.skip(i + 1)));
            }
        } else {
            cur.push(c);
            proof {
                assert((cur0 + rest) =~= (cur@ + chars@.skip(i + 1)));
            }
        }
        i = i + 1;
    }
    proof {
        assert((cur@ + chars@.skip(n as int)) =~= cur@);
        lemma_lines_of_whole(cur@);
    }
    let ghost done = Seq::new(lines@.len(), |k: int| lines@[k]@);
    let ghost cur0 = cur@;
    lines.push(cur);
    proof {
        assert(Seq::new(lines@.len(), |k: int| lines@[k]@) =~= done.push(cur0));
        assert(done + seq![cur0] =~= done.push(cur0));
        assert(lines_of(chars@) =~= Seq::new(lines@.len(), |k: int| lines@[k]@));
    }
    lines
}

/// Parse the characters of `line` from position `from` on as a byte
/// written in hexadecimal.
pub fn parse_hex_byte(line: &Vec<char>, from: usize) -> (r: Option<u8>)
    requires
        from <= line@.len(),
    ensures
        r is Some <==> is_hex_u8(line@.skip(from as int)),
        r is Some ==> r->Some_0 as int == hex_val(line@.skip(from as int)),
{
    let ghost sub = line@.skip(from as int);
    let n = line.len();
    if from >= n {
        return None;
    }
    let mut v: u32 = 0;
    let mut i = from;
    proof {
        assert(sub.take(0) =~= Seq::<char>::empty());
    }
    while i < n
        invariant
            from <= i <= n,
            n == line@.len(),
            from < n,
            sub == line@.skip(from as int),
            forall|k: int| 0 <= k < i - from ==> is_hex_digit(#[trigger] sub[k]),
            hex_val(sub.take(i - from)) <= 255 ==> v == hex_val(sub.take(i - from)),
            hex_val(sub.take(i - from)) > 255 ==> v == 256,
            v <= 256,
        decreases n - i,
    {
        let c = line[i];
        let d: u32 = if '0' <= c && c <= '9' {
            c as u32 - 48
        } else if 'a' <= c && c <= 'f' {
            c as u32 - 87
        } else if 'A' <= c && c <= 'F' {
            c as u32 - 55
        } else {
            proof {
                assert(sub[i - from] == c);
                assert(!is_hex_digit(c));
            }
            return None;
        };
        proof {
            assert(sub[i - from] == c);
            assert(is_hex_digit(c));
            assert(d as int == hex_digit_val(c));
            let p = sub.take(i - from);
            let q = sub.take(i + 1 - from);
            assert(q.drop_last() =~= p);
            assert(q.last() == c);
            assert(hex_val(q) == hex_val(p) * 16 + hex_digit_val(c));
            assert forall|k: int| 0 <= k < p.len() implies is_hex_digit(#[trigger] p[k]) by {
                assert(p[k] == sub[k]);
            }
            lemma_hex_val_nonneg(p);
        }
        v = if v > 255 {
            256
        } else if v * 16 + d > 255 {
            256
        } else {
            v * 16 + d
        };
        i = i + 1;
    }
    proof {
        assert(sub.take(n - from) =~= sub);
    }
    if v <= 255 {
        Some(v as u8)
    } else {
        None
    }
}

/// `line` opens the glyph block for byte code `code`: the characters `0x`
/// followed by the code in hexadecimal.
pub open spec fn is_code_line(line: Seq<char>, code: int) -> bool {
    &&& line.len() >= 2
    &&& line[0] == '0'
    &&& line[1] == 'x'
    &&& is_hex_u8(line.skip(2))
    &&& hex_val(line.skip(2)) == code
}

/// Index of the first line opening the block for `code`, or `lines.len()`
/// if there is none: lookup is a linear scan for the first match.
pub open spec fn font_code_index(lines: Seq<Seq<char>>, code: int) -> nat
    decreases lines.len(),
{
    if lines.len() == 0 {
        0
    } else if is_code_line(lines[0], code) {
        0
    } else {
        1 + font_code_index(lines.skip(1), code)
    }
}

/// Characterization: a position with no code line before it, holding a code
/// line (or the end), is the first code line.
pub proof fn lemma_font_code_index_is(lines: Seq<Seq<char>>, code: int, k: int)
    requires
        0 <= k <= lines.len(),
        forall|i: int| 0 <= i < k ==> !is_code_line(#[trigger] lines[i], code),
        k < lines.len() ==> is_code_line(lines[k], code),
    ensures
        font_code_index(lines, code) == k,
    decreases lines.len(),
{
    if lines.len() > 0 && !is_code_line(lines[0], code) {
        assert forall|i: int| 0 <= i < k - 1 implies !is_code_line(
            #[trigger] lines.skip(1)[i],
            code,
        ) by {
            assert(lines.skip(1)[i] == lines[i + 1]);
        }
        assert(k - 1 < lines.skip(1).len() ==> is_code_line(lines.skip(1)[k - 1], code));
        lemma_font_code_index_is(lines.skip(1), code, k - 1);
    }
}

/// The 16 x 8 glyph grid taken from the lines that follow the code line at
/// index `i`: cell `(y, x)` is character `x` of line `i + 1 + y` where that
/// exists, and `*` (foreground) where the line is missing or too short.
pub open spec fn glyph_rows(lines: Seq<Seq<char>>, i: int) -> Seq<Seq<char>> {
    Seq::new(
        16,
        |y: int|
            Seq::new(
                8,
                |x: int|
                    if i + 1 + y < lines.len() && x < lines[i + 1 + y].len() {
                        lines[i + 1 + y][x]
                    } else {
                        '*'
                    },
            ),
    )
}

/// The glyph grid the font asset `font` defines for character `c`: none for
/// characters outside the single-byte range and for codes without a block,
/// the grid after the first matching code line otherwise.
pub open spec fn lookup_glyph_spec(font: Seq<char>, c: char) -> Option<Seq<Seq<char>>> {
    let lines = lines_of(font);
    let i = font_code_index(lines, c as int);
    if c as int <= 255 && i < lines.len() {
        Some(glyph_rows(lines, i as int))
    } else {
        None
    }
}

/// Look the character `c` up in the font asset `font`.
///
/// Exactly [`lookup_glyph_spec`]: no glyph for characters above the
/// single-byte range or without a matching `0xHH` block; otherwise the
/// 16 x 8 grid read from the block's following lines, with `*` standing for
/// a foreground cell.
pub fn lookup_font(font: &str, c: char) -> (r: Option<Vec<Vec<char>>>)
    ensures
        r is Some <==> lookup_glyph_spec(font@, c) is Some,
        r is Some ==> {
            let rows = lookup_glyph_spec(font@, c)->Some_0;
            &&& r->Some_0@.len() == 16
            &&& forall|y: int| 0 <= y < 16 ==> #[trigger] r->Some_0@[y]@ == rows[y]
        },
{
    let chars = str_to_chars(font);
    let lines = split_lines(&chars);
    let ghost ls = lines_of(font@);
    if c > '\u{ff}' {
        return None;
    }
    let code: u8 = c as u8;
    let nl = lines.len();
    let mut li: usize = 0;
    while li < nl
        invariant
            li <= nl,
            ls == lines_of(font@),
            nl == ls.len(),
            lines@.len() == ls.len(),
            forall|i: int| 0 <= i < ls.len() ==> #[trigger] lines@[i]@ == ls[i],
            code as int == c as int,
            c as int <= 255,
            forall|i: int| 0 <= i < li ==> !is_code_line(#[trigger] ls[i], c as int),
        decreases nl - li,
    {
        let line = &lines[li];
        let mut found = false;
        if line.len() >= 2 {
            let c0 = line[0];
            let c1 = line[1];
            if c0 == '0' && c1 == 'x' {
                match parse_hex_byte(line, 2) {
                    Some(v) => {
                        if v == code {
                            found = true;
                        }
                    },
                    None => {},
                }
            }
        }
        proof {
            assert(line@ == ls[li as int]);
            assert(found <==> is_code_line(ls[li as int], c as int));
        }
        if found {
            proof {
                lemma_font_code_index_is(ls, c as int, li as int);
            }
            let mut rows: Vec<Vec<char>> = Vec::new();
            let ghost grows = glyph_rows(ls, li as int);
            let mut y: usize = 0;
            while y < 16
                invariant
                    y <= 16,
                    li < nl,
                    ls == lines_of(font@),
                    c as int <= 255,
                    forall|i: int| 0 <= i < li ==> !is_code_line(#[trigger] ls[i], c as int),
                    is_code_line(ls[li as int], c as int),
                    nl == ls.len(),
                    lines@.len() == ls.len(),
                    forall|i: int| 0 <= i < ls.len() ==> #[trigger] lines@[i]@ == ls[i],
                    grows == glyph_rows(ls, li as int),
                    rows@.len() == y,
                    forall|i: int| 0 <= i < y ==> #[trigger] rows@[i]@ == grows[i],
                decreases 16 - y,
            {
                let mut row: Vec<char> = Vec::new();
                let remaining = nl - li - 1;
                let mut x: usize = 0;
                while x < 8
                    invariant
                        x <= 8,
                        y < 16,
                        li < nl,
                        ls == lines_of(font@),
                        c as int <= 255,
                        forall|i: int| 0 <= i < li ==> !is_code_line(#[trigger] ls[i], c as int),
                        is_code_line(ls[li as int], c as int),
                        remaining == nl - li - 1,
                        nl == ls.len(),
                        lines@.len() == ls.len(),
                        forall|i: int| 0 <= i < ls.len() ==> #[trigger] lines@[i]@ == ls[i],
                        grows == glyph_rows(ls, li as int),
                        row@.len() == x,
                        forall|k: int| 0 <= k < x ==> #[trigger] row@[k] == grows[y as int][k],
                    decreases 8 - x,
                {
                    let ch: char = if y < remaining {
                        let idx = li + 1 + y;
                        let gl = &lines[idx];
                        if x < gl.len() {
                            gl[x]
                        } else {
                            '*'
                        }
                    } else {
                        '*'
                    };
                    proof {
                        assert(ch == grows[y as int][x as int]);
                    }
                    row.push(ch);
                    x = x + 1;
                }
                proof {
                    assert(row@ =~= grows[y as int]);
                }
                rows.push(row);
                y = y + 1;
            }
            proof {
                lemma_font_code_index_is(ls, c as int, li as int);
                assert(lookup_glyph_spec(font@, c)->Some_0 == grows);
            }
            return Some(rows);
        }
        li = li + 1;
    }
    proof {
        lemma_font_code_index_is(ls, c as int, ls.len() as int);
    }
    None
}

/// Cover predicate for the foreground cells of the glyph of `c` drawn with
/// its top-left corner at `(x0, y0)`: the cells whose grid character is the
/// foreground sentinel `*`.  Covers nothing when `c` has no glyph.
pub open spec fn glyph_cover(font: Seq<char>, c: char, x0: int, y0: int) -> spec_fn(
    int,
    int,
) -> bool {
    |px: int, py: int|
        lookup_glyph_spec(font, c) is Some && (exists|dy: int, dx: int|
            0 <= dy < 16 && 0 <= dx < 8 && #[trigger] lookup_glyph_spec(
                font,
                c,
            )->Some_0[dy][dx] == '*' && px == x0 + dx && py == y0 + dy)
}

/// Cover predicate for the foreground cells among the first `n` glyph cells
/// in row-major order (the part a glyph draw has finished before cell `n`).
pub open spec fn glyph_prefix_cover(font: Seq<char>, c: char, x0: int, y0: int, n: int) -> spec_fn(
    int,
    int,
) -> bool {
    |px: int, py: int|
        lookup_glyph_spec(font, c) is Some && (exists|dy: int, dx: int|
            0 <= dy < 16 && 0 <= dx < 8 && dy * 8 + dx < n && #[trigger] lookup_glyph_spec(
                font,
                c,
            )->Some_0[dy][dx] == '*' && px == x0 + dx && py == y0 + dy)
}

/// Row-major cell numbering is one to one.
proof fn lemma_cell_index_unique(dy1: int, dx1: int, dy2: int, dx2: int)
    requires
        0 <= dx1 < 8,
        0 <= dx2 < 8,
        dy1 * 8 + dx1 == dy2 * 8 + dx2,
    ensures
        dy1 == dy2,
        dx1 == dx2,
{
}

/// Finishing glyph cell `(dy, dx)` — painted when it is foreground, added
/// for free when it lies out of range, untouched when background — extends
/// the finished prefix by one cell.
proof fn lemma_glyph_prefix_step(
    c0: Canvas,
    c2: Canvas,
    color: u32,
    font: Seq<char>,
    ch: char,
    x0: int,
    y0: int,
    dy: int,
    dx: int,
)
    requires
        0 <= dy < 16,
        0 <= dx < 8,
        lookup_glyph_spec(font, ch) is Some,
        lookup_glyph_spec(font, ch)->Some_0[dy][dx] == '*' ==> painted(
            c0,
            c2,
            crate::canvas::union_cover(
                glyph_prefix_cover(font, ch, x0, y0, dy * 8 + dx),
                crate::canvas::point_cover(x0 + dx, y0 + dy),
            ),
            color,
        ),
        lookup_glyph_spec(font, ch)->Some_0[dy][dx] != '*' ==> painted(
            c0,
            c2,
            glyph_prefix_cover(font, ch, x0, y0, dy * 8 + dx),
            color,
        ),
    ensures
        painted(c0, c2, glyph_prefix_cover(font, ch, x0, y0, dy * 8 + dx + 1), color),
{
    let n = dy * 8 + dx;
    let rows = lookup_glyph_spec(font, ch)->Some_0;
    let b = glyph_prefix_cover(font, ch, x0, y0, n + 1);
    if rows[dy][dx] == '*' {
        let a = crate::canvas::union_cover(
            glyph_prefix_cover(font, ch, x0, y0, n),
            crate::canvas::point_cover(x0 + dx, y0 + dy),
        );
        assert forall|px: int, py: int| c0.in_x(px) && c0.in_y(py) implies (#[trigger] a(px, py)
            <==> #[trigger] b(px, py)) by {
            if a(px, py) {
                if glyph_prefix_cover(font, ch, x0, y0, n)(px, py) {
                    let (ey, ex) = choose|ey: int, ex: int|
                        0 <= ey < 16 && 0 <= ex < 8 && ey * 8 + ex < n && #[trigger] rows[ey][ex]
                            == '*' && px == x0 + ex && py == y0 + ey;
                    assert(ey * 8 + ex < n + 1 && rows[ey][ex] == '*');
                } else {
                    assert(rows[dy][dx] == '*' && dy * 8 + dx < n + 1 && px == x0 + dx && py == y0
                        + dy);
                }
            }
            if b(px, py) {
                let (ey, ex) = choose|ey: int, ex: int|
                    0 <= ey < 16 && 0 <= ex < 8 && ey * 8 + ex < n + 1 && #[trigger] rows[ey][ex]
                        == '*' && px == x0 + ex && py == y0 + ey;
                if ey * 8 + ex < n {
                    assert(glyph_prefix_cover(font, ch, x0, y0, n)(px, py));
                } else {
                    lemma_cell_index_unique(ey, ex, dy, dx);
                    assert(crate::canvas::point_cover(x0 + dx, y0 + dy)(px, py));
                }
            }
        }
        crate::canvas::lemma_painted_ext(c0, c2, a, b, color);
    } else {
        let a = glyph_prefix_cover(font, ch, x0, y0, n);
        assert forall|px: int, py: int| c0.in_x(px) && c0.in_y(py) implies (#[trigger] a(px, py)
            <==> #[trigger] b(px, py)) by {
            if a(px, py) {
                let (ey, ex) = choose|ey: int, ex: int|
                    0 <= ey < 16 && 0 <= ex < 8 && ey * 8 + ex < n && #[trigger] rows[ey][ex]
                        == '*' && px == x0 + ex && py == y0 + ey;
                assert(ey * 8 + ex < n + 1 && rows[ey][ex] == '*');
            }
            if b(px, py) {
                let (ey, ex) = choose|ey: int, ex: int|
                    0 <= ey < 16 && 0 <= ex < 8 && ey * 8 + ex < n + 1 && #[trigger] rows[ey][ex]
                        == '*' && px == x0 + ex && py == y0 + ey;
                if ey * 8 + ex == n {
                    lemma_cell_index_unique(ey, ex, dy, dx);
                    assert(false);
                }
                assert(glyph_prefix_cover(font, ch, x0, y0, n)(px, py));
            }
        }
        crate::canvas::lemma_painted_ext(c0, c2, a, b, color);
    }
}

/// Draw the glyph of `c` with its top-left corner at `(x, y)`.
///
/// A character without a glyph draws nothing.  Otherwise every foreground
/// cell of the glyph is drawn as one point, and cells that fall outside the
/// canvas are silently skipped — afterwards exactly the in-range foreground
/// cells read `color` and everything else is unchanged.
pub fn draw_font_fg(canvas: &mut Canvas, font: &str, x: i64, y: i64, color: u32, c: char)
    requires
        old(canvas).wf(),
        x + 7 <= i64::MAX,
        y + 15 <= i64::MAX,
    ensures
        final(canvas).wf(),
        final(canvas).same_geometry(*old(canvas)),
        painted(
            *old(canvas),
            *final(canvas),
            glyph_cover(font@, c, x as int, y as int),
            color,
        ),
{
    let ghost c0 = *canvas;
    match lookup_font(font, c) {
        None => {
            proof {
                crate::canvas::lemma_painted_refl(
                    c0,
                    glyph_cover(font@, c, x as int, y as int),
                    color,
                );
            }
        },
        Some(rows) => {
            let ghost grows = lookup_glyph_spec(font@, c)->Some_0;
            let mut dy: usize = 0;
            proof {
                crate::canvas::lemma_painted_refl(
                    c0,
                    glyph_prefix_cover(font@, c, x as int, y as int, 0),
                    color,
                );
            }
            while dy < 16
                invariant
                    dy <= 16,
                    c0.wf(),
                    canvas.wf(),
                    canvas.same_geometry(c0),
                    x + 7 <= i64::MAX,
                    y + 15 <= i64::MAX,
                    lookup_glyph_spec(font@, c) is Some,
                    grows == lookup_glyph_spec(font@, c)->Some_0,
                    rows@.len() == 16,
                    forall|i: int| 0 <= i < 16 ==> #[trigger] rows@[i]@ == grows[i],
                    painted(
                        c0,
                        *canvas,
                        glyph_prefix_cover(font@, c, x as int, y as int, dy as int * 8),
                        color,
                    ),
                decreases 16 - dy,
            {
                let mut dx: usize = 0;
                while dx < 8
                    invariant
                        dy < 16,
                        dx <= 8,
                        c0.wf(),
                        canvas.wf(),
                        canvas.same_geometry(c0),
                        x + 7 <= i64::MAX,
                        y + 15 <= i64::MAX,
                        lookup_glyph_spec(font@, c) is Some,
                        grows == lookup_glyph_spec(font@, c)->Some_0,
                        rows@.len() == 16,
                        forall|i: int| 0 <= i < 16 ==> #[trigger] rows@[i]@ == grows[i],
                        painted(
                            c0,
                            *canvas,
                            glyph_prefix_cover(
                                font@,
                                c,
                                x as int,
                                y as int,
                                dy as int * 8 + dx as int,
                            ),
                            color,
                        ),
                    decreases 8 - dx,
                {
                    let ghost c1 = *canvas;
                    let cell = rows[dy][dx];
                    if cell == '*' {
                        let px = x + dx as i64;
                        let py = y + dy as i64;
                        let r = draw_point(canvas, color, px, py);
                        proof {
                            if r is Ok {
                                crate::canvas::lemma_painted_step(
                                    c0,
                                    c1,
                                    *canvas,
                                    glyph_prefix_cover(
                                        font@,
                                        c,
                                        x as int,
                                        y as int,
                                        dy as int * 8 + dx as int,
                                    ),
                                    color,
                                    px as int,
                                    py as int,
                                );
                            } else {
                                crate::canvas::lemma_painted_cover_outside(
                                    c0,
                                    *canvas,
                                    glyph_prefix_cover(
                                        font@,
                                        c,
                                        x as int,
                                        y as int,
                                        dy as int * 8 + dx as int,
                                    ),
                                    color,
                                    px as int,
                                    py as int,
                                );
                            }
                        }
                    }
                    proof {
                        assert(grows[dy as int][dx as int] == cell);
                        lemma_glyph_prefix_step(
                            c0,
                            *canvas,
                            color,
                            font@,
                            c,
                            x as int,
                            y as int,
                            dy as int,
                            dx as int,
                        );
                    }
                    dx = dx + 1;
                }
                dy = dy + 1;
            }
            proof {
                let a = glyph_prefix_cover(font@, c, x as int, y as int, 128);
                let b = glyph_cover(font@, c, x as int, y as int);
                assert forall|px: int, py: int| c0.in_x(px) && c0.in_y(py) implies (#[trigger] a(
                    px,
                    py,
                ) <==> #[trigger] b(px, py)) by {
                    if a(px, py) {
                        let (ey, ex) = choose|ey: int, ex: int|
                            0 <= ey < 16 && 0 <= ex < 8 && ey * 8 + ex < 128 && #[trigger] grows[ey][ex]
                                == '*' && px == x as int + ex && py == y as int + ey;
                        assert(grows[ey][ex] == '*');
                    }
                    if b(px, py) {
                        let (ey, ex) = choose|ey: int, ex: int|
                            0 <= ey < 16 && 0 <= ex < 8 && #[trigger] grows[ey][ex] == '*' && px
                                == x as int + ex && py == y as int + ey;
                        assert(ey * 8 + ex < 128);
                        assert(a(px, py));
                    }
                }
                crate::canvas::lemma_painted_ext(c0, *canvas, a, b, color);
            }
        },
    }
}

/// Cover predicate for a string drawn left to right from `(x0, y0)` with the
/// fixed eight-pixel column advance: the union of its characters' glyph
/// covers.
pub open spec fn str_cover(font: Seq<char>, s: Seq<char>, x0: int, y0: int) -> spec_fn(
    int,
    int,
) -> bool {
    |px: int, py: int|
        exists|i: int|
            0 <= i < s.len() && #[trigger] glyph_cover(font, s[i], x0 + 8 * i, y0)(px, py)
}

/// Cover predicate for the first `n` characters of the string.
pub open spec fn str_prefix_cover(font: Seq<char>, s: Seq<char>, x0: int, y0: int, n: int) -> spec_fn(
    int,
    int,
) -> bool {
    |px: int, py: int|
        exists|i: int|
            0 <= i < n && i < s.len() && #[trigger] glyph_cover(font, s[i], x0 + 8 * i, y0)(px, py)
}

/// Draw the characters of `s` left to right, the glyph of character `i` at
/// `(x + 8 * i, y)`: a plain horizontal string with no line handling and no
/// wrapping.  Characters without a glyph, and cells out of range, are
/// skipped; everything else is unchanged afterwards.
pub fn draw_str_fg(canvas: &mut Canvas, font: &str, x: i64, y: i64, color: u32, s: &str)
    requires
        old(canvas).wf(),
        8 * s@.len() <= i64::MAX,
        i64::MIN <= x + 8 * s@.len() + 7 <= i64::MAX,
        y + 15 <= i64::MAX,
    ensures
        final(canvas).wf(),
        final(canvas).same_geometry(*old(canvas)),
        painted(
            *old(canvas),
            *final(canvas),
            str_cover(font@, s@, x as int, y as int),
            color,
        ),
{
    let ghost c0 = *canvas;
    let n = s.unicode_len();
    let mut i: usize = 0;
    proof {
        crate::canvas::lemma_painted_refl(
            c0,
            str_prefix_cover(font@, s@, x as int, y as int, 0),
            color,
        );
    }
    while i < n
        invariant
            i <= n,
            n == s@.len(),
            c0.wf(),
            canvas.wf(),
            canvas.same_geometry(c0),
            8 * s@.len() <= i64::MAX,
            i64::MIN <= x + 8 * s@.len() + 7 <= i64::MAX,
            y + 15 <= i64::MAX,
            painted(
                c0,
                *canvas,
                str_prefix_cover(font@, s@, x as int, y as int, i as int),
                color,
            ),
        decreases n - i,
    {
        let c = s.get_char(i);
        let gx = x + (i as i64) * 8;
        let ghost c1 = *canvas;
        draw_font_fg(canvas, font, gx, y, color, c);
        proof {
            crate::canvas::lemma_painted_trans(
                c0,
                c1,
                *canvas,
                str_prefix_cover(font@, s@, x as int, y as int, i as int),
                glyph_cover(font@, c, gx as int, y as int),
                color,
            );
            let a = crate::canvas::union_cover(
                str_prefix_cover(font@, s@, x as int, y as int, i as int),
                glyph_cover(font@, c, gx as int, y as int),
            );
            let b = str_prefix_cover(font@, s@, x as int, y as int, i + 1);
            assert forall|px: int, py: int| c0.in_x(px) && c0.in_y(py) implies (#[trigger] a(
                px,
                py,
            ) <==> #[trigger] b(px, py)) by {
                if a(px, py) {
                    if str_prefix_cover(font@, s@, x as int, y as int, i as int)(px, py) {
                        let k = choose|k: int|
                            0 <= k < i && k < s@.len() && #[trigger] glyph_cover(
                                font@,
                                s@[k],
                                x as int + 8 * k,
                                y as int,
                            )(px, py);
                        assert(0 <= k < i + 1 && glyph_cover(font@, s@[k], x as int + 8 * k, y as int)(
                            px,
                            py,
                        ));
                    } else {
                        assert(glyph_cover(font@, s@[i as int], x as int + 8 * i, y as int)(px, py));
                    }
                }
                if b(px, py) {
                    let k = choose|k: int|
                        0 <= k < i + 1 && k < s@.len() && #[trigger] glyph_cover(
                            font@,
                            s@[k],
                            x as int + 8 * k,
                            y as int,
                        )(px, py);
                    if k < i {
                        assert(str_prefix_cover(font@, s@, x as int, y as int, i as int)(px, py));
                    } else {
                        assert(glyph_cover(font@, c, gx as int, y as int)(px, py));
                    }
                }
            }
            crate::canvas::lemma_painted_ext(c0, *canvas, a, b, color);
        }
        i = i + 1;
    }
    proof {
        let a = str_prefix_cover(font@, s@, x as int, y as int, n as int);
        let b = str_cover(font@, s@, x as int, y as int);
        assert forall|px: int, py: int| c0.in_x(px) && c0.in_y(py) implies (#[trigger] a(px, py)
            <==> #[trigger] b(px, py)) by {
            if a(px, py) {
                let k = choose|k: int|
                    0 <= k < n && k < s@.len() && #[trigger] glyph_cover(
                        font@,
                        s@[k],
                        x as int + 8 * k,
                        y as int,
                    )(px, py);
                assert(glyph_cover(font@, s@[k], x as int + 8 * k, y as int)(px, py));
            }
            if b(px, py) {
                let k = choose|k: int|
                    0 <= k < s@.len() && #[trigger] glyph_cover(
                        font@,
                        s@[k],
                        x as int + 8 * k,
                        y as int,
                    )(px, py);
                assert(0 <= k < n && k < s@.len() && glyph_cover(
                    font@,
                    s@[k],
                    x as int + 8 * k,
                    y as int,
                )(px, py));
            }
        }
        crate::canvas::lemma_painted_ext(c0, *canvas, a, b, color);
    }
}

} // verus!
