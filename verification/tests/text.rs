use bootgfx::canvas::Canvas;
use bootgfx::font::{draw_font_fg, draw_str_fg, lookup_font};
use bootgfx::writer::VramTextWriter;

const GLYPH_A: [&str; 16] = [
    "........",
    "...*....",
    "..*.*...",
    ".*...*..",
    ".*...*..",
    ".*****..",
    ".*...*..",
    ".*...*..",
    "........",
    "........",
    "........",
    "........",
    "........",
    "........",
    "........",
    "........",
];

const GLYPH_LOWER_A: [&str; 16] = [
    "........",
    "........",
    "........",
    "..***...",
    ".....*..",
    "..****..",
    ".*...*..",
    "..****..",
    "........",
    "........",
    "........",
    "........",
    "........",
    "........",
    "........",
    "........",
];

fn font_asset() -> String {
    let mut s = String::new();
    s.push_str("0x41\n");
    for row in GLYPH_A {
        s.push_str(row);
        s.push('\n');
    }
    s.push_str("0x61\n");
    for row in GLYPH_LOWER_A {
        s.push_str(row);
        s.push('\n');
    }
    s
}

fn grid_of(rows: [&str; 16]) -> Vec<Vec<char>> {
    rows.iter().map(|r| r.chars().collect()).collect()
}

#[test]
fn lookup_returns_grid_of_matching_block() {
    let font = font_asset();
    let grid = lookup_font(&font, 'A').expect("glyph for 0x41");
    assert_eq!(grid, grid_of(GLYPH_A));
    let grid = lookup_font(&font, 'a').expect("glyph for 0x61");
    assert_eq!(grid, grid_of(GLYPH_LOWER_A));
}

#[test]
fn lookup_outside_byte_range_is_none() {
    let font = font_asset();
    assert_eq!(lookup_font(&font, '\u{100}'), None);
    assert_eq!(lookup_font(&font, '\u{1f600}'), None);
}

#[test]
fn lookup_without_matching_block_is_none() {
    let font = font_asset();
    assert_eq!(lookup_font(&font, 'Z'), None);
    assert_eq!(lookup_font("", 'A'), None);
}

#[test]
fn lookup_fills_short_and_missing_lines_with_foreground() {
    let font = "0x42\n.*\n";
    let grid = lookup_font(font, 'B').expect("glyph for 0x42");
    assert_eq!(grid[0][0], '.');
    assert_eq!(grid[0][1], '*');
    assert_eq!(grid[0][2], '*');
    assert_eq!(grid[5][7], '*');
    assert_eq!(grid[15][0], '*');
}

#[test]
fn draw_font_draws_exactly_foreground_cells() {
    let font = font_asset();
    let mut c = Canvas::new(16, 16, 16);
    draw_font_fg(&mut c, &font, 0, 0, 0x00ffff, 'A');
    for dy in 0..16i64 {
        for dx in 0..8i64 {
            let fg = GLYPH_A[dy as usize].as_bytes()[dx as usize] == b'*';
            let expected = if fg { 0x00ffff } else { 0 };
            assert_eq!(c.get_pixel(dx, dy), Some(expected));
        }
    }
}

#[test]
fn draw_font_without_glyph_is_a_no_op() {
    let font = font_asset();
    let mut c = Canvas::new(16, 16, 16);
    draw_font_fg(&mut c, &font, 0, 0, 0xffffff, 'Z');
    for y in 0..16 {
        for x in 0..16 {
            assert_eq!(c.get_pixel(x, y), Some(0));
        }
    }
}

#[test]
fn draw_font_clips_cells_outside_the_canvas() {
    let font = font_asset();
    let mut c = Canvas::new(16, 16, 16);
    draw_font_fg(&mut c, &font, 12, 0, 0xffffff, 'A');
    // Column 3 of the glyph lands on x = 15 and is drawn; column 4 would be
    // x = 16 and is dropped.
    assert_eq!(c.get_pixel(15, 1), Some(0xffffff));
}

#[test]
fn draw_str_advances_eight_pixels_per_character() {
    let font = font_asset();
    let mut c = Canvas::new(32, 16, 32);
    draw_str_fg(&mut c, &font, 0, 0, 0xffffff, "AA");
    assert_eq!(c.get_pixel(3, 1), Some(0xffffff));
    assert_eq!(c.get_pixel(11, 1), Some(0xffffff));
    assert_eq!(c.get_pixel(19, 1), Some(0));
}

#[test]
fn writer_cursor_follows_advance_and_line_feed() {
    let c = Canvas::new(64, 64, 64);
    let mut w = VramTextWriter::new(c);
    assert_eq!((w.cursor_x(), w.cursor_y()), (0, 0));
    w.write_str("", "a");
    assert_eq!((w.cursor_x(), w.cursor_y()), (8, 0));
    w.write_str("", "\n");
    assert_eq!((w.cursor_x(), w.cursor_y()), (0, 16));
    w.write_str("", "b");
    assert_eq!((w.cursor_x(), w.cursor_y()), (8, 16));
}

#[test]
fn writer_whole_stream_matches_stepwise_cursor() {
    let c = Canvas::new(64, 64, 64);
    let mut w = VramTextWriter::new(c);
    w.write_str("", "a\nb");
    assert_eq!((w.cursor_x(), w.cursor_y()), (8, 16));
}

#[test]
fn writer_draws_glyphs_in_white_at_the_cursor() {
    let font = font_asset();
    let c = Canvas::new(64, 64, 64);
    let mut w = VramTextWriter::new(c);
    w.write_str(&font, "a\na");
    let c = w.into_vram();
    // Cell (3, 3) of the lower-case glyph is foreground.
    assert_eq!(c.get_pixel(3, 3), Some(0xffffff));
    assert_eq!(c.get_pixel(3, 19), Some(0xffffff));
    assert_eq!(c.get_pixel(0, 0), Some(0));
}

#[test]
fn writer_keeps_advancing_past_the_canvas() {
    let c = Canvas::new(16, 16, 16);
    let mut w = VramTextWriter::new(c);
    w.write_str("", "aaaa");
    assert_eq!((w.cursor_x(), w.cursor_y()), (32, 0));
}
