//! Pixel-level rules of the Office canvas: the two colour palettes, the
//! per-frame sprite offsets, the 3x5 bitmap font, and where a speech bubble
//! goes. The drawing itself is done by the window.

use vstd::prelude::*;
use crate::layout::ROOM_W;
use crate::office::AnimState;
use crate::text::{chars_of, owned, str_eq};

verus! {

/// Colours of the Office canvas.
#[derive(Debug)]
pub struct Palette {
    pub floor: String,
    pub floor_alt: String,
    pub wall: String,
    pub wall_top: String,
    pub desk: String,
    pub desk_edge: String,
    pub screen: String,
    pub working: String,
    pub waiting: String,
    pub error: String,
    pub muted: String,
}

/// The colours of a palette, in field order.
pub open spec fn palette_colors(p: Palette) -> Seq<Seq<char>> {
    seq![
        p.floor@,
        p.floor_alt@,
        p.wall@,
        p.wall_top@,
        p.desk@,
        p.desk_edge@,
        p.screen@,
        p.working@,
        p.waiting@,
        p.error@,
        p.muted@,
    ]
}

pub open spec fn dark_colors() -> Seq<Seq<char>> {
    seq![
        "#1a2240"@,
        "#15193a"@,
        "#0d1428"@,
        "#222a4c"@,
        "#3a3530"@,
        "#231f1c"@,
        "#5cd5ff"@,
        "#4ade80"@,
        "#facc15"@,
        "#ff6b6b"@,
        "#7d87a8"@,
    ]
}

pub open spec fn light_colors() -> Seq<Seq<char>> {
    seq![
        "#e8ecf6"@,
        "#dde2ef"@,
        "#f3f5fb"@,
        "#c9d0e2"@,
        "#b9886a"@,
        "#7a5a44"@,
        "#1296c7"@,
        "#15803d"@,
        "#a16207"@,
        "#b91c1c"@,
        "#6b7280"@,
    ]
}

impl Palette {
    pub fn dark() -> (r: Palette)
        ensures
            palette_colors(r) == dark_colors(),
    {
        let p = Palette {
            floor: owned("#1a2240"),
            floor_alt: owned("#15193a"),
            wall: owned("#0d1428"),
            wall_top: owned("#222a4c"),
            desk: owned("#3a3530"),
            desk_edge: owned("#231f1c"),
            screen: owned("#5cd5ff"),
            working: owned("#4ade80"),
            waiting: owned("#facc15"),
            error: owned("#ff6b6b"),
            muted: owned("#7d87a8"),
        };
        assert(palette_colors(p) =~= dark_colors());
        p
    }

    pub fn light() -> (r: Palette)
        ensures
            palette_colors(r) == light_colors(),
    {
        let p = Palette {
            floor: owned("#e8ecf6"),
            floor_alt: owned("#dde2ef"),
            wall: owned("#f3f5fb"),
            wall_top: owned("#c9d0e2"),
            desk: owned("#b9886a"),
            desk_edge: owned("#7a5a44"),
            screen: owned("#1296c7"),
            working: owned("#15803d"),
            waiting: owned("#a16207"),
            error: owned("#b91c1c"),
            muted: owned("#6b7280"),
        };
        assert(palette_colors(p) =~= light_colors());
        p
    }

    /// The light palette for the theme "light", the dark one for any other.
    pub fn from_theme(theme: &str) -> (r: Palette)
        ensures
            palette_colors(r) == if theme@ == "light"@ {
                light_colors()
            } else {
                dark_colors()
            },
    {
        if str_eq(theme, "light") {
            Palette::light()
        } else {
            Palette::dark()
        }
    }
}

/// Pixel offset of frame `frame` of an animation: a bob, a sway or a
/// shake, repeating with the animation's frame count.
pub open spec fn frame_offset_of(anim: AnimState, frame: u32) -> (int, int) {
    match anim {
        AnimState::Idle => if frame % 2 == 0 { (0, 0) } else { (0, -1) },
        AnimState::Walk => if frame % 4 == 0 {
            (0, 0)
        } else if frame % 4 == 1 {
            (0, -1)
        } else if frame % 4 == 2 {
            (0, 0)
        } else {
            (0, 1)
        },
        AnimState::Typing => if frame % 4 == 0 {
            (-1, 0)
        } else if frame % 4 == 2 {
            (1, 0)
        } else {
            (0, 0)
        },
        AnimState::Reading => if frame % 2 == 0 { (-1, 0) } else { (1, 0) },
        AnimState::Running => if frame % 3 == 0 {
            (0, 0)
        } else if frame % 3 == 1 {
            (1, -1)
        } else {
            (-1, 1)
        },
        AnimState::Waiting => if frame % 2 == 0 { (0, 0) } else { (0, -1) },
        AnimState::Error => (0, 0),
    }
}

pub fn frame_offset(anim: AnimState, frame: u32) -> (r: (i32, i32))
    ensures
        (r.0 as int, r.1 as int) == frame_offset_of(anim, frame),
{
    match anim {
        AnimState::Idle => if frame % 2 == 0 { (0, 0) } else { (0, -1) },
        AnimState::Walk => match frame % 4 {
            0 => (0, 0),
            1 => (0, -1),
            2 => (0, 0),
            _ => (0, 1),
        },
        AnimState::Typing => match frame % 4 {
            0 => (-1, 0),
            1 => (0, 0),
            2 => (1, 0),
            _ => (0, 0),
        },
        AnimState::Reading => if frame % 2 == 0 { (-1, 0) } else { (1, 0) },
        AnimState::Running => match frame % 3 {
            0 => (0, 0),
            1 => (1, -1),
            _ => (-1, 1),
        },
        AnimState::Waiting => if frame % 2 == 0 { (0, 0) } else { (0, -1) },
        AnimState::Error => (0, 0),
    }
}

/// Glyph width of the bitmap font, in pixels.
pub const FONT_W: i32 = 3;
/// Glyph height of the bitmap font, in pixels.
pub const FONT_H: i32 = 5;

/// Width of `n` characters of the bitmap font: one pixel between glyphs,
/// none after the last.
pub open spec fn text_width(n: nat) -> int {
    if n == 0 {
        0
    } else {
        n * (FONT_W + 1) - 1
    }
}

pub fn bitmap_text_width(text: &str) -> (r: i32)
    requires
        4 * text@.len() <= i32::MAX,
    ensures
        r == text_width(text@.len()),
{
    let cs = chars_of(text);
    assert(cs@.len() == cs.len());
    let n = cs.len() as i32;
    if n == 0 {
        0
    } else {
        assert(FONT_W + 1 == 4);
        assert(n * 4 <= i32::MAX);
        n * (FONT_W + 1) - 1
    }
}

/// The rows of a glyph, top first; bit 2 is the left pixel. Characters
/// without a glyph are blank.
pub open spec fn glyph_rows(c: char) -> Seq<u8> {
    match c {
        'A' => seq![0b010, 0b101, 0b111, 0b101, 0b101],
        'B' => seq![0b110, 0b101, 0b110, 0b101, 0b110],
        'C' => seq![0b011, 0b100, 0b100, 0b100, 0b011],
        'D' => seq![0b110, 0b101, 0b101, 0b101, 0b110],
        'E' => seq![0b111, 0b100, 0b110, 0b100, 0b111],
        'F' => seq![0b111, 0b100, 0b110, 0b100, 0b100],
        'G' => seq![0b011, 0b100, 0b101, 0b101, 0b011],
        'H' => seq![0b101, 0b101, 0b111, 0b101, 0b101],
        'I' => seq![0b111, 0b010, 0b010, 0b010, 0b111],
        'J' => seq![0b001, 0b001, 0b001, 0b101, 0b010],
        'K' => seq![0b101, 0b110, 0b100, 0b110, 0b101],
        'L' => seq![0b100, 0b100, 0b100, 0b100, 0b111],
        'M' => seq![0b101, 0b111, 0b111, 0b101, 0b101],
        'N' => seq![0b101, 0b111, 0b111, 0b111, 0b101],
        'O' => seq![0b010, 0b101, 0b101, 0b101, 0b010],
        'P' => seq![0b110, 0b101, 0b110, 0b100, 0b100],
        'Q' => seq![0b010, 0b101, 0b101, 0b111, 0b011],
        'R' => seq![0b110, 0b101, 0b110, 0b110, 0b101],
        'S' => seq![0b011, 0b100, 0b010, 0b001, 0b110],
        'T' => seq![0b111, 0b010, 0b010, 0b010, 0b010],
        'U' => seq![0b101, 0b101, 0b101, 0b101, 0b011],
        'V' => seq![0b101, 0b101, 0b101, 0b101, 0b010],
        'W' => seq![0b101, 0b101, 0b111, 0b111, 0b101],
        'X' => seq![0b101, 0b101, 0b010, 0b101, 0b101],
        'Y' => seq![0b101, 0b101, 0b010, 0b010, 0b010],
        'Z' => seq![0b111, 0b001, 0b010, 0b100, 0b111],
        'a' => seq![0b000, 0b011, 0b101, 0b101, 0b011],
        'b' => seq![0b100, 0b100, 0b110, 0b101, 0b110],
        'c' => seq![0b000, 0b011, 0b100, 0b100, 0b011],
        'd' => seq![0b001, 0b001, 0b011, 0b101, 0b011],
        'e' => seq![0b000, 0b010, 0b111, 0b100, 0b011],
        'f' => seq![0b011, 0b010, 0b111, 0b010, 0b010],
        'g' => seq![0b000, 0b011, 0b101, 0b011, 0b110],
        'h' => seq![0b100, 0b100, 0b110, 0b101, 0b101],
        'i' => seq![0b010, 0b000, 0b010, 0b010, 0b010],
        'j' => seq![0b001, 0b000, 0b001, 0b001, 0b110],
        'k' => seq![0b100, 0b100, 0b101, 0b110, 0b101],
        'l' => seq![0b110, 0b010, 0b010, 0b010, 0b111],
        'm' => seq![0b000, 0b110, 0b111, 0b101, 0b101],
        'n' => seq![0b000, 0b110, 0b101, 0b101, 0b101],
        'o' => seq![0b000, 0b010, 0b101, 0b101, 0b010],
        'p' => seq![0b000, 0b110, 0b101, 0b110, 0b100],
        'q' => seq![0b000, 0b011, 0b101, 0b011, 0b001],
        'r' => seq![0b000, 0b110, 0b101, 0b100, 0b100],
        's' => seq![0b000, 0b011, 0b110, 0b011, 0b110],
        't' => seq![0b010, 0b111, 0b010, 0b010, 0b011],
        'u' => seq![0b000, 0b101, 0b101, 0b101, 0b011],
        'v' => seq![0b000, 0b101, 0b101, 0b101, 0b010],
        'w' => seq![0b000, 0b101, 0b101, 0b111, 0b101],
        'x' => seq![0b000, 0b101, 0b010, 0b010, 0b101],
        'y' => seq![0b000, 0b101, 0b101, 0b011, 0b110],
        'z' => seq![0b000, 0b111, 0b010, 0b100, 0b111],
        '0' => seq![0b010, 0b101, 0b101, 0b101, 0b010],
        '1' => seq![0b010, 0b110, 0b010, 0b010, 0b111],
        '2' => seq![0b110, 0b001, 0b010, 0b100, 0b111],
        '3' => seq![0b110, 0b001, 0b010, 0b001, 0b110],
        '4' => seq![0b101, 0b101, 0b111, 0b001, 0b001],
        '5' => seq![0b111, 0b100, 0b110, 0b001, 0b110],
        '6' => seq![0b011, 0b100, 0b110, 0b101, 0b010],
        '7' => seq![0b111, 0b001, 0b010, 0b010, 0b010],
        '8' => seq![0b010, 0b101, 0b010, 0b101, 0b010],
        '9' => seq![0b010, 0b101, 0b011, 0b001, 0b110],
        '.' => seq![0b000, 0b000, 0b000, 0b000, 0b010],
        '!' => seq![0b010, 0b010, 0b010, 0b000, 0b010],
        '?' => seq![0b110, 0b001, 0b010, 0b000, 0b010],
        '-' => seq![0b000, 0b000, 0b111, 0b000, 0b000],
        ':' => seq![0b000, 0b010, 0b000, 0b010, 0b000],
        _ => seq![0u8, 0u8, 0u8, 0u8, 0u8],
    }
}

pub fn glyph(c: char) -> (r: [u8; 5])
    ensures
        r@ == glyph_rows(c),
{
    let g: [u8; 5] = match c {
        'A' => [0b010, 0b101, 0b111, 0b101, 0b101],
        'B' => [0b110, 0b101, 0b110, 0b101, 0b110],
        'C' => [0b011, 0b100, 0b100, 0b100, 0b011],
        'D' => [0b110, 0b101, 0b101, 0b101, 0b110],
        'E' => [0b111, 0b100, 0b110, 0b100, 0b111],
        'F' => [0b111, 0b100, 0b110, 0b100, 0b100],
        'G' => [0b011, 0b100, 0b101, 0b101, 0b011],
        'H' => [0b101, 0b101, 0b111, 0b101, 0b101],
        'I' => [0b111, 0b010, 0b010, 0b010, 0b111],
        'J' => [0b001, 0b001, 0b001, 0b101, 0b010],
        'K' => [0b101, 0b110, 0b100, 0b110, 0b101],
        'L' => [0b100, 0b100, 0b100, 0b100, 0b111],
        'M' => [0b101, 0b111, 0b111, 0b101, 0b101],
        'N' => [0b101, 0b111, 0b111, 0b111, 0b101],
        'O' => [0b010, 0b101, 0b101, 0b101, 0b010],
        'P' => [0b110, 0b101, 0b110, 0b100, 0b100],
        'Q' => [0b010, 0b101, 0b101, 0b111, 0b011],
        'R' => [0b110, 0b101, 0b110, 0b110, 0b101],
        'S' => [0b011, 0b100, 0b010, 0b001, 0b110],
        'T' => [0b111, 0b010, 0b010, 0b010, 0b010],
        'U' => [0b101, 0b101, 0b101, 0b101, 0b011],
        'V' => [0b101, 0b101, 0b101, 0b101, 0b010],
        'W' => [0b101, 0b101, 0b111, 0b111, 0b101],
        'X' => [0b101, 0b101, 0b010, 0b101, 0b101],
        'Y' => [0b101, 0b101, 0b010, 0b010, 0b010],
        'Z' => [0b111, 0b001, 0b010, 0b100, 0b111],
        'a' => [0b000, 0b011, 0b101, 0b101, 0b011],
        'b' => [0b100, 0b100, 0b110, 0b101, 0b110],
        'c' => [0b000, 0b011, 0b100, 0b100, 0b011],
        'd' => [0b001, 0b001, 0b011, 0b101, 0b011],
        'e' => [0b000, 0b010, 0b111, 0b100, 0b011],
        'f' => [0b011, 0b010, 0b111, 0b010, 0b010],
        'g' => [0b000, 0b011, 0b101, 0b011, 0b110],
        'h' => [0b100, 0b100, 0b110, 0b101, 0b101],
        'i' => [0b010, 0b000, 0b010, 0b010, 0b010],
        'j' => [0b001, 0b000, 0b001, 0b001, 0b110],
        'k' => [0b100, 0b100, 0b101, 0b110, 0b101],
        'l' => [0b110, 0b010, 0b010, 0b010, 0b111],
        'm' => [0b000, 0b110, 0b111, 0b101, 0b101],
        'n' => [0b000, 0b110, 0b101, 0b101, 0b101],
        'o' => [0b000, 0b010, 0b101, 0b101, 0b010],
        'p' => [0b000, 0b110, 0b101, 0b110, 0b100],
        'q' => [0b000, 0b011, 0b101, 0b011, 0b001],
        'r' => [0b000, 0b110, 0b101, 0b100, 0b100],
        's' => [0b000, 0b011, 0b110, 0b011, 0b110],
        't' => [0b010, 0b111, 0b010, 0b010, 0b011],
        'u' => [0b000, 0b101, 0b101, 0b101, 0b011],
        'v' => [0b000, 0b101, 0b101, 0b101, 0b010],
        'w' => [0b000, 0b101, 0b101, 0b111, 0b101],
        'x' => [0b000, 0b101, 0b010, 0b010, 0b101],
        'y' => [0b000, 0b101, 0b101, 0b011, 0b110],
        'z' => [0b000, 0b111, 0b010, 0b100, 0b111],
        '0' => [0b010, 0b101, 0b101, 0b101, 0b010],
        '1' => [0b010, 0b110, 0b010, 0b010, 0b111],
        '2' => [0b110, 0b001, 0b010, 0b100, 0b111],
        '3' => [0b110, 0b001, 0b010, 0b001, 0b110],
        '4' => [0b101, 0b101, 0b111, 0b001, 0b001],
        '5' => [0b111, 0b100, 0b110, 0b001, 0b110],
        '6' => [0b011, 0b100, 0b110, 0b101, 0b010],
        '7' => [0b111, 0b001, 0b010, 0b010, 0b010],
        '8' => [0b010, 0b101, 0b010, 0b101, 0b010],
        '9' => [0b010, 0b101, 0b011, 0b001, 0b110],
        '.' => [0b000, 0b000, 0b000, 0b000, 0b010],
        '!' => [0b010, 0b010, 0b010, 0b000, 0b010],
        '?' => [0b110, 0b001, 0b010, 0b000, 0b010],
        '-' => [0b000, 0b000, 0b111, 0b000, 0b000],
        ':' => [0b000, 0b010, 0b000, 0b010, 0b000],
        _ => [0, 0, 0, 0, 0],
    };
    assert(g@ =~= glyph_rows(c));
    g
}

/// Where a speech bubble is drawn.
#[derive(Clone, Copy, Debug, PartialEq, Eq, Structural)]
pub struct Bubble {
    pub x: i32,
    pub y: i32,
    pub w: i32,
    pub h: i32,
    /// Left edge of the 2-pixel pointer under the bubble.
    pub nub_x: i32,
}

/// The bubble for a text of width `text_w` whose bottom sits above
/// (`anchor_x`, `anchor_y`): centred on `anchor_x` with 2 pixels of padding,
/// kept one pixel inside the room's left and right walls (the right wall
/// winning in a room too narrow), its pointer under the anchor but within
/// the body.
pub open spec fn bubble_of(anchor_x: int, anchor_y: int, text_w: int) -> (int, int, int, int, int) {
    let w = text_w + 4;
    let h = FONT_H + 4;
    let x0 = anchor_x - w / 2;
    let x1 = if x0 < 1 { 1 } else { x0 };
    let x = if x1 + w > ROOM_W - 1 { ROOM_W - 1 - w } else { x1 };
    let y = anchor_y - h - 2;
    let nub = if anchor_x - 1 < x + 1 {
        x + 1
    } else if anchor_x - 1 > x + w - 3 {
        x + w - 3
    } else {
        anchor_x - 1
    };
    (x, y, w, h, nub)
}

pub fn bubble_layout(anchor_x: i32, anchor_y: i32, text_w: i32) -> (r: Bubble)
    requires
        0 <= text_w <= i32::MAX - 4,
        anchor_x - (text_w + 4) / 2 >= i32::MIN,
        (if anchor_x - (text_w + 4) / 2 < 1 {
            1
        } else {
            anchor_x - (text_w + 4) / 2
        }) + text_w + 4 <= i32::MAX,
        anchor_y - (FONT_H + 4) - 2 >= i32::MIN,
    ensures
        (r.x as int, r.y as int, r.w as int, r.h as int, r.nub_x as int) == bubble_of(
            anchor_x as int,
            anchor_y as int,
            text_w as int,
        ),
{
    let w = text_w + 4;
    let h = FONT_H + 4;
    let mut x = anchor_x - w / 2;
    if x < 1 {
        x = 1;
    }
    if x + w > ROOM_W - 1 {
        x = ROOM_W - 1 - w;
    }
    let y = anchor_y - h - 2;
    let want = anchor_x - 1;
    let nub = if want < x + 1 {
        x + 1
    } else if want > x + w - 3 {
        x + w - 3
    } else {
        want
    };
    Bubble { x, y, w, h, nub_x: nub }
}


// ---------------------------------------------------------------- text pixels

/// Whether column `col` (0 is the left) of a glyph row is lit.
pub open spec fn lit(bits: u8, col: int) -> bool {
    if col == 0 {
        bits & 4 != 0
    } else if col == 1 {
        bits & 2 != 0
    } else {
        bits & 1 != 0
    }
}

/// The lit pixels of the first `n` columns of a glyph row drawn at
/// (`cx`, `y`), left to right.
pub open spec fn row_pixels(bits: u8, cx: int, y: int, n: int) -> Seq<(int, int)>
    decreases n,
{
    if n <= 0 {
        Seq::empty()
    } else {
        row_pixels(bits, cx, y, n - 1) + if lit(bits, n - 1) {
            seq![(cx + n - 1, y)]
        } else {
            Seq::empty()
        }
    }
}

/// The lit pixels of the first `m` rows of a glyph drawn at (`cx`, `y`),
/// top to bottom.
pub open spec fn glyph_pixels(rows: Seq<u8>, cx: int, y: int, m: int) -> Seq<(int, int)>
    decreases m,
{
    if m <= 0 {
        Seq::empty()
    } else {
        glyph_pixels(rows, cx, y, m - 1) + row_pixels(rows[m - 1], cx, y + m - 1, FONT_W as int)
    }
}

/// The pixels the bitmap font lights for `s` drawn with its top-left at
/// (`x`, `y`): glyph after glyph, one blank column between them.
pub open spec fn text_pixels_of(s: Seq<char>, x: int, y: int) -> Seq<(int, int)>
    decreases s.len(),
{
    if s.len() == 0 {
        Seq::empty()
    } else {
        text_pixels_of(s.drop_last(), x, y) + glyph_pixels(
            glyph_rows(s.last()),
            x + (s.len() - 1) * (FONT_W + 1),
            y,
            FONT_H as int,
        )
    }
}

pub open spec fn int_points(v: Seq<(i32, i32)>) -> Seq<(int, int)> {
    v.map_values(|p: (i32, i32)| (p.0 as int, p.1 as int))
}

/// The pixels to light for `text` drawn with its top-left at (`x`, `y`),
/// in drawing order.
pub fn text_pixels(text: &str, x: i32, y: i32) -> (r: Vec<(i32, i32)>)
    requires
        x + 4 * text@.len() <= i32::MAX,
        y + FONT_H <= i32::MAX,
    ensures
        int_points(r@) == text_pixels_of(text@, x as int, y as int),
{
    let cs = chars_of(text);
    let n = cs.len();
    let mut out: Vec<(i32, i32)> = Vec::new();
    let mut i: usize = 0;
    assert(int_points(out@) =~= Seq::<(int, int)>::empty());
    assert(cs@.take(0) =~= Seq::<char>::empty());
    while i < n
        invariant
            n == cs@.len(),
            cs@ == text@,
            i <= n,
            x + 4 * n <= i32::MAX,
            y + FONT_H <= i32::MAX,
            int_points(out@) == text_pixels_of(cs@.take(i as int), x as int, y as int),
        decreases n - i,
    {
        let g = glyph(cs[i]);
        assert(i * 4 <= 4 * n) by (nonlinear_arith)
            requires
                i <= n,
        ;
        let wide: i64 = (x as i64) + (i as i64) * 4;
        let cx: i32 = wide as i32;
        assert(cx == x + i * (FONT_W + 1));
        let ghost base = int_points(out@);
        let mut row: usize = 0;
        while row < 5
            invariant
                row <= 5,
                g@ == glyph_rows(cs@[i as int]),
                cx as int + 3 <= i32::MAX,
                y + FONT_H <= i32::MAX,
                int_points(out@) == base + glyph_pixels(g@, cx as int, y as int, row as int),
            decreases 5 - row,
        {
            let bits = g[row];
            let ghost before_row = int_points(out@);
            let mut col: usize = 0;
            while col < 3
                invariant
                    col <= 3,
                    row < 5,
                    bits == g@[row as int],
                    cx as int + 3 <= i32::MAX,
                    y + FONT_H <= i32::MAX,
                    int_points(out@) == before_row + row_pixels(bits, cx as int, y + row as int, col as int),
                decreases 3 - col,
            {
                let mask: u8 = if col == 0 {
                    4
                } else if col == 1 {
                    2
                } else {
                    1
                };
                let ghost prev = out@;
                if bits & mask != 0 {
                    out.push((cx + col as i32, y + row as i32));
                    assert(int_points(out@) =~= int_points(prev).push(((cx + col) as int, (y + row) as int)));
                } else {
                    assert(int_points(out@) =~= int_points(prev));
                }
                col += 1;
            }
            row += 1;
        }
        proof {
            let t = cs@.take(i + 1);
            assert(t.drop_last() =~= cs@.take(i as int));
            assert(t.last() == cs@[i as int]);
            assert(t.len() - 1 == i);
        }
        i += 1;
    }
    assert(cs@.take(n as int) =~= cs@);
    out
}

} // verus!
