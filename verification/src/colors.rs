//! Colours of the terminal front-end.

use vstd::prelude::*;

use crate::rules::Risk;
use crate::text::{chars_of, contains, has, lowercase, to_lower};

verus! {

/// Red, green and blue.
pub type Rgb = (u8, u8, u8);

pub const BG: Rgb = (13, 15, 23);

pub const PANEL: Rgb = (19, 22, 33);

pub const BORDER: Rgb = (50, 56, 82);

pub const FG: Rgb = (224, 227, 238);

pub const DIM: Rgb = (122, 128, 152);

pub const FAINT: Rgb = (64, 69, 92);

pub const ACCENT: Rgb = (122, 200, 255);

pub const AMBER: Rgb = (255, 186, 48);

pub const DANGER: Rgb = (236, 76, 90);

pub const SEL_BG: Rgb = (36, 41, 64);

pub const SAFE: Rgb = (86, 222, 128);

pub const MODERATE: Rgb = (255, 150, 80);

pub const CAUTION: Rgb = (255, 92, 138);

/// Colour of a risk tier.
pub fn risk_rgb(r: Risk) -> (c: Rgb)
    ensures
        c == (match r {
            Risk::Safe => SAFE,
            Risk::Moderate => MODERATE,
            Risk::Caution => CAUTION,
        }),
{
    match r {
        Risk::Safe => SAFE,
        Risk::Moderate => MODERATE,
        Risk::Caution => CAUTION,
    }
}

/// The colour depth in use. It is set at most once and full until then.
pub struct Palette {
    pub chosen: Option<bool>,
}

/// A colour as the terminal is told it.
#[derive(Clone, Copy, Debug, PartialEq, Eq, Structural)]
pub enum Paint {
    Full(u8, u8, u8),
    Indexed(u8),
}

impl Palette {
    pub open spec fn full(&self) -> bool {
        match self.chosen {
            Some(on) => on,
            None => true,
        }
    }

    pub fn new() -> (r: Palette)
        ensures
            r.chosen is None,
    {
        Palette { chosen: None }
    }

    /// A colour in the depth in use.
    pub fn paint(&self, rgb: Rgb) -> (r: Paint)
        ensures
            r == (if self.full() {
                Paint::Full(rgb.0, rgb.1, rgb.2)
            } else {
                Paint::Indexed(indexed(rgb) as u8)
            }),
    {
        let full = match self.chosen {
            Some(on) => on,
            None => true,
        };
        if full {
            Paint::Full(rgb.0, rgb.1, rgb.2)
        } else {
            Paint::Indexed(to_256(rgb))
        }
    }
}

/// Choose full colours or 256 of them. The first choice stands.
pub fn set_truecolor(palette: &mut Palette, on: bool)
    ensures
        final(palette).chosen == Some(
            match old(palette).chosen {
                Some(was) => was,
                None => on,
            },
        ),
{
    if palette.chosen.is_none() {
        palette.chosen = Some(on);
    }
}

/// Truecolor if the terminal advertises it (`COLORTERM`), otherwise 256 colours.
pub fn detect_truecolor(colorterm: &str, term: &str) -> (r: bool)
    ensures
        r == (contains(lowercase(colorterm@), "truecolor"@) || contains(lowercase(colorterm@), "24bit"@) || contains(
            term@,
            "direct"@,
        )),
{
    let ct = to_lower(&chars_of(colorterm));
    let full = has(&ct, "truecolor");
    if full {
        return true;
    }
    let deep = has(&ct, "24bit");
    if deep {
        return true;
    }
    let t = chars_of(term);
    has(&t, "direct")
}

/// The steps of each channel in the 6x6x6 cube.
pub open spec fn level(i: int) -> int {
    if i == 0 {
        0
    } else {
        55 + 40 * i
    }
}

pub open spec fn apart(a: int, b: int) -> int {
    if a < b {
        b - a
    } else {
        a - b
    }
}

/// Of the steps up to `k`, the one closest to `v`; of two equally close ones
/// the lower.
pub open spec fn closest(v: int, k: int) -> int
    decreases k,
{
    if k <= 0 {
        0
    } else {
        let below = closest(v, k - 1);
        if apart(level(k), v) < apart(level(below), v) {
            k
        } else {
            below
        }
    }
}

/// The square of the distance of two colours.
pub open spec fn distance(a: (int, int, int), b: (int, int, int)) -> int {
    (a.0 - b.0) * (a.0 - b.0) + (a.1 - b.1) * (a.1 - b.1) + (a.2 - b.2) * (a.2 - b.2)
}

pub open spec fn channels(rgb: Rgb) -> (int, int, int) {
    (rgb.0 as int, rgb.1 as int, rgb.2 as int)
}

/// The colour of the cube closest to `rgb`, by its steps.
pub open spec fn cube_steps(rgb: Rgb) -> (int, int, int) {
    (closest(rgb.0 as int, 5), closest(rgb.1 as int, 5), closest(rgb.2 as int, 5))
}

/// The grey of step `g` of the ramp.
pub open spec fn grey(g: int) -> (int, int, int) {
    (8 + 10 * g, 8 + 10 * g, 8 + 10 * g)
}

/// Of the greys up to step `k`, the one closest to `rgb`; of two equally close
/// ones the darker.
pub open spec fn grey_step(rgb: Rgb, k: int) -> int
    decreases k,
{
    if k <= 0 {
        0
    } else {
        let below = grey_step(rgb, k - 1);
        if distance(grey(k), channels(rgb)) < distance(grey(below), channels(rgb)) {
            k
        } else {
            below
        }
    }
}

/// Colour number `q` of the cube or the grey ramp.
pub open spec fn palette(q: int) -> (int, int, int) {
    if q >= 232 {
        grey(q - 232)
    } else {
        (level((q - 16) / 36), level(((q - 16) / 6) % 6), level((q - 16) % 6))
    }
}

/// The number of the xterm colour for `rgb`.
pub open spec fn indexed(rgb: Rgb) -> int {
    let q = cube_steps(rgb);
    let g = grey_step(rgb, 23);
    if distance(grey(g), channels(rgb)) < distance((level(q.0), level(q.1), level(q.2)), channels(rgb)) {
        232 + g
    } else {
        16 + 36 * q.0 + 6 * q.1 + q.2
    }
}

fn step_value(i: i32) -> (r: i32)
    requires
        0 <= i <= 5,
    ensures
        r == level(i as int),
{
    if i == 0 {
        0
    } else {
        55 + 40 * i
    }
}

fn nearest(v: u8) -> (r: i32)
    ensures
        r == closest(v as int, 5),
        0 <= r <= 5,
{
    let mut best: i32 = 0;
    let mut k: i32 = 1;
    while k < 6
        invariant
            1 <= k <= 6,
            0 <= best < k,
            best == closest(v as int, k - 1),
        decreases 6 - k,
    {
        let a: i32 = step_value(k) - v as i32;
        let b: i32 = step_value(best) - v as i32;
        let da: i32 = if a < 0 {
            0 - a
        } else {
            a
        };
        let db: i32 = if b < 0 {
            0 - b
        } else {
            b
        };
        if da < db {
            best = k;
        }
        k += 1;
    }
    best
}

fn squared(a: i32, b: i32) -> (r: i32)
    requires
        0 <= a <= 255,
        0 <= b <= 255,
    ensures
        r == (a - b) * (a - b),
        0 <= r <= 65025,
{
    let d: i32 = a - b;
    assert(0 <= d * d <= 65025) by (nonlinear_arith)
        requires
            -255 <= d <= 255,
    ;
    d * d
}

fn grey_distance(g: i32, rgb: Rgb) -> (r: i32)
    requires
        0 <= g <= 23,
    ensures
        r == distance(grey(g as int), channels(rgb)),
{
    let v: i32 = 8 + 10 * g;
    squared(v, rgb.0 as i32) + squared(v, rgb.1 as i32) + squared(v, rgb.2 as i32)
}

fn nearest_grey(rgb: Rgb) -> (r: i32)
    ensures
        r == grey_step(rgb, 23),
        0 <= r <= 23,
{
    let mut best: i32 = 0;
    let mut k: i32 = 1;
    while k < 24
        invariant
            1 <= k <= 24,
            0 <= best < k,
            best == grey_step(rgb, k - 1),
        decreases 24 - k,
    {
        if grey_distance(k, rgb) < grey_distance(best, rgb) {
            best = k;
        }
        k += 1;
    }
    best
}

/// Nearest xterm-256 colour: the 6x6x6 cube or the 24-step grey ramp.
pub fn to_256(rgb: Rgb) -> (r: u8)
    ensures
        r == indexed(rgb),
        16 <= r,
        forall|q: int|
            16 <= q <= 255 ==> distance(palette(r as int), channels(rgb)) <= distance(#[trigger] palette(q), channels(rgb)),
{
    let (qr, qg, qb) = (nearest(rgb.0), nearest(rgb.1), nearest(rgb.2));
    let cube: i32 = squared(step_value(qr), rgb.0 as i32) + squared(step_value(qg), rgb.1 as i32) + squared(
        step_value(qb),
        rgb.2 as i32,
    );
    let g = nearest_grey(rgb);
    proof {
        assert forall|q: int| 16 <= q <= 255 implies distance(palette(indexed(rgb)), channels(rgb)) <= distance(
            #[trigger] palette(q),
            channels(rgb),
        ) by {
            law_indexed_colour_is_nearest(rgb, q);
        }
    }
    if grey_distance(g, rgb) < cube {
        (232 + g) as u8
    } else {
        (16 + 36 * qr + 6 * qg + qb) as u8
    }
}

proof fn lemma_closest(v: int, k: int, i: int)
    requires
        0 <= i <= k,
    ensures
        0 <= closest(v, k) <= k,
        apart(level(closest(v, k)), v) <= apart(level(i), v),
    decreases k,
{
    if k > 0 {
        if i < k {
            lemma_closest(v, k - 1, i);
        } else {
            lemma_closest(v, k - 1, 0);
        }
    }
}

/// No step of the cube is closer to a channel than the one chosen.
pub proof fn law_nearest_step_is_nearest(v: u8, i: int)
    requires
        0 <= i <= 5,
    ensures
        0 <= closest(v as int, 5) <= 5,
        apart(level(closest(v as int, 5)), v as int) <= apart(level(i), v as int),
{
    lemma_closest(v as int, 5, i);
}

proof fn lemma_grey_step(rgb: Rgb, k: int, i: int)
    requires
        0 <= i <= k,
    ensures
        0 <= grey_step(rgb, k) <= k,
        distance(grey(grey_step(rgb, k)), channels(rgb)) <= distance(grey(i), channels(rgb)),
    decreases k,
{
    if k > 0 {
        if i < k {
            lemma_grey_step(rgb, k - 1, i);
        } else {
            lemma_grey_step(rgb, k - 1, 0);
        }
    }
}

proof fn lemma_square_grows(a: int, b: int, v: int)
    requires
        apart(a, v) <= apart(b, v),
    ensures
        (a - v) * (a - v) <= (b - v) * (b - v),
{
    let (x, y) = (apart(a, v), apart(b, v));
    assert(x * x <= y * y) by (nonlinear_arith)
        requires
            0 <= x <= y,
    ;
    assert((a - v) * (a - v) == x * x) by (nonlinear_arith)
        requires
            x == a - v || x == v - a,
    ;
    assert((b - v) * (b - v) == y * y) by (nonlinear_arith)
        requires
            y == b - v || y == v - b,
    ;
}

proof fn lemma_cube_steps(rgb: Rgb, i: int, j: int, k: int)
    requires
        0 <= i <= 5,
        0 <= j <= 5,
        0 <= k <= 5,
    ensures
        0 <= cube_steps(rgb).0 <= 5,
        0 <= cube_steps(rgb).1 <= 5,
        0 <= cube_steps(rgb).2 <= 5,
        ({
            let c = cube_steps(rgb);
            distance((level(c.0), level(c.1), level(c.2)), channels(rgb)) <= distance(
                (level(i), level(j), level(k)),
                channels(rgb),
            )
        }),
{
    let c = cube_steps(rgb);
    lemma_closest(rgb.0 as int, 5, i);
    lemma_closest(rgb.1 as int, 5, j);
    lemma_closest(rgb.2 as int, 5, k);
    lemma_square_grows(level(c.0), level(i), rgb.0 as int);
    lemma_square_grows(level(c.1), level(j), rgb.1 as int);
    lemma_square_grows(level(c.2), level(k), rgb.2 as int);
}

proof fn lemma_cube_palette(i: int, j: int, k: int)
    requires
        0 <= i <= 5,
        0 <= j <= 5,
        0 <= k <= 5,
    ensures
        palette(16 + 36 * i + 6 * j + k) == (level(i), level(j), level(k)),
{
    let n = 36 * i + 6 * j + k;
    assert(n / 36 == i && n / 6 == 6 * i + j && (6 * i + j) % 6 == j && n % 6 == k);
}

/// No colour of the cube or the grey ramp is closer than the one chosen.
pub proof fn law_indexed_colour_is_nearest(rgb: Rgb, q: int)
    requires
        16 <= q <= 255,
    ensures
        16 <= indexed(rgb) <= 255,
        distance(palette(indexed(rgb)), channels(rgb)) <= distance(palette(q), channels(rgb)),
{
    let c = cube_steps(rgb);
    let g = grey_step(rgb, 23);
    if q >= 232 {
        lemma_grey_step(rgb, 23, q - 232);
        lemma_cube_steps(rgb, 0, 0, 0);
    } else {
        lemma_grey_step(rgb, 23, 0);
        lemma_cube_steps(rgb, (q - 16) / 36, ((q - 16) / 6) % 6, (q - 16) % 6);
    }
    lemma_cube_palette(c.0, c.1, c.2);
    assert(palette(232 + g) == grey(g));
}

/// A rectangle of terminal cells.
#[derive(Clone, Copy, Debug, PartialEq, Eq, Structural)]
pub struct Cells {
    pub x: u16,
    pub y: u16,
    pub width: u16,
    pub height: u16,
}

/// A box of at most `w` by `h` cells in the middle of `area`.
pub fn centered(area: Cells, w: u16, h: u16) -> (r: Cells)
    requires
        area.x + area.width <= u16::MAX,
        area.y + area.height <= u16::MAX,
    ensures
        r.width == (if w < area.width {
            w
        } else {
            area.width
        }),
        r.height == (if h < area.height {
            h
        } else {
            area.height
        }),
        r.x == area.x + (area.width - r.width) / 2,
        r.y == area.y + (area.height - r.height) / 2,
{
    let w: u16 = if w < area.width {
        w
    } else {
        area.width
    };
    let h: u16 = if h < area.height {
        h
    } else {
        area.height
    };
    Cells { x: area.x + (area.width - w) / 2, y: area.y + (area.height - h) / 2, width: w, height: h }
}

/// Full colours are used where the terminal says that it has them.
pub proof fn law_terminals_say_that_they_have_full_colours(colorterm: &str, term: &str, r: bool)
    requires
        call_ensures(detect_truecolor, (colorterm, term), r),
    ensures
        r <==> contains(lowercase(colorterm@), "truecolor"@) || contains(lowercase(colorterm@), "24bit"@) || contains(term@, "direct"@),
{
}

} // verus!
