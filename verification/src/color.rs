//! Colors and degradation to the terminal's supported color space.
//!
//! A color is a 24-bit RGB triple, an indexed terminal color, or "unset"
//! (inherit the terminal default). At render time every RGB color is either
//! passed through (true-color terminals) or mapped to the nearest entry of
//! the fixed 256-color (or 16-color) palette by minimum squared Euclidean
//! distance in RGB space.

use vstd::prelude::*;

verus! {

/// A terminal color: 24-bit RGB, an indexed palette entry, or unset
/// (terminal default / inherit).
#[derive(Clone, Copy, Debug, PartialEq, Eq, Structural)]
pub enum Color {
    Rgb(u8, u8, u8),
    Indexed(u8),
    Unset,
}

/// The color space the output terminal supports.
#[derive(Clone, Copy, Debug, PartialEq, Eq, Structural)]
pub enum ColorCapability {
    TrueColor,
    Ansi256,
    Ansi16,
}

/// The red/green/blue components of an entry of the fixed terminal palette.
///
/// Entries 0..16 are the conventional VGA colors, 16..232 the 6x6x6 color
/// cube with levels 0, 95, 135, 175, 215, 255, and 232..256 the grayscale
/// ramp 8, 18, ..., 238.
pub open spec fn palette_rgb(i: u8) -> (u8, u8, u8) {
    if i < 16 {
        vga_rgb(i)
    } else if i < 232 {
        (
            cube_level(((i - 16) / 36) as u8),
            cube_level((((i - 16) / 6) % 6) as u8),
            cube_level(((i - 16) % 6) as u8),
        )
    } else {
        (
            (8 + 10 * ((i - 232) as u8)) as u8,
            (8 + 10 * ((i - 232) as u8)) as u8,
            (8 + 10 * ((i - 232) as u8)) as u8,
        )
    }
}

/// One axis level of the 6x6x6 cube: 0 maps to 0, k to 55 + 40k.
pub open spec fn cube_level(k: u8) -> u8 {
    if k == 0 {
        0
    } else {
        (55 + 40 * (k as int)) as u8
    }
}

/// The conventional RGB values of the 16 basic ANSI colors.
pub open spec fn vga_rgb(i: u8) -> (u8, u8, u8) {
    if i == 0 {
        (0, 0, 0)
    } else if i == 1 {
        (128, 0, 0)
    } else if i == 2 {
        (0, 128, 0)
    } else if i == 3 {
        (128, 128, 0)
    } else if i == 4 {
        (0, 0, 128)
    } else if i == 5 {
        (128, 0, 128)
    } else if i == 6 {
        (0, 128, 128)
    } else if i == 7 {
        (192, 192, 192)
    } else if i == 8 {
        (128, 128, 128)
    } else if i == 9 {
        (255, 0, 0)
    } else if i == 10 {
        (0, 255, 0)
    } else if i == 11 {
        (255, 255, 0)
    } else if i == 12 {
        (0, 0, 255)
    } else if i == 13 {
        (255, 0, 255)
    } else if i == 14 {
        (0, 255, 255)
    } else {
        (255, 255, 255)
    }
}

/// Squared Euclidean distance between two RGB triples.
pub open spec fn sq_dist(a: (u8, u8, u8), b: (u8, u8, u8)) -> int {
    (a.0 - b.0) * (a.0 - b.0) + (a.1 - b.1) * (a.1 - b.1) + (a.2 - b.2) * (a.2 - b.2)
}

/// Executable palette lookup, equal to `palette_rgb`.
pub fn palette_rgb_exec(i: u8) -> (rgb: (u8, u8, u8))
    ensures
        rgb == palette_rgb(i),
{
    if i < 16 {
        vga_rgb_exec(i)
    } else if i < 232 {
        let c: u8 = i - 16;
        (cube_level_exec(c / 36), cube_level_exec((c / 6) % 6), cube_level_exec(c % 6))
    } else {
        let g: u8 = 8 + 10 * (i - 232);
        (g, g, g)
    }
}

fn cube_level_exec(k: u8) -> (r: u8)
    requires
        k < 6,
    ensures
        r == cube_level(k),
{
    if k == 0 {
        0
    } else {
        55 + 40 * k
    }
}

fn vga_rgb_exec(i: u8) -> (rgb: (u8, u8, u8))
    ensures
        rgb == vga_rgb(i),
{
    if i == 0 {
        (0, 0, 0)
    } else if i == 1 {
        (128, 0, 0)
    } else if i == 2 {
        (0, 128, 0)
    } else if i == 3 {
        (128, 128, 0)
    } else if i == 4 {
        (0, 0, 128)
    } else if i == 5 {
        (128, 0, 128)
    } else if i == 6 {
        (0, 128, 128)
    } else if i == 7 {
        (192, 192, 192)
    } else if i == 8 {
        (128, 128, 128)
    } else if i == 9 {
        (255, 0, 0)
    } else if i == 10 {
        (0, 255, 0)
    } else if i == 11 {
        (255, 255, 0)
    } else if i == 12 {
        (0, 0, 255)
    } else if i == 13 {
        (255, 0, 255)
    } else if i == 14 {
        (0, 255, 255)
    } else {
        (255, 255, 255)
    }
}

fn sq_dist_exec(a: (u8, u8, u8), b: (u8, u8, u8)) -> (d: u32)
    ensures
        d as int == sq_dist(a, b),
{
    let dr: u32 = if a.0 >= b.0 {
        (a.0 - b.0) as u32
    } else {
        (b.0 - a.0) as u32
    };
    let dg: u32 = if a.1 >= b.1 {
        (a.1 - b.1) as u32
    } else {
        (b.1 - a.1) as u32
    };
    let db: u32 = if a.2 >= b.2 {
        (a.2 - b.2) as u32
    } else {
        (b.2 - a.2) as u32
    };
    assert(dr * dr <= 255 * 255 && dg * dg <= 255 * 255 && db * db <= 255 * 255)
        by (nonlinear_arith)
        requires
            dr <= 255 && dg <= 255 && db <= 255,
    ;
    assert(dr * dr + dg * dg + db * db == (a.0 - b.0) * (a.0 - b.0) + (a.1 - b.1) * (a.1 - b.1) + (
    a.2 - b.2) * (a.2 - b.2)) by (nonlinear_arith)
        requires
            (dr as int == a.0 - b.0 || dr as int == b.0 - a.0) && (dg as int == a.1 - b.1
                || dg as int == b.1 - a.1) && (db as int == a.2 - b.2 || db as int == b.2 - a.2)
                && dr <= 255 && dg <= 255 && db <= 255,
    ;
    dr * dr + dg * dg + db * db
}

/// The first palette index in `lo..=hi` whose entry is nearest to `rgb` by
/// squared Euclidean distance.
pub open spec fn first_nearest(rgb: (u8, u8, u8), lo: u8, hi: u8, best: u8) -> bool {
    &&& lo <= best <= hi
    &&& (forall|j: u8|
        lo <= j <= hi ==> sq_dist(rgb, palette_rgb(best)) <= sq_dist(rgb, #[trigger] palette_rgb(j)))
    &&& (forall|j: u8|
        lo <= j < best ==> sq_dist(rgb, palette_rgb(best)) < sq_dist(rgb, #[trigger] palette_rgb(j)))
}

/// There is only one first nearest index.
pub proof fn lemma_first_nearest_unique(rgb: (u8, u8, u8), lo: u8, hi: u8, b1: u8, b2: u8)
    requires
        first_nearest(rgb, lo, hi, b1),
        first_nearest(rgb, lo, hi, b2),
    ensures
        b1 == b2,
{
    if b1 < b2 {
        assert(sq_dist(rgb, palette_rgb(b2)) < sq_dist(rgb, palette_rgb(b1)));
        assert(sq_dist(rgb, palette_rgb(b1)) <= sq_dist(rgb, palette_rgb(b2)));
    }
    if b2 < b1 {
        assert(sq_dist(rgb, palette_rgb(b1)) < sq_dist(rgb, palette_rgb(b2)));
        assert(sq_dist(rgb, palette_rgb(b2)) <= sq_dist(rgb, palette_rgb(b1)));
    }
}

/// The first palette index in `lo..=hi` whose entry is nearest to `rgb` by
/// squared Euclidean distance.
pub fn nearest_palette_index(rgb: (u8, u8, u8), lo: u8, hi: u8) -> (best: u8)
    requires
        lo <= hi,
    ensures
        first_nearest(rgb, lo, hi, best),
{
    let mut best: u8 = lo;
    let mut best_d: u32 = sq_dist_exec(rgb, palette_rgb_exec(lo));
    let mut i: u16 = lo as u16 + 1;
    while i <= hi as u16
        invariant
            lo <= hi,
            lo as u16 + 1 <= i <= hi as u16 + 1,
            lo <= best <= hi,
            (best as u16) < i,
            best_d as int == sq_dist(rgb, palette_rgb(best)),
            forall|j: u8|
                lo <= j && (j as u16) < i ==> (best_d as int) <= sq_dist(
                    rgb,
                    #[trigger] palette_rgb(j),
                ),
            forall|j: u8|
                lo <= j < best ==> (best_d as int) < sq_dist(rgb, #[trigger] palette_rgb(j)),
        decreases hi as u16 + 1 - i,
    {
        let d: u32 = sq_dist_exec(rgb, palette_rgb_exec(i as u8));
        if d < best_d {
            best = i as u8;
            best_d = d;
        }
        i = i + 1;
    }
    best
}

/// Whether `c` is representable as-is under capability `cap`.
pub open spec fn representable(c: Color, cap: ColorCapability) -> bool {
    match c {
        Color::Unset => true,
        Color::Indexed(i) => cap != ColorCapability::Ansi16 || i < 16,
        Color::Rgb(_, _, _) => cap == ColorCapability::TrueColor,
    }
}

/// What degradation returns: the color itself where representable, else the
/// first nearest entry of the capability's palette range, with "unset"
/// always passing through. This pins the result uniquely
/// (`lemma_degrades_to_unique`).
pub open spec fn degrades_to(c: Color, cap: ColorCapability, r: Color) -> bool {
    &&& representable(r, cap)
    &&& (representable(c, cap) ==> r == c)
    &&& (c is Unset <==> r is Unset)
    &&& match (c, r) {
        (Color::Rgb(cr, cg, cb), Color::Indexed(i)) => (if cap == ColorCapability::Ansi16 {
            first_nearest((cr, cg, cb), 0, 15, i)
        } else {
            first_nearest((cr, cg, cb), 16, 255, i)
        }),
        (Color::Rgb(_, _, _), _) => r == c,
        (Color::Indexed(ci), Color::Indexed(i)) => i == ci || first_nearest(
            palette_rgb(ci),
            0,
            15,
            i,
        ),
        _ => true,
    }
}

/// Degradation is a function: under one capability a color degrades to
/// exactly one color, so equal inputs always give equal results.
pub proof fn lemma_degrades_to_unique(c: Color, cap: ColorCapability, r1: Color, r2: Color)
    requires
        degrades_to(c, cap, r1),
        degrades_to(c, cap, r2),
    ensures
        r1 == r2,
{
    if !representable(c, cap) {
        match c {
            Color::Rgb(cr, cg, cb) => {
                let (lo, hi): (u8, u8) = if cap == ColorCapability::Ansi16 {
                    (0u8, 15u8)
                } else {
                    (16u8, 255u8)
                };
                match (r1, r2) {
                    (Color::Indexed(i1), Color::Indexed(i2)) => {
                        lemma_first_nearest_unique((cr, cg, cb), lo, hi, i1, i2);
                    },
                    _ => {},
                }
            },
            Color::Indexed(ci) => {
                match (r1, r2) {
                    (Color::Indexed(i1), Color::Indexed(i2)) => {
                        assert(cap == ColorCapability::Ansi16 && ci >= 16);
                        assert(i1 < 16 && i2 < 16);
                        lemma_first_nearest_unique(palette_rgb(ci), 0, 15, i1, i2);
                    },
                    _ => {},
                }
            },
            Color::Unset => {},
        }
    }
}

/// Degrade a color to the nearest value representable under `cap`.
///
/// True-color terminals take every color unchanged; otherwise an RGB color
/// maps to the first nearest entry of the 256-color palette (its 16..256
/// part) or of the 16-color palette, and "unset" always passes through.
pub fn degrade(c: Color, cap: ColorCapability) -> (r: Color)
    ensures
        degrades_to(c, cap, r),
{
    match c {
        Color::Unset => Color::Unset,
        Color::Indexed(i) => {
            if cap == ColorCapability::Ansi16 && i >= 16 {
                let rgb = palette_rgb_exec(i);
                Color::Indexed(nearest_palette_index(rgb, 0, 15))
            } else {
                Color::Indexed(i)
            }
        },
        Color::Rgb(r, g, b) => {
            match cap {
                ColorCapability::TrueColor => Color::Rgb(r, g, b),
                ColorCapability::Ansi256 => Color::Indexed(nearest_palette_index((r, g, b), 16, 255)),
                ColorCapability::Ansi16 => Color::Indexed(nearest_palette_index((r, g, b), 0, 15)),
            }
        },
    }
}

} // verus!
