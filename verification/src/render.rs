//! Rendering geometry: every live tile as a colored rectangle.
//!
//! The renderer draws each tile on a canvas of `size * tile_size` pixels:
//! `Top`/`Bottom` tiles two cells wide and one high, `Left`/`Right` tiles
//! one wide and two high.  Even pixel sizes over 16 are halved here and the
//! finished image is doubled back by the drawing layer, so the canvas ends
//! at exactly `size * tile_size` either way.  This module computes the
//! whole plan; pixel pushing and encoding stay outside.

use vstd::prelude::*;
use crate::engine::Diamond;
use crate::engine::lemma_live_seq_entries;
use crate::engine::live_seq;
use crate::tile::Direction;
use crate::tile::Tile;

verus! {

/// Largest accepted pixel size of one cell.
pub const TILE_SIZE_MAX: usize = 4096;

/// One color, 8 bits per channel.
#[derive(Clone, Copy, PartialEq, Eq, Structural, Debug)]
pub struct Color {
    pub red: u8,
    pub green: u8,
    pub blue: u8,
    pub alpha: u8,
}

/// The palette: one fill color per direction, and the grid line color.
#[derive(Clone, Copy, PartialEq, Eq, Structural, Debug)]
pub struct Colors {
    pub top: Color,
    pub bottom: Color,
    pub left: Color,
    pub right: Color,
    pub grid: Color,
}

/// The channels of a packed `0xRRGGBBAA` value.
pub open spec fn color_of(c: u32) -> Color {
    Color {
        red: (c >> 24 & 0xff) as u8,
        green: (c >> 16 & 0xff) as u8,
        blue: (c >> 8 & 0xff) as u8,
        alpha: (c & 0xff) as u8,
    }
}

impl Colors {
    /// Unpack one `0xRRGGBBAA` value.
    fn int_to_color(c: u32) -> (r: Color)
        ensures
            r == color_of(c),
    {
        proof {
            assert(c >> 24 & 0xff < 256 && c >> 16 & 0xff < 256 && c >> 8 & 0xff < 256 && c & 0xff
                < 256) by (bit_vector);
        }
        Color {
            red: (c >> 24 & 0xff) as u8,
            green: (c >> 16 & 0xff) as u8,
            blue: (c >> 8 & 0xff) as u8,
            alpha: (c & 0xff) as u8,
        }
    }

    /// A palette from five packed `0xRRGGBBAA` values.
    pub fn new(t: u32, b: u32, l: u32, r: u32, g: u32) -> (cs: Colors)
        ensures
            cs.top == color_of(t),
            cs.bottom == color_of(b),
            cs.left == color_of(l),
            cs.right == color_of(r),
            cs.grid == color_of(g),
    {
        Colors {
            top: Colors::int_to_color(t),
            bottom: Colors::int_to_color(b),
            left: Colors::int_to_color(l),
            right: Colors::int_to_color(r),
            grid: Colors::int_to_color(g),
        }
    }

    /// The stock palette: red up, blue down, yellow left, green right,
    /// black grid lines.
    pub fn default() -> (cs: Colors)
        ensures
            cs.top == (Color { red: 255, green: 0, blue: 0, alpha: 255 }),
            cs.bottom == (Color { red: 0, green: 0, blue: 255, alpha: 255 }),
            cs.left == (Color { red: 255, green: 255, blue: 0, alpha: 255 }),
            cs.right == (Color { red: 0, green: 255, blue: 0, alpha: 255 }),
            cs.grid == (Color { red: 0, green: 0, blue: 0, alpha: 255 }),
    {
        Colors {
            top: Color { red: 255, green: 0, blue: 0, alpha: 255 },
            bottom: Color { red: 0, green: 0, blue: 255, alpha: 255 },
            left: Color { red: 255, green: 255, blue: 0, alpha: 255 },
            right: Color { red: 0, green: 255, blue: 0, alpha: 255 },
            grid: Color { red: 0, green: 0, blue: 0, alpha: 255 },
        }
    }
}

/// One rectangle of the drawing plan, in pixels.
#[derive(Clone, Copy, PartialEq, Eq, Structural, Debug)]
pub struct TileRect {
    pub x: usize,
    pub y: usize,
    pub width: usize,
    pub height: usize,
    pub fill: Color,
}

/// The pixel size actually drawn at: even requests over 16 are halved, and
/// the drawing layer doubles the finished image back.
pub open spec fn effective_tile_size(ts: int) -> int {
    if ts > 16 && ts % 2 == 0 {
        ts / 2
    } else {
        ts
    }
}

/// Whether the finished image must be doubled to reach `size * tile_size`
/// pixels: exactly when the plan was drawn at the halved size.
pub fn render_doubles(tile_size: usize) -> (r: bool)
    ensures
        r == (tile_size > 16 && tile_size % 2 == 0),
{
    tile_size > 16 && tile_size % 2 == 0
}

/// The rectangle of one tile at pixel size `ts`.
pub open spec fn rect_for(t: Tile, ts: int, colors: Colors) -> TileRect {
    TileRect {
        x: (t.col * ts) as usize,
        y: (t.row * ts) as usize,
        width: (if t.horizontal() {
            2 * ts
        } else {
            ts
        }) as usize,
        height: (if t.horizontal() {
            ts
        } else {
            2 * ts
        }) as usize,
        fill: match t.dir {
            Direction::Top => colors.top,
            Direction::Bottom => colors.bottom,
            Direction::Left => colors.left,
            Direction::Right => colors.right,
        },
    }
}

impl Diamond {
    /// Side of the canvas in pixels, at the effective tile size.
    pub fn canvas_side(&self, tile_size: usize) -> (r: usize)
        requires
            self.wf(),
            tile_size <= TILE_SIZE_MAX,
        ensures
            r == self.lat.size * effective_tile_size(tile_size as int),
    {
        let e: usize = if tile_size > 16 && tile_size % 2 == 0 {
            tile_size / 2
        } else {
            tile_size
        };
        proof {
            assert(self.lat.size * e <= 0x8000 * 0x1000) by (nonlinear_arith)
                requires self.lat.size <= 0x8000, e <= 0x1000;
        }
        self.lat.size * e
    }

    /// The drawing plan: one filled rectangle per live tile, in ascending
    /// id order, at the effective tile size.
    pub fn render_plan(&self, tile_size: usize, colors: &Colors) -> (r: Vec<TileRect>)
        requires
            self.wf(),
            tile_size <= TILE_SIZE_MAX,
        ensures
            r@.len() == live_seq(self.tiles@).len(),
            forall|k: int|
                0 <= k < r@.len() ==> #[trigger] r@[k] == rect_for(
                    live_seq(self.tiles@)[k].1,
                    effective_tile_size(tile_size as int),
                    *colors,
                ),
    {
        let ts: usize = if tile_size > 16 && tile_size % 2 == 0 {
            tile_size / 2
        } else {
            tile_size
        };
        let lt = self.live_tiles();
        let n_tab = self.tiles.len();
        proof {
            assert(self.tiles@.len() == n_tab);
            lemma_live_seq_entries(self.tiles@);
        }
        let mut r: Vec<TileRect> = Vec::new();
        let mut k: usize = 0;
        while k < lt.len()
            invariant
                self.wf(),
                ts == effective_tile_size(tile_size as int),
                ts <= 0x1000,
                lt@ == live_seq(self.tiles@),
                self.tiles@.len() <= usize::MAX,
                k <= lt@.len(),
                r@.len() == k,
                forall|m: int|
                    0 <= m < k ==> #[trigger] r@[m] == rect_for(lt@[m].1, ts as int, *colors),
            decreases lt@.len() - k,
        {
            let t = lt[k].1;
            proof {
                lemma_live_seq_entries(self.tiles@);
                assert(self.live(lt@[k as int].0 as int));
                assert(self.tile_at(lt@[k as int].0 as int) == t);
                assert(t.inside(self.lat.size as int));
                assert(t.row * ts <= 0x8000 * 0x1000 && t.col * ts <= 0x8000 * 0x1000)
                    by (nonlinear_arith)
                    requires t.row <= 0x8000, t.col <= 0x8000, ts <= 0x1000;
            }
            let fill = match t.dir {
                Direction::Top => colors.top,
                Direction::Bottom => colors.bottom,
                Direction::Left => colors.left,
                Direction::Right => colors.right,
            };
            let horizontal = match t.dir {
                Direction::Top => true,
                Direction::Bottom => true,
                Direction::Left => false,
                Direction::Right => false,
            };
            r.push(
                TileRect {
                    x: t.col * ts,
                    y: t.row * ts,
                    width: if horizontal {
                        2 * ts
                    } else {
                        ts
                    },
                    height: if horizontal {
                        ts
                    } else {
                        2 * ts
                    },
                    fill,
                },
            );
            k = k + 1;
        }
        r
    }
}

} // verus!
