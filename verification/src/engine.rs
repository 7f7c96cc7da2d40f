//! The shuffle engine: tile bookkeeping and the four-phase growth step.
//!
//! A `Diamond` owns the board, a table from tile id to tile, an id allocator
//! with a FIFO free list, and the scan cursor of the square search.  One
//! `step` runs eliminate, extend, move and fill in that order, growing the
//! diamond's side by two while keeping the state well formed.

use vstd::prelude::*;
use std::collections::VecDeque;
use crate::lattice::CAP_MAX;
use crate::lattice::Lattice;
use crate::lattice::in_diamond;
use crate::lattice::row_end;
use crate::lattice::row_start;
use crate::bias::Bias;
use crate::errors::ConfigError;
use crate::rng::RandomSource;
use crate::tile::Direction;
use crate::tile::Tile;

verus! {

/// The unit for fill probabilities: a probability is a numerator over this.
pub const PROB_ONE: u64 = 0x1_0000_0000;

/// The shuffle engine.
pub struct Diamond {
    pub lat: Lattice,
    /// Tile table, indexed by id; id 0 is reserved for "empty cell".
    pub tiles: Vec<Option<Tile>>,
    /// Ids freed by elimination, reused first-in-first-out before a fresh id
    /// is minted.
    pub free_ids: VecDeque<usize>,
    /// Scan cursor of the square search.
    pub cur_row: usize,
    pub cur_col: usize,
    /// Probability of filling a block horizontally, as a numerator over
    /// `PROB_ONE`.
    pub prob: u64,
}

/// The tile table is closed: slot zero is unused and every live tile lies
/// inside a diamond of side `size`.
pub open spec fn table_ok(tiles: Seq<Option<Tile>>, size: int) -> bool {
    &&& 1 <= tiles.len()
    &&& tiles[0] is None
    &&& forall|id: int|
        0 <= id < tiles.len() && tiles[id] is Some ==> (#[trigger] tiles[id])->Some_0.inside(size)
}

/// Freed ids are in range, dead, and listed at most once.
pub open spec fn free_ok(free: Seq<usize>, tiles: Seq<Option<Tile>>) -> bool {
    &&& forall|k: int|
        0 <= k < free.len() ==> 1 <= #[trigger] free[k] < tiles.len() && tiles[free[k] as int]
            is None
    &&& forall|k1: int, k2: int|
        0 <= k1 < k2 < free.len() ==> #[trigger] free[k1] != #[trigger] free[k2]
}

/// Every cell value is below `n`, so it can index a table of length `n`.
pub open spec fn cells_bound(lat: Lattice, n: int) -> bool {
    forall|i: int, j: int| lat.in_fp(i, j) ==> #[trigger] lat.cell(i, j) < n
}

/// Cells and tiles agree: each live tile's two cells hold its id, and each
/// occupied cell is covered by the live tile it names.
pub open spec fn cells_agree(lat: Lattice, tiles: Seq<Option<Tile>>) -> bool {
    &&& forall|id: int|
        0 <= id < tiles.len() && tiles[id] is Some ==> lat.cell(
            (#[trigger] tiles[id])->Some_0.row as int,
            tiles[id]->Some_0.col as int,
        ) == id && lat.cell(tiles[id]->Some_0.row2(), tiles[id]->Some_0.col2()) == id
    &&& forall|i: int, j: int|
        lat.in_fp(i, j) && #[trigger] lat.cell(i, j) != 0 ==> 0 <= lat.cell(i, j) < tiles.len()
            && tiles[lat.cell(i, j) as int] is Some && tiles[lat.cell(i, j) as int]->Some_0.covers(
            i,
            j,
        )
}

/// The orientation rule for one block, over the drawn word.  With a bias
/// sample, a dark value forces horizontal and a light one vertical, and the
/// middle band takes the word's parity as a fair coin; without one, the
/// block is horizontal exactly when the word's top 32 bits fall below the
/// probability numerator — "u < p" with u drawn uniformly from [0, 1) in
/// steps of 2^-32.
pub open spec fn horizontal_choice(sample: Option<u8>, prob: u64, word: u64) -> bool {
    match sample {
        Some(v) => if v < 128 {
            true
        } else if v <= 192 {
            word % 2 == 0
        } else {
            false
        },
        None => word >> 32 < prob,
    }
}

/// Scan order of the square search: row major, left to right.
pub open spec fn scan_le(r1: int, c1: int, r2: int, c2: int) -> bool {
    r1 < r2 || (r1 == r2 && c1 <= c2)
}

/// The live `(id, tile)` pairs of a tile table, in ascending id order.
pub open spec fn live_seq(ts: Seq<Option<Tile>>) -> Seq<(usize, Tile)>
    decreases ts.len(),
{
    if ts.len() == 0 {
        Seq::empty()
    } else {
        live_seq(ts.drop_last()) + match ts.last() {
            Some(t) => seq![(((ts.len() - 1) as usize), t)],
            None => Seq::empty(),
        }
    }
}

/// Each entry of `live_seq` points back into the table: the id is in range
/// and the table holds exactly that tile there.
pub proof fn lemma_live_seq_entries(ts: Seq<Option<Tile>>)
    requires
        ts.len() <= usize::MAX,
    ensures
        forall|k: int|
            0 <= k < live_seq(ts).len() ==> 0 <= (#[trigger] live_seq(ts)[k]).0 < ts.len()
                && ts[live_seq(ts)[k].0 as int] == Some(live_seq(ts)[k].1),
    decreases ts.len(),
{
    if ts.len() > 0 {
        lemma_live_seq_entries(ts.drop_last());
        let pre = live_seq(ts.drop_last());
        assert forall|k: int| 0 <= k < live_seq(ts).len() implies 0 <= (#[trigger] live_seq(
            ts,
        )[k]).0 < ts.len() && ts[live_seq(ts)[k].0 as int] == Some(live_seq(ts)[k].1) by {
            if k < pre.len() {
                assert(live_seq(ts)[k] == pre[k]);
                assert(ts.drop_last()[pre[k].0 as int] == ts[pre[k].0 as int]);
            } else {
                match ts.last() {
                    Some(t) => {
                        assert(live_seq(ts) == pre + seq![(((ts.len() - 1) as usize), t)]);
                        assert(k == pre.len() as int);
                        assert(live_seq(ts)[k] == (((ts.len() - 1) as usize), t));
                        assert(ts[ts.len() - 1] == Some(t));
                    },
                    None => {
                        assert(live_seq(ts) == pre + Seq::<(usize, Tile)>::empty());
                        assert(live_seq(ts).len() == pre.len());
                    },
                }
            }
        };
    }
}

/// `live_seq` lists ids in strictly ascending order.
pub proof fn lemma_live_seq_sorted(ts: Seq<Option<Tile>>)
    requires
        ts.len() <= usize::MAX,
    ensures
        forall|k1: int, k2: int|
            0 <= k1 < k2 < live_seq(ts).len() ==> (#[trigger] live_seq(ts)[k1]).0 < (
            #[trigger] live_seq(ts)[k2]).0,
    decreases ts.len(),
{
    if ts.len() > 0 {
        lemma_live_seq_sorted(ts.drop_last());
        lemma_live_seq_entries(ts.drop_last());
        let pre = live_seq(ts.drop_last());
        assert forall|k1: int, k2: int| 0 <= k1 < k2 < live_seq(ts).len() implies (
        #[trigger] live_seq(ts)[k1]).0 < (#[trigger] live_seq(ts)[k2]).0 by {
            if k1 < pre.len() {
                assert(live_seq(ts)[k1] == pre[k1]);
            }
            if k2 < pre.len() {
                assert(live_seq(ts)[k2] == pre[k2]);
            } else {
                match ts.last() {
                    Some(t) => {
                        assert(live_seq(ts)[k2] == (((ts.len() - 1) as usize), t));
                        assert(pre[k1].0 < ts.drop_last().len());
                    },
                    None => {
                        assert(live_seq(ts).len() == pre.len());
                    },
                }
            }
        };
    }
}

/// Every live slot of the table appears in `live_seq`.
pub proof fn lemma_live_seq_complete(ts: Seq<Option<Tile>>)
    requires
        ts.len() <= usize::MAX,
    ensures
        forall|id: int|
            0 <= id < ts.len() && (#[trigger] ts[id]) is Some ==> exists|k: int|
                0 <= k < live_seq(ts).len() && #[trigger] live_seq(ts)[k] == (
                id as usize,
                ts[id]->Some_0,
            ),
    decreases ts.len(),
{
    if ts.len() > 0 {
        lemma_live_seq_complete(ts.drop_last());
        let pre = live_seq(ts.drop_last());
        assert forall|id: int| 0 <= id < ts.len() && (#[trigger] ts[id]) is Some implies exists|
            k: int,
        |
            0 <= k < live_seq(ts).len() && #[trigger] live_seq(ts)[k] == (
                id as usize,
                ts[id]->Some_0,
            ) by {
            if id < ts.len() - 1 {
                assert(ts.drop_last()[id] == ts[id]);
                let k0 = choose|k: int|
                    0 <= k < pre.len() && #[trigger] pre[k] == (
                        id as usize,
                        ts.drop_last()[id]->Some_0,
                    );
                assert(live_seq(ts)[k0] == pre[k0]);
            } else {
                match ts.last() {
                    Some(t) => {
                        assert(live_seq(ts)[pre.len() as int] == (((ts.len() - 1) as usize), t));
                    },
                    None => {},
                }
            }
        };
    }
}

/// A cell some already-written tile landed on.
pub open spec fn landed_covers(snap: Seq<(usize, Tile)>, upto: int, a: int, b: int) -> bool {
    exists|k: int| 0 <= k < upto && (#[trigger] snap[k]).1.slid_spec().covers(a, b)
}

/// A cell some not-yet-written tile still stands on.
pub open spec fn standing_covers(snap: Seq<(usize, Tile)>, from: int, a: int, b: int) -> bool {
    exists|k: int| from <= k < snap.len() && (#[trigger] snap[k]).1.covers(a, b)
}

/// The move pass's write progress: cells the first `upto` tiles landed on
/// hold their ids; cells not landed on where a later tile still stands hold
/// that tile's id; every other cell of the diamond is empty.
pub open spec fn moved_prefix_ok(lat: Lattice, snap: Seq<(usize, Tile)>, upto: int) -> bool {
    &&& forall|k: int, a: int, b: int|
        0 <= k < upto && #[trigger] snap[k].1.slid_spec().covers(a, b) ==> lat.cell(a, b)
            == snap[k].0
    &&& forall|k: int, a: int, b: int|
        upto <= k < snap.len() && #[trigger] snap[k].1.covers(a, b) && !landed_covers(
            snap,
            upto,
            a,
            b,
        ) ==> lat.cell(a, b) == snap[k].0
    &&& forall|a: int, b: int|
        lat.in_fp(a, b) && !landed_covers(snap, upto, a, b) && !standing_covers(snap, upto, a, b)
            ==> #[trigger] lat.cell(a, b) == 0
}

impl Diamond {
    /// Whether `id` names a live tile.
    pub open spec fn live(self, id: int) -> bool {
        0 <= id < self.tiles@.len() && self.tiles@[id] is Some
    }

    /// The live tile named `id`.
    pub open spec fn tile_at(self, id: int) -> Tile {
        self.tiles@[id]->Some_0
    }

    /// The scan cursor stays within the diamond's bounding box.
    pub open spec fn cursor_ok(self) -> bool {
        self.cur_row <= self.lat.size && self.cur_col <= self.lat.size
    }

    /// Structural well-formedness: every live tile lies inside the diamond,
    /// freed ids are dead and listed once, every cell value is a valid table
    /// index, allocated cells outside the diamond are empty, and the cursor
    /// and probability are in range.
    pub open spec fn wf(self) -> bool {
        &&& self.lat.wf()
        &&& table_ok(self.tiles@, self.lat.size as int)
        &&& free_ok(self.free_ids@, self.tiles@)
        &&& cells_bound(self.lat, self.tiles@.len() as int)
        &&& self.lat.blank_outside()
        &&& self.cursor_ok()
        &&& self.prob <= PROB_ONE
    }

    /// Tiling validity: cells and tiles describe one partial tiling.
    /// Together with `wf` this means distinct live tiles never share a cell:
    /// the cell would have to hold both ids.
    pub open spec fn consistent(self) -> bool {
        cells_agree(self.lat, self.tiles@)
    }

    /// Tiling validity, cell side: under a consistent state, an occupied
    /// cell is covered by exactly one live tile — the one it names.
    pub proof fn lemma_tiling_valid(self, i: int, j: int)
        requires
            self.wf(),
            self.consistent(),
            self.lat.in_fp(i, j),
        ensures
            self.lat.cell(i, j) == 0 || (self.live(self.lat.cell(i, j) as int) && self.tile_at(
                self.lat.cell(i, j) as int,
            ).covers(i, j) && forall|id: int|
                self.live(id) && (#[trigger] self.tile_at(id)).covers(i, j) ==> id == self.lat.cell(
                    i,
                    j,
                )),
    {
        if self.lat.cell(i, j) != 0 {
            assert forall|id: int|
                self.live(id) && (#[trigger] self.tile_at(id)).covers(i, j) implies id == self.lat
                .cell(i, j) by {
                let t = self.tile_at(id);
                assert(self.lat.cell(t.row as int, t.col as int) == id);
                assert(self.lat.cell(t.row2(), t.col2()) == id);
            };
        }
    }

    /// Tiling validity, tile side: every live tile covers exactly two cells
    /// of the diamond, adjacent as its direction dictates, and both hold
    /// its id.
    pub proof fn lemma_tile_cells(self, id: int)
        requires
            self.wf(),
            self.consistent(),
            self.live(id),
        ensures
            self.tile_at(id).inside(self.lat.size as int),
            self.lat.cell(self.tile_at(id).row as int, self.tile_at(id).col as int) == id,
            self.lat.cell(self.tile_at(id).row2(), self.tile_at(id).col2()) == id,
            self.tile_at(id).horizontal() ==> self.tile_at(id).row2() == self.tile_at(id).row
                && self.tile_at(id).col2() == self.tile_at(id).col + 1,
            !self.tile_at(id).horizontal() ==> self.tile_at(id).row2() == self.tile_at(id).row + 1
                && self.tile_at(id).col2() == self.tile_at(id).col,
    {
    }

    /// An empty 2x2 block, fully inside the diamond, anchored at `(i, j)`.
    pub open spec fn empty_square(self, i: int, j: int) -> bool {
        &&& self.lat.in_fp(i, j) && self.lat.in_fp(i, j + 1)
        &&& self.lat.in_fp(i + 1, j) && self.lat.in_fp(i + 1, j + 1)
        &&& self.lat.cell(i, j) == 0 && self.lat.cell(i, j + 1) == 0
        &&& self.lat.cell(i + 1, j) == 0 && self.lat.cell(i + 1, j + 1) == 0
    }

    /// No empty 2x2 block remains anywhere inside the diamond.
    pub open spec fn filled(self) -> bool {
        forall|i: int, j: int| !(#[trigger] self.empty_square(i, j))
    }

    /// A vertical collision: the probed cell `(i, j)` holds a `Bottom` tile
    /// and the cell right below a `Top` tile, with `j` inside the scan's
    /// probe range — past the row's span start (the boundary guard) and
    /// before its last column.
    pub open spec fn collision_v(self, i: int, j: int) -> bool {
        &&& self.lat.in_fp(i, j) && self.lat.in_fp(i + 1, j)
        &&& j > row_start(self.lat.size as int, i)
        &&& j + 1 < row_end(self.lat.size as int, i)
        &&& self.lat.cell(i, j) != 0 && self.lat.cell(i + 1, j) != 0
        &&& self.live(self.lat.cell(i, j) as int) && self.live(self.lat.cell(i + 1, j) as int)
        &&& self.tile_at(self.lat.cell(i, j) as int).dir == Direction::Bottom
        &&& self.tile_at(self.lat.cell(i + 1, j) as int).dir == Direction::Top
    }

    /// A horizontal collision: the probed cell holds a `Right` tile and the
    /// cell right of it a `Left` tile.
    pub open spec fn collision_h(self, i: int, j: int) -> bool {
        &&& self.lat.in_fp(i, j) && self.lat.in_fp(i, j + 1)
        &&& i + 1 < self.lat.size
        &&& self.lat.cell(i, j) != 0 && self.lat.cell(i, j + 1) != 0
        &&& self.live(self.lat.cell(i, j) as int) && self.live(self.lat.cell(i, j + 1) as int)
        &&& self.tile_at(self.lat.cell(i, j) as int).dir == Direction::Right
        &&& self.tile_at(self.lat.cell(i, j + 1) as int).dir == Direction::Left
    }

    /// No colliding pair the elimination scan removes is left anywhere.
    pub open spec fn collision_free(self) -> bool {
        &&& forall|i: int, j: int| !(#[trigger] self.collision_v(i, j))
        &&& forall|i: int, j: int| !(#[trigger] self.collision_h(i, j))
    }

    /// `id` belongs to a colliding pair.
    pub open spec fn in_collision(self, id: int) -> bool {
        ||| exists|x: int, y: int|
            #[trigger] self.collision_v(x, y) && (self.lat.cell(x, y) == id || self.lat.cell(
                x + 1,
                y,
            ) == id)
        ||| exists|x: int, y: int|
            #[trigger] self.collision_h(x, y) && (self.lat.cell(x, y) == id || self.lat.cell(
                x,
                y + 1,
            ) == id)
    }

    /// `a` and `b` are the two members of one colliding pair, as the probe
    /// reads them: `a` from the probed cell — the `Bottom` or `Right`
    /// member — and `b` from the cell it collides into.
    #[verifier::opaque]
    pub open spec fn collided_pair(self, a: usize, b: usize) -> bool {
        ||| exists|x: int, y: int|
            #[trigger] self.collision_v(x, y) && self.lat.cell(x, y) == a && self.lat.cell(
                x + 1,
                y,
            ) == b
        ||| exists|x: int, y: int|
            #[trigger] self.collision_h(x, y) && self.lat.cell(x, y) == a && self.lat.cell(
                x,
                y + 1,
            ) == b
    }

    /// A fresh engine: an all-empty board of side zero, allocated for
    /// diamonds up to side `capacity`, with no tiles yet.
    pub fn new(prob: u64, capacity: usize) -> (r: Diamond)
        requires
            2 <= capacity <= CAP_MAX,
            capacity % 2 == 0,
            prob <= PROB_ONE,
        ensures
            r.wf(),
            r.consistent(),
            r.lat.size == 0,
            r.lat.capacity == capacity,
            r.tiles@.len() == 1,
            !r.live(0),
            r.free_ids@.len() == 0,
            r.cur_row == 0 && r.cur_col == 0,
            r.prob == prob,
    {
        let lat = Lattice::new(capacity);
        let mut tiles: Vec<Option<Tile>> = Vec::new();
        tiles.push(None);
        let r = Diamond { lat, tiles, free_ids: VecDeque::new(), cur_row: 0, cur_col: 0, prob };
        r
    }

    /// Current side of the diamond.
    pub fn size(&self) -> (s: usize)
        ensures
            s == self.lat.size,
    {
        self.lat.size
    }

    /// Allocated side of the board.
    pub fn capacity(&self) -> (c: usize)
        ensures
            c == self.lat.capacity,
    {
        self.lat.capacity
    }

    /// Configured fill probability, as a numerator over `PROB_ONE`.
    pub fn probability(&self) -> (p: u64)
        ensures
            p == self.prob,
    {
        self.prob
    }

    /// Read-only cell lookup: 0 for an empty cell, else the covering tile's
    /// id.
    pub fn at(&self, i: usize, j: usize) -> (v: usize)
        requires
            self.wf(),
            self.lat.in_fp(i as int, j as int),
        ensures
            v == self.lat.cell(i as int, j as int),
    {
        self.lat.read(i, j)
    }

    /// Column range of row `i` at the current side.
    pub fn span(&self, i: usize) -> (r: (usize, usize))
        requires
            self.wf(),
            i < self.lat.size,
        ensures
            r.0 == row_start(self.lat.size as int, i as int),
            r.1 == row_end(self.lat.size as int, i as int),
            r.0 <= r.1,
    {
        self.lat.row_span(i)
    }

    /// The live tiles with their ids, in ascending id order.
    pub fn live_tiles(&self) -> (r: Vec<(usize, Tile)>)
        ensures
            r@ == live_seq(self.tiles@),
    {
        let mut r: Vec<(usize, Tile)> = Vec::new();
        let mut k: usize = 0;
        while k < self.tiles.len()
            invariant
                k <= self.tiles@.len(),
                r@ == live_seq(self.tiles@.take(k as int)),
            decreases self.tiles@.len() - k,
        {
            proof {
                assert(self.tiles@.take(k + 1).drop_last() =~= self.tiles@.take(k as int));
                assert(self.tiles@.take(k + 1).last() == self.tiles@[k as int]);
            }
            match self.tiles[k] {
                Some(t) => {
                    r.push((k, t));
                },
                None => {},
            }
            k = k + 1;
        }
        proof {
            assert(self.tiles@.take(self.tiles@.len() as int) =~= self.tiles@);
        }
        r
    }
}

impl Diamond {
    /// Id the allocator hands out next: the oldest freed id, else a fresh
    /// one.
    pub open spec fn next_id1(self) -> int {
        if self.free_ids@.len() >= 1 {
            self.free_ids@[0] as int
        } else {
            self.tiles@.len() as int
        }
    }

    /// Id the allocator hands out right after `next_id1`.
    pub open spec fn next_id2(self) -> int {
        if self.free_ids@.len() >= 2 {
            self.free_ids@[1] as int
        } else if self.free_ids@.len() == 1 {
            self.tiles@.len() as int
        } else {
            self.tiles@.len() as int + 1
        }
    }

    /// `a` and `b` are the two live halves of one stamped domino: `a` the
    /// first-allocated member — `Top` over `Bottom`, or `Left` beside
    /// `Right` — and `b` its partner on the adjacent cells.
    pub open spec fn stamped_pair(self, a: int, b: int) -> bool {
        ||| (self.tile_at(a).dir == Direction::Top && self.tile_at(b) == (Tile {
            row: (self.tile_at(a).row + 1) as usize,
            col: self.tile_at(a).col,
            dir: Direction::Bottom,
        }))
        ||| (self.tile_at(a).dir == Direction::Left && self.tile_at(b) == (Tile {
            row: self.tile_at(a).row,
            col: (self.tile_at(a).col + 1) as usize,
            dir: Direction::Right,
        }))
    }

    /// Next tile id: the oldest freed id is reused before a fresh id is
    /// minted by growing the table with an empty slot — an id freed by
    /// elimination always comes back before the counter advances.
    pub fn next_tile_id(&mut self) -> (id: usize)
        requires
            old(self).wf(),
        ensures
            final(self).wf(),
            final(self).lat == old(self).lat,
            final(self).cur_row == old(self).cur_row,
            final(self).cur_col == old(self).cur_col,
            final(self).prob == old(self).prob,
            id == old(self).next_id1(),
            1 <= id < final(self).tiles@.len(),
            final(self).tiles@[id as int] is None,
            old(self).free_ids@.len() > 0 ==> final(self).free_ids@ == old(
                self,
            ).free_ids@.subrange(1, old(self).free_ids@.len() as int) && final(self).tiles@ == old(
                self,
            ).tiles@,
            old(self).free_ids@.len() == 0 ==> final(self).free_ids@ == old(self).free_ids@
                && final(self).tiles@ == old(self).tiles@.push(None),
    {
        let r = match self.free_ids.pop_front() {
            Some(id) => id,
            None => {
                let id = self.tiles.len();
                self.tiles.push(None);
                id
            },
        };
        proof {
            assert forall|id: int| 0 <= id < self.tiles@.len() && self.tiles@[id] is Some implies (
            #[trigger] self.tiles@[id])->Some_0.inside(self.lat.size as int) by {
                assert(self.tiles@[id] == old(self).tiles@[id]);
            };
            assert forall|k: int| 0 <= k < self.free_ids@.len() implies 1 <= #[trigger] self
                .free_ids@[k] < self.tiles@.len() && self.tiles@[self.free_ids@[k] as int]
                is None by {
                if old(self).free_ids@.len() > 0 {
                    assert(self.free_ids@[k] == old(self).free_ids@[k + 1]);
                    assert(old(self).tiles@[old(self).free_ids@[k + 1] as int] is None);
                } else {
                    assert(self.free_ids@[k] == old(self).free_ids@[k]);
                    assert(old(self).tiles@[old(self).free_ids@[k] as int] is None);
                }
            };
            assert(self.wf());
        }
        r
    }

    /// Zero the 2x2 block anchored at `(i, j)`.
    fn clear_square(&mut self, i: usize, j: usize)
        requires
            old(self).wf(),
            old(self).lat.in_fp(i as int, j as int),
            old(self).lat.in_fp(i as int, j + 1),
            old(self).lat.in_fp(i + 1, j as int),
            old(self).lat.in_fp(i + 1, j + 1),
        ensures
            final(self).wf(),
            final(self).tiles@ == old(self).tiles@,
            final(self).free_ids@ == old(self).free_ids@,
            final(self).cur_row == old(self).cur_row,
            final(self).cur_col == old(self).cur_col,
            final(self).prob == old(self).prob,
            final(self).lat.size == old(self).lat.size,
            final(self).lat.capacity == old(self).lat.capacity,
            final(self).lat.origin_r == old(self).lat.origin_r,
            final(self).lat.origin_c == old(self).lat.origin_c,
            final(self).lat.cell(i as int, j as int) == 0,
            final(self).lat.cell(i as int, j + 1) == 0,
            final(self).lat.cell(i + 1, j as int) == 0,
            final(self).lat.cell(i + 1, j + 1) == 0,
            forall|a: int, b: int|
                old(self).lat.in_alloc(a, b) && !((a == i || a == i + 1) && (b == j || b == j
                    + 1)) ==> #[trigger] final(self).lat.cell(a, b) == old(self).lat.cell(a, b),
    {
        self.lat.write(i, j, 0);
        self.lat.write(i + 1, j, 0);
        self.lat.write(i, j + 1, 0);
        self.lat.write(i + 1, j + 1, 0);
        proof {
            assert forall|a: int, b: int| self.lat.in_fp(a, b) implies #[trigger] self.lat.cell(
                a,
                b,
            ) < self.tiles@.len() by {
                old(self).lat.lemma_fp_in_alloc(a, b);
            };
            assert forall|a: int, b: int|
                self.lat.in_alloc(a, b) && !self.lat.in_fp(a, b) implies #[trigger] self.lat.cell(
                a,
                b,
            ) == 0 by {
                assert(old(self).lat.cell(a, b) == 0);
            };
            assert(self.wf());
        }
    }

    /// Destroy a colliding pair: drop both tiles from the table, zero the
    /// four cells the two tiles stand on — for a column-aligned pair that is
    /// exactly their shared 2x2 block — and queue both ids for reuse, `id1`
    /// first.
    #[verifier::spinoff_prover]
    #[verifier::rlimit(100)]
    fn remove_pair(&mut self, id1: usize, id2: usize)
        requires
            old(self).wf(),
            old(self).live(id1 as int),
            old(self).live(id2 as int),
            id1 != id2,
        ensures
            final(self).wf(),
            final(self).tiles@ == old(self).tiles@.update(id1 as int, None).update(
                id2 as int,
                None,
            ),
            final(self).free_ids@ == old(self).free_ids@.push(id1).push(id2),
            final(self).cur_row == old(self).cur_row,
            final(self).cur_col == old(self).cur_col,
            final(self).prob == old(self).prob,
            final(self).lat.size == old(self).lat.size,
            final(self).lat.capacity == old(self).lat.capacity,
            final(self).lat.origin_r == old(self).lat.origin_r,
            final(self).lat.origin_c == old(self).lat.origin_c,
            final(self).lat.cell(
                old(self).tile_at(id1 as int).row as int,
                old(self).tile_at(id1 as int).col as int,
            ) == 0,
            final(self).lat.cell(
                old(self).tile_at(id1 as int).row2(),
                old(self).tile_at(id1 as int).col2(),
            ) == 0,
            final(self).lat.cell(
                old(self).tile_at(id2 as int).row as int,
                old(self).tile_at(id2 as int).col as int,
            ) == 0,
            final(self).lat.cell(
                old(self).tile_at(id2 as int).row2(),
                old(self).tile_at(id2 as int).col2(),
            ) == 0,
            forall|a: int, b: int|
                old(self).lat.in_alloc(a, b) && !old(self).tile_at(id1 as int).covers(a, b)
                    && !old(self).tile_at(id2 as int).covers(a, b)
                    ==> #[trigger] final(self).lat.cell(a, b) == old(self).lat.cell(a, b),
            old(self).consistent() ==> final(self).consistent(),
    {
        let ghost pre = *old(self);
        let t1 = self.tiles[id1].unwrap();
        let t2 = self.tiles[id2].unwrap();
        proof {
            assert(t1.inside(self.lat.size as int));
            assert(t2.inside(self.lat.size as int));
        }
        self.tiles.set(id1, None);
        self.tiles.set(id2, None);
        proof {
            assert forall|id: int| 0 <= id < self.tiles@.len() && self.tiles@[id] is Some implies (
            #[trigger] self.tiles@[id])->Some_0.inside(self.lat.size as int) by {
                assert(self.tiles@[id] == old(self).tiles@[id]);
            };
            assert forall|k: int| 0 <= k < self.free_ids@.len() implies 1 <= #[trigger] self
                .free_ids@[k] < self.tiles@.len() && self.tiles@[self.free_ids@[k] as int]
                is None by {
                assert(old(self).free_ids@[k] == self.free_ids@[k]);
                assert(old(self).tiles@[old(self).free_ids@[k] as int] is None);
            };
            assert(self.wf());
        }
        self.lat.write(t1.row, t1.col, 0);
        if t1.dir == Direction::Top || t1.dir == Direction::Bottom {
            self.lat.write(t1.row, t1.col + 1, 0);
        } else {
            self.lat.write(t1.row + 1, t1.col, 0);
        }
        self.lat.write(t2.row, t2.col, 0);
        if t2.dir == Direction::Top || t2.dir == Direction::Bottom {
            self.lat.write(t2.row, t2.col + 1, 0);
        } else {
            self.lat.write(t2.row + 1, t2.col, 0);
        }
        self.free_ids.push_back(id1);
        self.free_ids.push_back(id2);
        proof {
            pre.lat.lemma_fp_in_alloc(t1.row as int, t1.col as int);
            pre.lat.lemma_fp_in_alloc(t1.row2(), t1.col2());
            pre.lat.lemma_fp_in_alloc(t2.row as int, t2.col as int);
            pre.lat.lemma_fp_in_alloc(t2.row2(), t2.col2());
            let n = self.free_ids@.len();
            assert forall|k: int| 0 <= k < pre.free_ids@.len() implies #[trigger] pre.free_ids@[k]
                != id1 && pre.free_ids@[k] != id2 by {
                assert(pre.tiles@[pre.free_ids@[k] as int] is None);
            };
            assert forall|k: int| 0 <= k < n implies 1 <= #[trigger] self.free_ids@[k] < self
                .tiles@.len() && self.tiles@[self.free_ids@[k] as int] is None by {
                if k < n - 2 {
                    assert(self.free_ids@[k] == pre.free_ids@[k]);
                    assert(pre.tiles@[pre.free_ids@[k] as int] is None);
                }
            };
            assert forall|k1: int, k2: int| 0 <= k1 < k2 < n implies #[trigger] self.free_ids@[k1]
                != #[trigger] self.free_ids@[k2] by {
                if k2 < n - 2 {
                    assert(self.free_ids@[k1] == pre.free_ids@[k1]);
                    assert(self.free_ids@[k2] == pre.free_ids@[k2]);
                } else if k1 < n - 2 {
                    assert(self.free_ids@[k1] == pre.free_ids@[k1]);
                }
            };
            assert forall|a: int, b: int| self.lat.in_fp(a, b) implies #[trigger] self.lat.cell(
                a,
                b,
            ) < self.tiles@.len() by {
                pre.lat.lemma_fp_in_alloc(a, b);
            };
            assert forall|a: int, b: int|
                self.lat.in_alloc(a, b) && !self.lat.in_fp(a, b) implies #[trigger] self.lat.cell(
                a,
                b,
            ) == 0 by {
                assert(pre.lat.cell(a, b) == 0);
            };
            assert(self.wf());
            if pre.consistent() {
                assert forall|id: int|
                    0 <= id < self.tiles@.len() && self.tiles@[id] is Some implies self.lat.cell(
                    (#[trigger] self.tiles@[id])->Some_0.row as int,
                    self.tiles@[id]->Some_0.col as int,
                ) == id && self.lat.cell(
                    self.tiles@[id]->Some_0.row2(),
                    self.tiles@[id]->Some_0.col2(),
                ) == id by {
                    assert(id != id1 && id != id2);
                    assert(pre.live(id));
                    let t = pre.tile_at(id);
                    assert(pre.lat.cell(t.row as int, t.col as int) == id);
                    assert(pre.lat.cell(t.row2(), t.col2()) == id);
                    assert(pre.lat.cell(t1.row as int, t1.col as int) == id1);
                    assert(pre.lat.cell(t1.row2(), t1.col2()) == id1);
                    assert(pre.lat.cell(t2.row as int, t2.col as int) == id2);
                    assert(pre.lat.cell(t2.row2(), t2.col2()) == id2);
                    pre.lat.lemma_fp_in_alloc(t.row as int, t.col as int);
                    pre.lat.lemma_fp_in_alloc(t.row2(), t.col2());
                };
                assert forall|a: int, b: int|
                    self.lat.in_fp(a, b) && #[trigger] self.lat.cell(a, b) != 0 implies 0 <= self
                    .lat.cell(a, b) < self.tiles@.len() && self.tiles@[self.lat.cell(a, b) as int]
                    is Some && self.tiles@[self.lat.cell(a, b) as int]->Some_0.covers(a, b) by {
                    pre.lat.lemma_fp_in_alloc(a, b);
                    assert(!t1.covers(a, b) && !t2.covers(a, b));
                    let u = pre.lat.cell(a, b) as int;
                    assert(pre.live(u) && pre.tile_at(u).covers(a, b));
                    if u == id1 || u == id2 {
                        assert(false);
                    }
                };
                assert(self.consistent());
            }
        }
    }

    /// A state whose tiles are a subset of another's, with every cell kept
    /// or cleared, has no collision the other lacked.
    proof fn lemma_collisions_monotone(pre: Diamond, post: Diamond)
        requires
            pre.wf(),
            post.lat.size == pre.lat.size,
            post.lat.capacity == pre.lat.capacity,
            post.lat.origin_r == pre.lat.origin_r,
            post.lat.origin_c == pre.lat.origin_c,
            forall|id: int|
                #[trigger] post.live(id) ==> pre.live(id) && post.tile_at(id) == pre.tile_at(id),
            forall|a: int, b: int|
                pre.lat.in_alloc(a, b) ==> #[trigger] post.lat.cell(a, b) == pre.lat.cell(a, b)
                    || post.lat.cell(a, b) == 0,
        ensures
            forall|x: int, y: int|
                #[trigger] post.collision_v(x, y) ==> pre.collision_v(x, y),
            forall|x: int, y: int|
                #[trigger] post.collision_h(x, y) ==> pre.collision_h(x, y),
    {
        assert forall|x: int, y: int| #[trigger] post.collision_v(x, y) implies pre.collision_v(
            x,
            y,
        ) by {
            pre.lat.lemma_fp_in_alloc(x, y);
            pre.lat.lemma_fp_in_alloc(x + 1, y);
        };
        assert forall|x: int, y: int| #[trigger] post.collision_h(x, y) implies pre.collision_h(
            x,
            y,
        ) by {
            pre.lat.lemma_fp_in_alloc(x, y);
            pre.lat.lemma_fp_in_alloc(x, y + 1);
        };
    }

    /// One elimination probe at `(i, j)`: when the probed cell holds a
    /// `Bottom` tile and the cell below a `Top` tile — taken only past the
    /// row's span start, the boundary guard the algorithm keeps asymmetric —
    /// or the probed cell holds a `Right` tile and the cell right of it a
    /// `Left` tile, both tiles die: they leave the table, the four cells
    /// they stand on are zeroed, and their ids queue up first-in-first-out.
    #[verifier::rlimit(100)]
    fn eliminate_at(&mut self, i: usize, j: usize, b: usize, e: usize, Ghost(pre): Ghost<Diamond>)
        requires
            old(self).wf(),
            pre.wf(),
            old(self).lat.size == pre.lat.size,
            old(self).lat.capacity == pre.lat.capacity,
            old(self).lat.origin_r == pre.lat.origin_r,
            old(self).lat.origin_c == pre.lat.origin_c,
            i + 1 < old(self).lat.size,
            b == row_start(old(self).lat.size as int, i as int),
            e == row_end(old(self).lat.size as int, i as int),
            b <= j,
            j + 1 < e,
            forall|id: int|
                #[trigger] old(self).live(id) ==> pre.live(id) && old(self).tile_at(id)
                    == pre.tile_at(id),
            pre.consistent() ==> old(self).consistent(),
        ensures
            final(self).wf(),
            final(self).lat.size == old(self).lat.size,
            final(self).lat.capacity == old(self).lat.capacity,
            final(self).lat.origin_r == old(self).lat.origin_r,
            final(self).lat.origin_c == old(self).lat.origin_c,
            final(self).cur_row == old(self).cur_row,
            final(self).cur_col == old(self).cur_col,
            final(self).prob == old(self).prob,
            final(self).tiles@.len() == old(self).tiles@.len(),
            forall|id: int|
                #[trigger] final(self).live(id) ==> old(self).live(id) && pre.live(id) && final(self).tile_at(id) == pre.tile_at(id),
            forall|a: int, b2: int|
                old(self).lat.in_alloc(a, b2) ==> #[trigger] final(self).lat.cell(a, b2) == old(
                    self,
                ).lat.cell(a, b2) || final(self).lat.cell(a, b2) == 0,
            old(self).free_ids@.is_prefix_of(final(self).free_ids@),
            final(self).free_ids@.len() == old(self).free_ids@.len() || final(self).free_ids@.len()
                == old(self).free_ids@.len() + 2,
            final(self).free_ids@.len() == old(self).free_ids@.len() + 2 ==> old(
                self,
            ).collided_pair(
                final(self).free_ids@[old(self).free_ids@.len() as int],
                final(self).free_ids@[old(self).free_ids@.len() as int + 1],
            ),
            forall|k: int|
                old(self).free_ids@.len() <= k < final(self).free_ids@.len() ==> old(self).live(
                    #[trigger] final(self).free_ids@[k] as int,
                ) && !final(self).live(final(self).free_ids@[k] as int),
            forall|id2: int|
                old(self).live(id2) && !(#[trigger] final(self).live(id2)) ==> exists|k: int|
                    old(self).free_ids@.len() <= k < final(self).free_ids@.len()
                        && final(self).free_ids@[k as int] == id2,
            forall|id2: int|
                old(self).live(id2) && !(#[trigger] final(self).live(id2)) ==> final(self).lat.cell(
                    old(self).tile_at(id2).row as int,
                    old(self).tile_at(id2).col as int,
                ) == 0 && final(self).lat.cell(
                    old(self).tile_at(id2).row2(),
                    old(self).tile_at(id2).col2(),
                ) == 0,
            pre.consistent() ==> final(self).consistent(),
            forall|x: int, y: int|
                #[trigger] final(self).collision_v(x, y) ==> old(self).collision_v(x, y),
            forall|x: int, y: int|
                #[trigger] final(self).collision_h(x, y) ==> old(self).collision_h(x, y),
            !final(self).collision_v(i as int, j as int),
            !final(self).collision_h(i as int, j as int),
            forall|id2: int|
                old(self).live(id2) && !(#[trigger] final(self).live(id2)) ==> old(
                    self,
                ).in_collision(id2),
    {
        let ghost si = *old(self);
        let size = self.lat.size;
        let v1 = self.lat.read(i, j);
        if v1 != 0 {
            if let Some(t1) = self.tiles[v1] {
                if t1.dir == Direction::Bottom && j > b {
                    proof {
                        assert(self.lat.in_fp(i + 1, j as int));
                    }
                    let v2 = self.lat.read(i + 1, j);
                    if v2 != 0 {
                        if let Some(t2) = self.tiles[v2] {
                            if t2.dir == Direction::Top {
                                proof {
                                    assert(self.live(v1 as int) && self.live(v2 as int));
                                    assert(self.collision_v(i as int, j as int));
                                }
                                self.remove_pair(v1, v2);
                            }
                        }
                    }
                } else if t1.dir == Direction::Right {
                    let v2 = self.lat.read(i, j + 1);
                    if v2 != 0 {
                        if let Some(t2) = self.tiles[v2] {
                            if t2.dir == Direction::Left {
                                proof {
                                    assert(self.live(v1 as int) && self.live(v2 as int));
                                    assert(self.collision_h(i as int, j as int));
                                }
                                self.remove_pair(v1, v2);
                            }
                        }
                    }
                }
            }
        }
        proof {
            si.lat.lemma_fp_in_alloc(i as int, j as int);
            assert forall|id: int| #[trigger] self.live(id) implies si.live(id) && pre.live(id)
                && self.tile_at(id) == pre.tile_at(id) by {
                assert(si.live(id));
                assert(si.tile_at(id) == self.tile_at(id));
            };
            assert forall|a: int, b2: int| si.lat.in_alloc(a, b2) implies #[trigger] self.lat.cell(
                a,
                b2,
            ) == si.lat.cell(a, b2) || self.lat.cell(a, b2) == 0 by {};
            Self::lemma_collisions_monotone(si, *self);
            assert(!self.collision_v(i as int, j as int));
            assert(!self.collision_h(i as int, j as int));
            if self.free_ids@.len() == si.free_ids@.len() + 2 {
                let base = si.free_ids@.len() as int;
                if si.collision_v(i as int, j as int) {
                    assert(si.collision_v(i as int, j as int) && si.lat.cell(i as int, j as int)
                        == self.free_ids@[base] && si.lat.cell(i + 1, j as int)
                        == self.free_ids@[base + 1]);
                } else {
                    assert(si.collision_h(i as int, j as int) && si.lat.cell(i as int, j as int)
                        == self.free_ids@[base] && si.lat.cell(i as int, j + 1)
                        == self.free_ids@[base + 1]);
                }
                assert(si.collided_pair(self.free_ids@[base], self.free_ids@[base + 1])) by {
                    reveal(Diamond::collided_pair);
                };
            }
            assert forall|id2: int|
                si.live(id2) && !(#[trigger] self.live(id2)) implies exists|k: int|
                    si.free_ids@.len() <= k < self.free_ids@.len() && self.free_ids@[k as int]
                        == id2 by {
                if self.free_ids@.len() > si.free_ids@.len() {
                    let base = si.free_ids@.len() as int;
                    assert(id2 == self.free_ids@[base] || id2 == self.free_ids@[base + 1]);
                }
            };
            assert forall|id2: int|
                si.live(id2) && !(#[trigger] self.live(id2)) implies si.in_collision(id2) by {
                if si.collision_v(i as int, j as int) {
                    assert(si.lat.cell(i as int, j as int) == id2 || si.lat.cell(i + 1, j as int)
                        == id2);
                } else {
                    assert(si.collision_h(i as int, j as int));
                    assert(si.lat.cell(i as int, j as int) == id2 || si.lat.cell(i as int, j + 1)
                        == id2);
                }
            };
        }
    }

    /// The elimination phase: probe the diamond row-major and destroy every
    /// colliding pair — a cell holding a `Bottom` tile over a cell holding
    /// a `Top` tile, taken only past the row's span start (the boundary
    /// guard stays asymmetric on purpose), or one holding a `Right` tile
    /// left of one holding a `Left` tile.  Each pair's own four cells are
    /// zeroed and its two ids queue up together, the probed member first,
    /// so the freed segment grows in adjacent collided pairs; no colliding
    /// pair survives the scan.
    #[verifier::rlimit(100)]
    pub fn eliminate_stuck_tiles(&mut self)
        requires
            old(self).wf(),
        ensures
            final(self).wf(),
            final(self).lat.size == old(self).lat.size,
            final(self).lat.capacity == old(self).lat.capacity,
            final(self).lat.origin_r == old(self).lat.origin_r,
            final(self).lat.origin_c == old(self).lat.origin_c,
            final(self).cur_row == old(self).cur_row,
            final(self).cur_col == old(self).cur_col,
            final(self).prob == old(self).prob,
            final(self).tiles@.len() == old(self).tiles@.len(),
            old(self).lat.size == 0 ==> *final(self) == *old(self),
            forall|id: int|
                #[trigger] final(self).live(id) ==> old(self).live(id) && final(self).tile_at(id)
                    == old(self).tile_at(id),
            old(self).free_ids@.is_prefix_of(final(self).free_ids@),
            forall|k: int|
                old(self).free_ids@.len() <= k < final(self).free_ids@.len() ==> old(self).live(
                    (#[trigger] final(self).free_ids@[k]) as int,
                ) && !final(self).live(final(self).free_ids@[k] as int),
            forall|k: int|
                old(self).free_ids@.len() <= k < final(self).free_ids@.len() && (k - old(
                    self,
                ).free_ids@.len()) % 2 == 0 ==> k + 1 < final(self).free_ids@.len() && old(
                    self,
                ).collided_pair(
                    (#[trigger] final(self).free_ids@[k]),
                    final(self).free_ids@[k + 1],
                ),
            forall|id: int|
                old(self).live(id) && !(#[trigger] final(self).live(id)) ==> exists|k: int|
                    old(self).free_ids@.len() <= k < final(self).free_ids@.len() && final(self).free_ids@[k as int] == id,
            forall|id: int|
                old(self).live(id) && !(#[trigger] final(self).live(id)) ==> final(self).lat.cell(
                    old(self).tile_at(id).row as int,
                    old(self).tile_at(id).col as int,
                ) == 0 && final(self).lat.cell(
                    old(self).tile_at(id).row2(),
                    old(self).tile_at(id).col2(),
                ) == 0,
            old(self).consistent() ==> final(self).consistent() && final(self).collision_free(),
            forall|id: int|
                old(self).live(id) && !(#[trigger] final(self).live(id)) ==> old(
                    self,
                ).in_collision(id),
    {
        let ghost pre = *old(self);
        let size = self.lat.size;
        if size == 0 {
            proof {
                assert forall|x: int, y: int| !(#[trigger] self.collision_v(x, y)) by {};
                assert forall|x: int, y: int| !(#[trigger] self.collision_h(x, y)) by {};
            }
            return ;
        }
        let mut i: usize = 0;
        while i < size - 1
            invariant
                self.lat.size == pre.lat.size,
                self.lat.capacity == pre.lat.capacity,
                self.lat.origin_r == pre.lat.origin_r,
                self.lat.origin_c == pre.lat.origin_c,
                self.cur_row == pre.cur_row,
                self.cur_col == pre.cur_col,
                self.prob == pre.prob,
                self.wf(),
                pre.wf(),
                size == self.lat.size,
                2 <= size,
                i <= size,
                forall|id: int|
                    #[trigger] self.live(id) ==> pre.live(id) && self.tile_at(id) == pre.tile_at(
                        id,
                    ),
                forall|a: int, b: int|
                    pre.lat.in_alloc(a, b) ==> #[trigger] self.lat.cell(a, b) == pre.lat.cell(a, b)
                        || self.lat.cell(a, b) == 0,
                forall|id: int|
                    pre.live(id) && !(#[trigger] self.live(id)) ==> pre.in_collision(id),
                pre.free_ids@.is_prefix_of(self.free_ids@),
                self.tiles@.len() == pre.tiles@.len(),
                forall|k: int|
                    pre.free_ids@.len() <= k < self.free_ids@.len() ==> pre.live(
                        (#[trigger] self.free_ids@[k]) as int,
                    ) && !self.live(self.free_ids@[k] as int),
                (self.free_ids@.len() - pre.free_ids@.len()) % 2 == 0,
                forall|k: int|
                    pre.free_ids@.len() <= k < self.free_ids@.len() && (k
                        - pre.free_ids@.len()) % 2 == 0 ==> k + 1 < self.free_ids@.len()
                        && pre.collided_pair(
                        (#[trigger] self.free_ids@[k]),
                        self.free_ids@[k + 1],
                    ),
                forall|id: int|
                    pre.live(id) && !(#[trigger] self.live(id)) ==> exists|k: int|
                        pre.free_ids@.len() <= k < self.free_ids@.len() && self.free_ids@[k as int]
                            == id,
                forall|id: int|
                    pre.live(id) && !(#[trigger] self.live(id)) ==> self.lat.cell(
                        pre.tile_at(id).row as int,
                        pre.tile_at(id).col as int,
                    ) == 0 && self.lat.cell(pre.tile_at(id).row2(), pre.tile_at(id).col2()) == 0,
                pre.consistent() ==> self.consistent(),
                pre.consistent() ==> forall|x: int, y: int|
                    x < i ==> !(#[trigger] self.collision_v(x, y)),
                pre.consistent() ==> forall|x: int, y: int|
                    x < i ==> !(#[trigger] self.collision_h(x, y)),
            decreases size - i,
        {
            let sp = self.lat.row_span(i);
            let b = sp.0;
            let e = sp.1;
            let mut j: usize = b;
            while j + 1 < e
                invariant
                    self.lat.size == pre.lat.size,
                    self.lat.capacity == pre.lat.capacity,
                    self.lat.origin_r == pre.lat.origin_r,
                    self.lat.origin_c == pre.lat.origin_c,
                    self.cur_row == pre.cur_row,
                    self.cur_col == pre.cur_col,
                    self.prob == pre.prob,
                    self.wf(),
                    pre.wf(),
                    size == self.lat.size,
                    2 <= size,
                    i < size - 1,
                    b == row_start(size as int, i as int),
                    e == row_end(size as int, i as int),
                    b <= j <= size,
                    forall|id: int|
                        #[trigger] self.live(id) ==> pre.live(id) && self.tile_at(id)
                            == pre.tile_at(id),
                    forall|a: int, b2: int|
                        pre.lat.in_alloc(a, b2) ==> #[trigger] self.lat.cell(a, b2)
                            == pre.lat.cell(a, b2) || self.lat.cell(a, b2) == 0,
                    forall|id: int|
                        pre.live(id) && !(#[trigger] self.live(id)) ==> pre.in_collision(id),
                    pre.free_ids@.is_prefix_of(self.free_ids@),
                    self.tiles@.len() == pre.tiles@.len(),
                    forall|k: int|
                        pre.free_ids@.len() <= k < self.free_ids@.len() ==> pre.live(
                            (#[trigger] self.free_ids@[k]) as int,
                        ) && !self.live(self.free_ids@[k] as int),
                    (self.free_ids@.len() - pre.free_ids@.len()) % 2 == 0,
                    forall|k: int|
                        pre.free_ids@.len() <= k < self.free_ids@.len() && (k
                            - pre.free_ids@.len()) % 2 == 0 ==> k + 1 < self.free_ids@.len()
                            && pre.collided_pair(
                            (#[trigger] self.free_ids@[k]),
                            self.free_ids@[k + 1],
                        ),
                    forall|id: int|
                        pre.live(id) && !(#[trigger] self.live(id)) ==> exists|k: int|
                            pre.free_ids@.len() <= k < self.free_ids@.len() && self.free_ids@[k as int]
                                == id,
                    forall|id: int|
                        pre.live(id) && !(#[trigger] self.live(id)) ==> self.lat.cell(
                            pre.tile_at(id).row as int,
                            pre.tile_at(id).col as int,
                        ) == 0 && self.lat.cell(pre.tile_at(id).row2(), pre.tile_at(id).col2()) == 0,
                    pre.consistent() ==> self.consistent(),
                    pre.consistent() ==> forall|x: int, y: int|
                        x < i ==> !(#[trigger] self.collision_v(x, y)),
                    pre.consistent() ==> forall|x: int, y: int|
                        x < i ==> !(#[trigger] self.collision_h(x, y)),
                    pre.consistent() ==> forall|y: int|
                        y < j ==> !(#[trigger] self.collision_v(i as int, y)),
                    pre.consistent() ==> forall|y: int|
                        y < j ==> !(#[trigger] self.collision_h(i as int, y)),
                decreases size - j,
            {
                let ghost si = *self;
                self.eliminate_at(i, j, b, e, Ghost(pre));
                proof {
                    assert forall|id: int|
                        pre.live(id) && !(#[trigger] self.live(id)) implies pre.in_collision(
                        id,
                    ) by {
                        if si.live(id) {
                            assert(si.in_collision(id));
                            Self::lemma_collisions_monotone(pre, si);
                            if exists|x: int, y: int|
                                #[trigger] si.collision_v(x, y) && (si.lat.cell(x, y) == id
                                    || si.lat.cell(x + 1, y) == id) {
                                let (x, y) = choose|x: int, y: int|
                                    #[trigger] si.collision_v(x, y) && (si.lat.cell(x, y) == id
                                        || si.lat.cell(x + 1, y) == id);
                                pre.lat.lemma_fp_in_alloc(x, y);
                                pre.lat.lemma_fp_in_alloc(x + 1, y);
                                assert(pre.collision_v(x, y));
                                assert(pre.lat.cell(x, y) == si.lat.cell(x, y));
                                assert(pre.lat.cell(x + 1, y) == si.lat.cell(x + 1, y));
                                assert(pre.collision_v(x, y) && (pre.lat.cell(x, y) == id
                                    || pre.lat.cell(x + 1, y) == id));
                            } else {
                                let (x, y) = choose|x: int, y: int|
                                    #[trigger] si.collision_h(x, y) && (si.lat.cell(x, y) == id
                                        || si.lat.cell(x, y + 1) == id);
                                pre.lat.lemma_fp_in_alloc(x, y);
                                pre.lat.lemma_fp_in_alloc(x, y + 1);
                                assert(pre.collision_h(x, y));
                                assert(pre.lat.cell(x, y) == si.lat.cell(x, y));
                                assert(pre.lat.cell(x, y + 1) == si.lat.cell(x, y + 1));
                                assert(pre.collision_h(x, y) && (pre.lat.cell(x, y) == id
                                    || pre.lat.cell(x, y + 1) == id));
                            }
                        }
                    };
                    assert(pre.free_ids@.is_prefix_of(self.free_ids@)) by {
                        assert(pre.free_ids@.is_prefix_of(si.free_ids@));
                        assert(si.free_ids@.is_prefix_of(self.free_ids@));
                        assert(pre.free_ids@ =~= self.free_ids@.subrange(
                            0,
                            pre.free_ids@.len() as int,
                        ));
                    };
                    assert(si.free_ids@ =~= self.free_ids@.subrange(
                        0,
                        si.free_ids@.len() as int,
                    ));
                    assert forall|k: int|
                        pre.free_ids@.len() <= k < self.free_ids@.len() implies pre.live(
                        (#[trigger] self.free_ids@[k]) as int,
                    ) && !self.live(self.free_ids@[k] as int) by {
                        if k < si.free_ids@.len() {
                            assert(self.free_ids@[k] == si.free_ids@[k]);
                            assert(pre.live(si.free_ids@[k] as int) && !si.live(
                                si.free_ids@[k] as int,
                            ));
                        } else {
                            assert(si.live(self.free_ids@[k] as int) && !self.live(
                                self.free_ids@[k] as int,
                            ));
                        }
                    };
                    assert forall|k: int|
                        pre.free_ids@.len() <= k < self.free_ids@.len() && (k
                            - pre.free_ids@.len()) % 2 == 0 implies k + 1 < self.free_ids@.len()
                        && pre.collided_pair(
                        (#[trigger] self.free_ids@[k]),
                        self.free_ids@[k + 1],
                    ) by {
                        if k < si.free_ids@.len() {
                            assert(k + 1 < si.free_ids@.len() && pre.collided_pair(
                                si.free_ids@[k],
                                si.free_ids@[k + 1],
                            ));
                            assert(self.free_ids@[k] == si.free_ids@[k]);
                            assert(self.free_ids@[k + 1] == si.free_ids@[k + 1]);
                        } else {
                            reveal(Diamond::collided_pair);
                            let base = si.free_ids@.len() as int;
                            assert(k == base);
                            assert(si.collided_pair(self.free_ids@[base], self.free_ids@[base + 1]));
                            let a2 = self.free_ids@[base];
                            let b2 = self.free_ids@[base + 1];
                            if exists|x: int, y: int|
                                #[trigger] si.collision_v(x, y) && si.lat.cell(x, y) == a2
                                    && si.lat.cell(x + 1, y) == b2 {
                                let (x, y) = choose|x: int, y: int|
                                    #[trigger] si.collision_v(x, y) && si.lat.cell(x, y) == a2
                                        && si.lat.cell(x + 1, y) == b2;
                                pre.lat.lemma_fp_in_alloc(x, y);
                                pre.lat.lemma_fp_in_alloc(x + 1, y);
                                Self::lemma_collisions_monotone(pre, si);
                                assert(pre.collision_v(x, y) && pre.lat.cell(x, y) == a2
                                    && pre.lat.cell(x + 1, y) == b2);
                            } else {
                                let (x, y) = choose|x: int, y: int|
                                    #[trigger] si.collision_h(x, y) && si.lat.cell(x, y) == a2
                                        && si.lat.cell(x, y + 1) == b2;
                                pre.lat.lemma_fp_in_alloc(x, y);
                                pre.lat.lemma_fp_in_alloc(x, y + 1);
                                Self::lemma_collisions_monotone(pre, si);
                                assert(pre.collision_h(x, y) && pre.lat.cell(x, y) == a2
                                    && pre.lat.cell(x, y + 1) == b2);
                            }
                            assert(pre.collided_pair(a2, b2));
                        }
                    };
                    assert forall|id: int|
                        pre.live(id) && !(#[trigger] self.live(id)) implies exists|k: int|
                            pre.free_ids@.len() <= k < self.free_ids@.len()
                                && self.free_ids@[k as int] == id by {
                        if si.live(id) {
                            let k0 = choose|k0: int|
                                si.free_ids@.len() <= k0 < self.free_ids@.len()
                                    && self.free_ids@[k0 as int] == id;
                            assert(self.free_ids@[k0] == id);
                        } else {
                            let k1 = choose|k1: int|
                                pre.free_ids@.len() <= k1 < si.free_ids@.len()
                                    && si.free_ids@[k1 as int] == id;
                            assert(self.free_ids@[k1] == si.free_ids@[k1]);
                            assert(self.free_ids@[k1] == id);
                        }
                    };
                    assert forall|id: int|
                        pre.live(id) && !(#[trigger] self.live(id)) implies self.lat.cell(
                        pre.tile_at(id).row as int,
                        pre.tile_at(id).col as int,
                    ) == 0 && self.lat.cell(pre.tile_at(id).row2(), pre.tile_at(id).col2())
                        == 0 by {
                        pre.lat.lemma_fp_in_alloc(
                            pre.tile_at(id).row as int,
                            pre.tile_at(id).col as int,
                        );
                        pre.lat.lemma_fp_in_alloc(pre.tile_at(id).row2(), pre.tile_at(id).col2());
                        if si.live(id) {
                            assert(si.tile_at(id) == pre.tile_at(id));
                        } else {
                            assert(si.lat.cell(
                                pre.tile_at(id).row as int,
                                pre.tile_at(id).col as int,
                            ) == 0);
                            assert(si.lat.cell(pre.tile_at(id).row2(), pre.tile_at(id).col2())
                                == 0);
                        }
                    };
                    if pre.consistent() {
                        assert forall|x: int, y: int| x < i implies !(#[trigger] self.collision_v(
                            x,
                            y,
                        )) by {
                            if self.collision_v(x, y) {
                                assert(si.collision_v(x, y));
                            }
                        };
                        assert forall|x: int, y: int| x < i implies !(#[trigger] self.collision_h(
                            x,
                            y,
                        )) by {
                            if self.collision_h(x, y) {
                                assert(si.collision_h(x, y));
                            }
                        };
                        assert forall|y: int| y < j + 1 implies !(#[trigger] self.collision_v(
                            i as int,
                            y,
                        )) by {
                            if y < j && self.collision_v(i as int, y) {
                                assert(si.collision_v(i as int, y));
                            }
                        };
                        assert forall|y: int| y < j + 1 implies !(#[trigger] self.collision_h(
                            i as int,
                            y,
                        )) by {
                            if y < j && self.collision_h(i as int, y) {
                                assert(si.collision_h(i as int, y));
                            }
                        };
                    }
                }
                j = j + 1;
            }
            proof {
                if pre.consistent() {
                    assert forall|y: int| !(#[trigger] self.collision_v(i as int, y)) by {};
                    assert forall|y: int| !(#[trigger] self.collision_h(i as int, y)) by {};
                }
            }
            i = i + 1;
        }
        proof {
            if pre.consistent() {
                assert forall|x: int, y: int| !(#[trigger] self.collision_v(x, y)) by {
                    if x >= i && self.collision_v(x, y) {
                        assert(in_diamond(size as int, x + 1, y));
                    }
                };
                assert forall|x: int, y: int| !(#[trigger] self.collision_h(x, y)) by {};
            }
        }
    }

    /// Stamp a fresh domino pair into the empty 2x2 block at `(i, j)`.
    /// Horizontal: a `Top` tile over the block's upper row and a `Bottom`
    /// tile over its lower row; vertical: a `Left` tile over its left column
    /// and a `Right` tile over its right column.  The first tile gets
    /// `next_id1`, the second `next_id2`.
    #[verifier::spinoff_prover]
    #[verifier::rlimit(100)]
    pub fn tile_square(&mut self, i: usize, j: usize, horizontal: bool)
        requires
            old(self).wf(),
            old(self).empty_square(i as int, j as int),
        ensures
            final(self).wf(),
            final(self).lat.size == old(self).lat.size,
            final(self).lat.capacity == old(self).lat.capacity,
            final(self).lat.origin_r == old(self).lat.origin_r,
            final(self).lat.origin_c == old(self).lat.origin_c,
            final(self).cur_row == old(self).cur_row,
            final(self).cur_col == old(self).cur_col,
            final(self).prob == old(self).prob,
            final(self).live(old(self).next_id1()),
            final(self).live(old(self).next_id2()),
            final(self).tile_at(old(self).next_id1()) == (if horizontal {
                Tile { row: i, col: j, dir: Direction::Top }
            } else {
                Tile { row: i, col: j, dir: Direction::Left }
            }),
            final(self).tile_at(old(self).next_id2()) == (if horizontal {
                Tile { row: (i + 1) as usize, col: j, dir: Direction::Bottom }
            } else {
                Tile { row: i, col: (j + 1) as usize, dir: Direction::Right }
            }),
            final(self).tiles@.len() as int == (if old(self).free_ids@.len() >= 2 {
                old(self).tiles@.len() as int
            } else if old(self).free_ids@.len() == 1 {
                old(self).tiles@.len() as int + 1
            } else {
                old(self).tiles@.len() as int + 2
            }),
            forall|id: int|
                0 <= id < old(self).tiles@.len() && id != old(self).next_id1() && id != old(
                    self,
                ).next_id2() ==> #[trigger] final(self).tiles@[id] == old(self).tiles@[id],
            final(self).free_ids@ == (if old(self).free_ids@.len() >= 2 {
                old(self).free_ids@.subrange(2, old(self).free_ids@.len() as int)
            } else {
                Seq::<usize>::empty()
            }),
            ({
                let a = old(self).next_id1();
                let b = old(self).next_id2();
                if horizontal {
                    final(self).lat.cell(i as int, j as int) == a && final(self).lat.cell(
                        i as int,
                        j + 1,
                    ) == a && final(self).lat.cell(i + 1, j as int) == b && final(self).lat.cell(
                        i + 1,
                        j + 1,
                    ) == b
                } else {
                    final(self).lat.cell(i as int, j as int) == a && final(self).lat.cell(
                        i + 1,
                        j as int,
                    ) == a && final(self).lat.cell(i as int, j + 1) == b && final(self).lat.cell(
                        i + 1,
                        j + 1,
                    ) == b
                }
            }),
            forall|a2: int, b2: int|
                old(self).lat.in_alloc(a2, b2) && !((a2 == i || a2 == i + 1) && (b2 == j || b2 == j
                    + 1)) ==> #[trigger] final(self).lat.cell(a2, b2) == old(self).lat.cell(a2, b2),
            crate::lattice::zero_count(final(self).lat.data@) < crate::lattice::zero_count(
                old(self).lat.data@,
            ),
            old(self).consistent() ==> final(self).consistent(),
    {
        let ghost pre = *old(self);
        let a = self.next_tile_id();
        let b = self.next_tile_id();
        let ghost cap = self.lat.capacity as int;
        let ghost orr = self.lat.origin_r as int;
        let ghost occ = self.lat.origin_c as int;
        let ghost d0 = self.lat.data@;
        let ta = if horizontal {
            Tile { row: i, col: j, dir: Direction::Top }
        } else {
            Tile { row: i, col: j, dir: Direction::Left }
        };
        let tb = if horizontal {
            Tile { row: i + 1, col: j, dir: Direction::Bottom }
        } else {
            Tile { row: i, col: j + 1, dir: Direction::Right }
        };
        self.lat.write(i, j, a);
        proof {
            crate::lattice::lemma_zero_count_update(
                d0,
                crate::lattice::slot(cap, i + orr, j + occ),
                a,
            );
        }
        let ghost d1 = self.lat.data@;
        if horizontal {
            self.lat.write(i, j + 1, a);
            proof {
                crate::lattice::lemma_zero_count_update(
                    d1,
                    crate::lattice::slot(cap, i + orr, j + 1 + occ),
                    a,
                );
            }
            let ghost d2 = self.lat.data@;
            self.lat.write(i + 1, j, b);
            proof {
                crate::lattice::lemma_zero_count_update(
                    d2,
                    crate::lattice::slot(cap, i + 1 + orr, j + occ),
                    b,
                );
            }
            let ghost d3 = self.lat.data@;
            self.lat.write(i + 1, j + 1, b);
            proof {
                crate::lattice::lemma_zero_count_update(
                    d3,
                    crate::lattice::slot(cap, i + 1 + orr, j + 1 + occ),
                    b,
                );
            }
        } else {
            self.lat.write(i + 1, j, a);
            proof {
                crate::lattice::lemma_zero_count_update(
                    d1,
                    crate::lattice::slot(cap, i + 1 + orr, j + occ),
                    a,
                );
            }
            let ghost d2 = self.lat.data@;
            self.lat.write(i, j + 1, b);
            proof {
                crate::lattice::lemma_zero_count_update(
                    d2,
                    crate::lattice::slot(cap, i + orr, j + 1 + occ),
                    b,
                );
            }
            let ghost d3 = self.lat.data@;
            self.lat.write(i + 1, j + 1, b);
            proof {
                crate::lattice::lemma_zero_count_update(
                    d3,
                    crate::lattice::slot(cap, i + 1 + orr, j + 1 + occ),
                    b,
                );
            }
        }
        self.tiles.set(a, Some(ta));
        self.tiles.set(b, Some(tb));
        proof {
            pre.lat.lemma_fp_in_alloc(i as int, j as int);
            pre.lat.lemma_fp_in_alloc(i as int, j + 1);
            pre.lat.lemma_fp_in_alloc(i + 1, j as int);
            pre.lat.lemma_fp_in_alloc(i + 1, j + 1);
            assert forall|id: int| 0 <= id < self.tiles@.len() && self.tiles@[id] is Some implies (
            #[trigger] self.tiles@[id])->Some_0.inside(self.lat.size as int) by {
                if id != a && id != b {
                    assert(self.tiles@[id] == pre.tiles@[id]);
                }
            };
            assert forall|k: int| 0 <= k < self.free_ids@.len() implies 1 <= #[trigger] self
                .free_ids@[k] < self.tiles@.len() && self.tiles@[self.free_ids@[k] as int]
                is None by {
                assert(self.free_ids@[k] == pre.free_ids@[k + 2]);
                assert(pre.tiles@[pre.free_ids@[k + 2] as int] is None);
            };
            assert forall|a2: int, b2: int| self.lat.in_fp(a2, b2) implies #[trigger] self.lat.cell(
                a2,
                b2,
            ) < self.tiles@.len() by {
                pre.lat.lemma_fp_in_alloc(a2, b2);
            };
            assert forall|a2: int, b2: int|
                self.lat.in_alloc(a2, b2) && !self.lat.in_fp(a2, b2) implies #[trigger] self.lat
                .cell(a2, b2) == 0 by {
                assert(pre.lat.cell(a2, b2) == 0);
            };
            assert(self.wf());
            if pre.consistent() {
                assert forall|id: int|
                    0 <= id < self.tiles@.len() && self.tiles@[id] is Some implies self.lat.cell(
                    (#[trigger] self.tiles@[id])->Some_0.row as int,
                    self.tiles@[id]->Some_0.col as int,
                ) == id && self.lat.cell(
                    self.tiles@[id]->Some_0.row2(),
                    self.tiles@[id]->Some_0.col2(),
                ) == id by {
                    if id != a && id != b {
                        assert(pre.live(id));
                        let t = pre.tile_at(id);
                        assert(pre.lat.cell(t.row as int, t.col as int) == id);
                        assert(pre.lat.cell(t.row2(), t.col2()) == id);
                        pre.lat.lemma_fp_in_alloc(t.row as int, t.col as int);
                        pre.lat.lemma_fp_in_alloc(t.row2(), t.col2());
                    }
                };
                assert forall|i2: int, j2: int|
                    self.lat.in_fp(i2, j2) && #[trigger] self.lat.cell(i2, j2) != 0 implies 0
                    <= self.lat.cell(i2, j2) < self.tiles@.len() && self.tiles@[self.lat.cell(
                    i2,
                    j2,
                ) as int] is Some && self.tiles@[self.lat.cell(i2, j2) as int]->Some_0.covers(
                    i2,
                    j2,
                ) by {
                    pre.lat.lemma_fp_in_alloc(i2, j2);
                    if !((i2 == i || i2 == i + 1) && (j2 == j || j2 == j + 1)) {
                        let v = pre.lat.cell(i2, j2) as int;
                        assert(pre.live(v));
                        assert(v != a && v != b);
                        assert(self.tiles@[v] == pre.tiles@[v]);
                    }
                };
                assert(self.consistent());
            }
        }
    }

    /// Every live tile can move one cell along its direction and stay
    /// inside the diamond.
    pub open spec fn can_slide(self) -> bool {
        forall|id: int|
            #[trigger] self.live(id) ==> self.tile_at(id).slid_row() >= 0 && self.tile_at(
                id,
            ).slid_col() >= 0 && self.tile_at(id).slid_spec().inside(self.lat.size as int)
    }

    /// No two distinct tiles land on a shared cell when every tile slides
    /// one step.  This is what the elimination phase is for; that it
    /// establishes this on every reachable state is the deep soundness of
    /// domino shuffling and is not proved here.
    pub open spec fn slide_disjoint(self) -> bool {
        forall|id1: int, id2: int, x: int, y: int|
            self.live(id1) && self.live(id2) && id1 != id2 ==> !((#[trigger] self.tile_at(
                id1,
            ).slid_spec().covers(x, y)) && (#[trigger] self.tile_at(id2).slid_spec().covers(x, y)))
    }

    /// No two distinct tiles of this state, once the coming extension has
    /// shifted them and the move phase slides them, land on a shared cell.
    /// Elimination is there to arrange this before every move; that it does
    /// so on every reachable state is the deep soundness of domino
    /// shuffling, which is not proved here.
    pub open spec fn next_slides_disjoint(self) -> bool {
        forall|id1: int, id2: int, x: int, y: int|
            self.live(id1) && self.live(id2) && id1 != id2 ==> !((#[trigger] self.tile_at(
                id1,
            ).shifted_spec().slid_spec().covers(x, y)) && (#[trigger] self.tile_at(
                id2,
            ).shifted_spec().slid_spec().covers(x, y)))
    }

    /// Grow the diamond by two.  The window recenters, so every tile's
    /// coordinates shift one cell down and right while it stays on the same
    /// stored cells; the translations are independent and run in parallel.
    /// Newly exposed border cells start empty, and afterwards every tile has
    /// room to slide.
    #[verifier::rlimit(100)]
    fn extend(&mut self)
        requires
            old(self).wf(),
            old(self).lat.size + 2 <= old(self).lat.capacity,
        ensures
            final(self).wf(),
            final(self).lat.size == old(self).lat.size + 2,
            final(self).lat.capacity == old(self).lat.capacity,
            final(self).free_ids@ == old(self).free_ids@,
            final(self).cur_row == old(self).cur_row,
            final(self).cur_col == old(self).cur_col,
            final(self).prob == old(self).prob,
            final(self).tiles@.len() == old(self).tiles@.len(),
            forall|id: int|
                0 <= id < old(self).tiles@.len() ==> #[trigger] final(self).tiles@[id]
                    == crate::par::shift_opt(old(self).tiles@[id]),
            forall|a: int, b: int|
                #[trigger] final(self).lat.cell(a, b) == old(self).lat.cell(a - 1, b - 1),
            final(self).can_slide(),
            old(self).consistent() ==> final(self).consistent(),
    {
        let ghost pre = *old(self);
        let ghost size = old(self).lat.size as int;
        proof {
            assert forall|k: int|
                0 <= k < self.tiles@.len() && self.tiles@[k] is Some implies (#[trigger] self
                .tiles@[k])->Some_0.row < CAP_MAX && self.tiles@[k]->Some_0.col < CAP_MAX by {};
        }
        self.lat.grow();
        crate::par::par_shift_tiles(&mut self.tiles);
        proof {
            let ns = size + 2;
            assert forall|id: int|
                0 <= id < self.tiles@.len() && self.tiles@[id] is Some implies (#[trigger] self
                .tiles@[id])->Some_0.inside(ns) by {
                let t = pre.tiles@[id]->Some_0;
                crate::lattice::lemma_diamond_shift(size, 1, t.row as int, t.col as int);
                crate::lattice::lemma_diamond_shift(size, 1, t.row2(), t.col2());
            };
            assert forall|k: int| 0 <= k < self.free_ids@.len() implies 1 <= #[trigger] self
                .free_ids@[k] < self.tiles@.len() && self.tiles@[self.free_ids@[k] as int]
                is None by {
                assert(pre.tiles@[pre.free_ids@[k] as int] is None);
                assert(self.tiles@[self.free_ids@[k] as int] == crate::par::shift_opt(
                    pre.tiles@[pre.free_ids@[k] as int],
                ));
            };
            assert forall|a: int, b: int| self.lat.in_fp(a, b) implies #[trigger] self.lat.cell(
                a,
                b,
            ) < self.tiles@.len() by {
                self.lat.lemma_fp_in_alloc(a, b);
                if !pre.lat.in_fp(a - 1, b - 1) {
                    assert(pre.lat.cell(a - 1, b - 1) == 0);
                }
            };
            assert forall|a: int, b: int|
                self.lat.in_alloc(a, b) && !self.lat.in_fp(a, b) implies #[trigger] self.lat.cell(
                a,
                b,
            ) == 0 by {
                if pre.lat.in_fp(a - 1, b - 1) {
                    crate::lattice::lemma_diamond_shift(size, 1, a - 1, b - 1);
                }
                assert(pre.lat.cell(a - 1, b - 1) == 0);
            };
            assert(self.wf());
            assert forall|id: int| #[trigger] self.live(id) implies self.tile_at(id).slid_row()
                >= 0 && self.tile_at(id).slid_col() >= 0 && self.tile_at(id).slid_spec().inside(
                ns,
            ) by {
                let t = pre.tiles@[id]->Some_0;
                assert(t.inside(size));
                assert(self.tile_at(id) == t.shifted_spec());
            };
            if pre.consistent() {
                assert forall|id: int|
                    0 <= id < self.tiles@.len() && self.tiles@[id] is Some implies self.lat.cell(
                    (#[trigger] self.tiles@[id])->Some_0.row as int,
                    self.tiles@[id]->Some_0.col as int,
                ) == id && self.lat.cell(
                    self.tiles@[id]->Some_0.row2(),
                    self.tiles@[id]->Some_0.col2(),
                ) == id by {
                    let t = pre.tiles@[id]->Some_0;
                    assert(pre.live(id));
                    assert(pre.lat.cell(t.row as int, t.col as int) == id);
                    assert(pre.lat.cell(t.row2(), t.col2()) == id);
                };
                assert forall|a: int, b: int|
                    self.lat.in_fp(a, b) && #[trigger] self.lat.cell(a, b) != 0 implies 0 <= self
                    .lat.cell(a, b) < self.tiles@.len() && self.tiles@[self.lat.cell(a, b) as int]
                    is Some && self.tiles@[self.lat.cell(a, b) as int]->Some_0.covers(a, b) by {
                    self.lat.lemma_fp_in_alloc(a, b);
                    if pre.lat.in_fp(a - 1, b - 1) {
                        let v = pre.lat.cell(a - 1, b - 1) as int;
                        assert(pre.tiles@[v] is Some && pre.tiles@[v]->Some_0.covers(a - 1, b - 1));
                        assert(self.tiles@[v] == crate::par::shift_opt(pre.tiles@[v]));
                    } else {
                        assert(pre.lat.cell(a - 1, b - 1) == 0);
                    }
                };
                assert(self.consistent());
            }
        }
    }

    /// One write of the move pass: clear the tile's old cells while they
    /// still hold its id — a neighbour's landing may have taken them — and
    /// stamp its id onto its landing cells.
    #[verifier::spinoff_prover]
    #[verifier::rlimit(100)]
    fn move_write(&mut self, id: usize, t: Tile, Ghost(pre): Ghost<Diamond>)
        requires
            old(self).wf(),
            pre.wf(),
            old(self).lat.size == pre.lat.size,
            old(self).lat.capacity == pre.lat.capacity,
            old(self).lat.origin_r == pre.lat.origin_r,
            old(self).lat.origin_c == pre.lat.origin_c,
            old(self).tiles@.len() == pre.tiles@.len(),
            0 <= id < pre.tiles@.len(),
            t.inside(pre.lat.size as int),
            t.slid_row() >= 0,
            t.slid_col() >= 0,
            t.slid_spec().inside(pre.lat.size as int),
        ensures
            final(self).wf(),
            final(self).lat.size == old(self).lat.size,
            final(self).lat.capacity == old(self).lat.capacity,
            final(self).lat.origin_r == old(self).lat.origin_r,
            final(self).lat.origin_c == old(self).lat.origin_c,
            final(self).tiles@ == old(self).tiles@,
            final(self).free_ids@ == old(self).free_ids@,
            final(self).cur_row == old(self).cur_row,
            final(self).cur_col == old(self).cur_col,
            final(self).prob == old(self).prob,
            forall|a: int, b: int|
                old(self).lat.in_alloc(a, b) ==> #[trigger] final(self).lat.cell(a, b) == (
                if t.slid_spec().covers(a, b) {
                    id
                } else if t.covers(a, b) && old(self).lat.cell(a, b) == id {
                    0
                } else {
                    old(self).lat.cell(a, b)
                }),
    {
        let ghost si = *old(self);
        proof {
            si.lat.lemma_fp_in_alloc(t.row as int, t.col as int);
            si.lat.lemma_fp_in_alloc(t.row2(), t.col2());
            si.lat.lemma_fp_in_alloc(t.slid_spec().row as int, t.slid_spec().col as int);
            si.lat.lemma_fp_in_alloc(t.slid_spec().row2(), t.slid_spec().col2());
        }
        match t.dir {
            Direction::Top => {
                if self.lat.read(t.row, t.col) == id {
                    self.lat.write(t.row, t.col, 0);
                }
                if self.lat.read(t.row, t.col + 1) == id {
                    self.lat.write(t.row, t.col + 1, 0);
                }
                self.lat.write(t.row - 1, t.col, id);
                self.lat.write(t.row - 1, t.col + 1, id);
            },
            Direction::Bottom => {
                if self.lat.read(t.row, t.col) == id {
                    self.lat.write(t.row, t.col, 0);
                }
                if self.lat.read(t.row, t.col + 1) == id {
                    self.lat.write(t.row, t.col + 1, 0);
                }
                self.lat.write(t.row + 1, t.col, id);
                self.lat.write(t.row + 1, t.col + 1, id);
            },
            Direction::Left => {
                if self.lat.read(t.row, t.col) == id {
                    self.lat.write(t.row, t.col, 0);
                }
                if self.lat.read(t.row + 1, t.col) == id {
                    self.lat.write(t.row + 1, t.col, 0);
                }
                self.lat.write(t.row, t.col - 1, id);
                self.lat.write(t.row + 1, t.col - 1, id);
            },
            Direction::Right => {
                if self.lat.read(t.row, t.col) == id {
                    self.lat.write(t.row, t.col, 0);
                }
                if self.lat.read(t.row + 1, t.col) == id {
                    self.lat.write(t.row + 1, t.col, 0);
                }
                self.lat.write(t.row, t.col + 1, id);
                self.lat.write(t.row + 1, t.col + 1, id);
            },
        }
        proof {
            assert forall|a: int, b: int| si.lat.in_alloc(a, b) implies #[trigger] self.lat.cell(
                a,
                b,
            ) == (if t.slid_spec().covers(a, b) {
                id
            } else if t.covers(a, b) && si.lat.cell(a, b) == id {
                0
            } else {
                si.lat.cell(a, b)
            }) by {};
            assert forall|a: int, b: int| self.lat.in_fp(a, b) implies #[trigger] self.lat.cell(
                a,
                b,
            ) < self.tiles@.len() by {
                si.lat.lemma_fp_in_alloc(a, b);
            };
            assert forall|a: int, b: int|
                self.lat.in_alloc(a, b) && !self.lat.in_fp(a, b) implies #[trigger] self.lat.cell(
                a,
                b,
            ) == 0 by {
                assert(si.lat.cell(a, b) == 0);
            };
            assert(self.wf());
        }
    }

    /// One step of the move pass preserves the write-progress invariant:
    /// with landing cells pairwise disjoint, writing tile `kk` extends the
    /// moved prefix by one.
    #[verifier::spinoff_prover]
    #[verifier::rlimit(100)]
    proof fn lemma_move_step(
        pre: Diamond,
        lat0: Lattice,
        lat1: Lattice,
        snap: Seq<(usize, Tile)>,
        kk: int,
        id: usize,
        t: Tile,
    )
        requires
            pre.wf(),
            pre.can_slide(),
            pre.consistent(),
            pre.slide_disjoint(),
            snap == live_seq(pre.tiles@),
            pre.tiles@.len() <= usize::MAX,
            0 <= kk < snap.len(),
            snap[kk] == (id, t),
            lat0.wf(),
            lat1.wf(),
            lat0.size == pre.lat.size,
            lat0.capacity == pre.lat.capacity,
            lat0.origin_r == pre.lat.origin_r,
            lat0.origin_c == pre.lat.origin_c,
            lat1.size == lat0.size,
            lat1.capacity == lat0.capacity,
            lat1.origin_r == lat0.origin_r,
            lat1.origin_c == lat0.origin_c,
            forall|a: int, b: int|
                lat0.in_alloc(a, b) ==> #[trigger] lat1.cell(a, b) == (if t.slid_spec().covers(
                    a,
                    b,
                ) {
                    id
                } else if t.covers(a, b) && lat0.cell(a, b) == id {
                    0
                } else {
                    lat0.cell(a, b)
                }),
            moved_prefix_ok(lat0, snap, kk),
        ensures
            moved_prefix_ok(lat1, snap, kk + 1),
    {
        lemma_live_seq_entries(pre.tiles@);
        lemma_live_seq_sorted(pre.tiles@);
        assert(pre.live(id as int));
        assert(pre.tile_at(id as int) == t);
        let ts = t.slid_spec();
        assert forall|k: int, a: int, b: int|
            0 <= k < kk + 1 && #[trigger] snap[k].1.slid_spec().covers(a, b) implies lat1.cell(
            a,
            b,
        ) == snap[k].0 by {
            let tk = snap[k].1;
            let idk = snap[k].0;
            assert(pre.live(idk as int) && pre.tile_at(idk as int) == tk);
            assert(tk.slid_spec().inside(pre.lat.size as int));
            pre.lat.lemma_fp_in_alloc(a, b);
            if k < kk {
                assert(idk != id);
                assert(lat0.cell(a, b) == idk);
                if ts.covers(a, b) {
                    assert(!(tk.slid_spec().covers(a, b) && ts.covers(a, b)));
                }
                if t.covers(a, b) && lat0.cell(a, b) == id {
                    assert(false);
                }
            }
        };
        assert forall|k: int, a: int, b: int|
            kk + 1 <= k < snap.len() && #[trigger] snap[k].1.covers(a, b) && !landed_covers(
                snap,
                kk + 1,
                a,
                b,
            ) implies lat1.cell(a, b) == snap[k].0 by {
            let tk = snap[k].1;
            let idk = snap[k].0;
            assert(pre.live(idk as int) && pre.tile_at(idk as int) == tk);
            assert(tk.inside(pre.lat.size as int));
            pre.lat.lemma_fp_in_alloc(a, b);
            if landed_covers(snap, kk, a, b) {
                let kw = choose|kw: int|
                    0 <= kw < kk && (#[trigger] snap[kw]).1.slid_spec().covers(a, b);
                assert(snap[kw].1.slid_spec().covers(a, b) && 0 <= kw < kk + 1);
                assert(landed_covers(snap, kk + 1, a, b));
            }
            assert(lat0.cell(a, b) == idk);
            assert(idk != id);
            if t.covers(a, b) {
                assert(pre.lat.cell(t.row as int, t.col as int) == id);
                assert(pre.lat.cell(t.row2(), t.col2()) == id);
                assert(pre.lat.cell(tk.row as int, tk.col as int) == idk);
                assert(pre.lat.cell(tk.row2(), tk.col2()) == idk);
                assert(false);
            }
            if ts.covers(a, b) {
                assert(0 <= kk < kk + 1 && snap[kk].1.slid_spec().covers(a, b));
                assert(landed_covers(snap, kk + 1, a, b));
            }
        };
        assert forall|a: int, b: int|
            lat1.in_fp(a, b) && !landed_covers(snap, kk + 1, a, b) && !standing_covers(
                snap,
                kk + 1,
                a,
                b,
            ) implies #[trigger] lat1.cell(a, b) == 0 by {
            pre.lat.lemma_fp_in_alloc(a, b);
            if landed_covers(snap, kk, a, b) {
                let kw = choose|kw: int|
                    0 <= kw < kk && (#[trigger] snap[kw]).1.slid_spec().covers(a, b);
                assert(landed_covers(snap, kk + 1, a, b));
            }
            if ts.covers(a, b) {
                assert(0 <= kk < kk + 1 && snap[kk].1.slid_spec().covers(a, b));
                assert(landed_covers(snap, kk + 1, a, b));
            }
            if standing_covers(snap, kk, a, b) {
                let kw = choose|kw: int|
                    kk <= kw < snap.len() && (#[trigger] snap[kw]).1.covers(a, b);
                if kw > kk {
                    assert(standing_covers(snap, kk + 1, a, b));
                } else {
                    assert(t.covers(a, b));
                    assert(lat0.cell(a, b) == id);
                }
            } else {
                assert(lat0.cell(a, b) == 0);
            }
        };
    }

    /// Slide every tile one cell along its direction.  Positions translate
    /// in parallel; the board writes are sequential over a snapshot of the
    /// old positions: a tile's old cells are cleared only while they still
    /// hold its id — a neighbour's landing may have taken them — and its
    /// landing cells are stamped unconditionally.  When no two tiles land
    /// on a shared cell — which the elimination phase is there to arrange —
    /// the move preserves tiling validity exactly.
    #[verifier::rlimit(100)]
    fn move_tiles(&mut self)
        requires
            old(self).wf(),
            old(self).can_slide(),
        ensures
            final(self).wf(),
            final(self).lat.size == old(self).lat.size,
            final(self).lat.capacity == old(self).lat.capacity,
            final(self).lat.origin_r == old(self).lat.origin_r,
            final(self).lat.origin_c == old(self).lat.origin_c,
            final(self).free_ids@ == old(self).free_ids@,
            final(self).cur_row == old(self).cur_row,
            final(self).cur_col == old(self).cur_col,
            final(self).prob == old(self).prob,
            final(self).tiles@.len() == old(self).tiles@.len(),
            forall|id: int|
                0 <= id < old(self).tiles@.len() ==> #[trigger] final(self).tiles@[id]
                    == crate::par::slide_opt(old(self).tiles@[id]),
            old(self).consistent() && old(self).slide_disjoint() ==> final(self).consistent(),
    {
        let ghost pre = *old(self);
        let snap = self.live_tiles();
        let tab_len = self.tiles.len();
        proof {
            assert(pre.tiles@.len() == tab_len);
            assert forall|k2: int|
                0 <= k2 < self.tiles@.len() && self.tiles@[k2] is Some implies (#[trigger] self
                .tiles@[k2])->Some_0.slid_row() >= 0 && self.tiles@[k2]->Some_0.slid_col() >= 0
                && self.tiles@[k2]->Some_0.row < CAP_MAX && self.tiles@[k2]->Some_0.col
                < CAP_MAX by {
                assert(pre.live(k2));
                assert(pre.tile_at(k2) == self.tiles@[k2]->Some_0);
            };
        }
        crate::par::par_slide_tiles(&mut self.tiles);
        proof {
            assert forall|id: int|
                0 <= id < self.tiles@.len() && self.tiles@[id] is Some implies (#[trigger] self
                .tiles@[id])->Some_0.inside(self.lat.size as int) by {
                assert(pre.live(id));
                assert(self.tiles@[id] == crate::par::slide_opt(pre.tiles@[id]));
            };
            assert forall|k: int| 0 <= k < self.free_ids@.len() implies 1 <= #[trigger] self
                .free_ids@[k] < self.tiles@.len() && self.tiles@[self.free_ids@[k] as int]
                is None by {
                assert(pre.tiles@[pre.free_ids@[k] as int] is None);
                assert(self.tiles@[self.free_ids@[k] as int] == crate::par::slide_opt(
                    pre.tiles@[pre.free_ids@[k] as int],
                ));
            };
            assert(self.wf());
            if pre.consistent() && pre.slide_disjoint() {
                lemma_live_seq_entries(pre.tiles@);
                lemma_live_seq_complete(pre.tiles@);
                assert forall|k: int, a: int, b: int|
                    0 <= k < snap@.len() && #[trigger] snap@[k].1.covers(a, b) && !landed_covers(
                        snap@,
                        0,
                        a,
                        b,
                    ) implies self.lat.cell(a, b) == snap@[k].0 by {
                    let idk = snap@[k].0;
                    assert(pre.live(idk as int) && pre.tile_at(idk as int) == snap@[k].1);
                };
                assert forall|a: int, b: int|
                    self.lat.in_fp(a, b) && !landed_covers(snap@, 0, a, b) && !standing_covers(
                        snap@,
                        0,
                        a,
                        b,
                    ) implies #[trigger] self.lat.cell(a, b) == 0 by {
                    if self.lat.cell(a, b) != 0 {
                        let u = pre.lat.cell(a, b) as int;
                        assert(pre.live(u) && pre.tile_at(u).covers(a, b));
                        let kw = choose|kw: int|
                            0 <= kw < live_seq(pre.tiles@).len() && #[trigger] live_seq(
                                pre.tiles@,
                            )[kw] == (u as usize, pre.tiles@[u]->Some_0);
                        assert(snap@[kw].1.covers(a, b));
                        assert(standing_covers(snap@, 0, a, b));
                    }
                };
                assert(moved_prefix_ok(self.lat, snap@, 0));
            }
        }
        let ghost frozen = self.tiles@;
        let mut k: usize = 0;
        while k < snap.len()
            invariant
                self.wf(),
                self.lat.size == pre.lat.size,
                self.lat.capacity == pre.lat.capacity,
                self.lat.origin_r == pre.lat.origin_r,
                self.lat.origin_c == pre.lat.origin_c,
                self.free_ids@ == pre.free_ids@,
                self.cur_row == pre.cur_row,
                self.cur_col == pre.cur_col,
                self.prob == pre.prob,
                self.tiles@ == frozen,
                frozen.len() == pre.tiles@.len(),
                snap@ == live_seq(pre.tiles@),
                pre.tiles@.len() <= usize::MAX,
                k <= snap@.len(),
                pre.wf(),
                pre.can_slide(),
                pre.consistent() && pre.slide_disjoint() ==> moved_prefix_ok(
                    self.lat,
                    snap@,
                    k as int,
                ),
            decreases snap@.len() - k,
        {
            let pr = snap[k];
            let ghost si = *self;
            proof {
                lemma_live_seq_entries(pre.tiles@);
                assert(pre.live(pr.0 as int));
                assert(pre.tile_at(pr.0 as int) == pr.1);
                assert(pr.1.inside(pre.lat.size as int));
                assert(pr.1.slid_spec().inside(pre.lat.size as int));
            }
            self.move_write(pr.0, pr.1, Ghost(pre));
            proof {
                if pre.consistent() && pre.slide_disjoint() {
                    Self::lemma_move_step(
                        pre,
                        si.lat,
                        self.lat,
                        snap@,
                        k as int,
                        pr.0,
                        pr.1,
                    );
                }
            }
            k = k + 1;
        }
        proof {
            if pre.consistent() && pre.slide_disjoint() {
                lemma_live_seq_entries(pre.tiles@);
                lemma_live_seq_complete(pre.tiles@);
                let n = snap@.len() as int;
                assert forall|id: int|
                    0 <= id < self.tiles@.len() && self.tiles@[id] is Some implies self.lat.cell(
                    (#[trigger] self.tiles@[id])->Some_0.row as int,
                    self.tiles@[id]->Some_0.col as int,
                ) == id && self.lat.cell(
                    self.tiles@[id]->Some_0.row2(),
                    self.tiles@[id]->Some_0.col2(),
                ) == id by {
                    assert(pre.live(id));
                    let kw = choose|kw: int|
                        0 <= kw < live_seq(pre.tiles@).len() && #[trigger] live_seq(
                            pre.tiles@,
                        )[kw] == (id as usize, pre.tiles@[id]->Some_0);
                    let tl = snap@[kw].1.slid_spec();
                    assert(self.tiles@[id]->Some_0 == tl);
                    assert(tl.covers(tl.row as int, tl.col as int));
                    assert(tl.covers(tl.row2(), tl.col2()));
                };
                assert forall|a: int, b: int|
                    self.lat.in_fp(a, b) && #[trigger] self.lat.cell(a, b) != 0 implies 0 <= self
                    .lat.cell(a, b) < self.tiles@.len() && self.tiles@[self.lat.cell(a, b) as int]
                    is Some && self.tiles@[self.lat.cell(a, b) as int]->Some_0.covers(a, b) by {
                    assert(!standing_covers(snap@, n, a, b));
                    assert(landed_covers(snap@, n, a, b));
                    let kw = choose|kw: int|
                        0 <= kw < n && (#[trigger] snap@[kw]).1.slid_spec().covers(a, b);
                    let idk = snap@[kw].0;
                    assert(self.lat.cell(a, b) == idk);
                    assert(pre.live(idk as int) && pre.tile_at(idk as int) == snap@[kw].1);
                    assert(self.tiles@[idk as int] == crate::par::slide_opt(
                        pre.tiles@[idk as int],
                    ));
                };
                assert(self.consistent());
            }
        }
    }

    /// Decide one block's orientation from a drawn word: exactly the
    /// orientation rule, for every word.
    pub fn decide_orientation(sample: Option<u8>, prob: u64, word: u64) -> (r: bool)
        ensures
            r == horizontal_choice(sample, prob, word),
    {
        match sample {
            Some(v) => {
                if v < 128 {
                    true
                } else if v <= 192 {
                    word % 2 == 0
                } else {
                    false
                }
            },
            None => {
                word >> 32 < prob
            },
        }
    }

    /// Decide the orientation for one block by drawing one word: the result
    /// is the orientation rule applied to some word, so a dark bias sample
    /// forces horizontal, a light one forces vertical, and the extreme
    /// probabilities are deterministic; the middle band and the middle
    /// probabilities are chance.
    fn choose_horizontal(&self, sample: Option<u8>, rng: &mut RandomSource) -> (r: bool)
        ensures
            exists|word: u64| r == #[trigger] horizontal_choice(sample, self.prob, word),
            sample matches Some(v) && v < 128 ==> r == true,
            sample matches Some(v) && v > 192 ==> r == false,
            sample is None && self.prob == PROB_ONE ==> r == true,
            sample is None && self.prob == 0 ==> r == false,
    {
        let word = rng.next_u64();
        let r = Self::decide_orientation(sample, self.prob, word);
        proof {
            assert(r == horizontal_choice(sample, self.prob, word));
            assert(word >> 32 < 0x1_0000_0000u64) by (bit_vector);
        }
        r
    }

    /// Find the first empty 2x2 block at or after the scan cursor, remember
    /// it as the new cursor and return it.  When none is left from the
    /// cursor on, reset the cursor to the start of row 0 and return
    /// `None`.
    pub fn find_square(&mut self) -> (r: Option<(usize, usize)>)
        requires
            old(self).wf(),
            old(self).lat.size >= 2,
        ensures
            final(self).wf(),
            final(self).lat == old(self).lat,
            final(self).tiles@ == old(self).tiles@,
            final(self).free_ids@ == old(self).free_ids@,
            final(self).prob == old(self).prob,
            r matches Some(p) ==> ({
                &&& final(self).cur_row == p.0 && final(self).cur_col == p.1
                &&& old(self).empty_square(p.0 as int, p.1 as int)
                &&& scan_le(
                    old(self).cur_row as int,
                    old(self).cur_col as int,
                    p.0 as int,
                    p.1 as int,
                )
                &&& forall|x: int, y: int|
                    scan_le(old(self).cur_row as int, old(self).cur_col as int, x, y) && scan_le(
                        x,
                        y,
                        p.0 as int,
                        p.1 as int,
                    ) && !(x == p.0 && y == p.1) ==> !(#[trigger] old(self).empty_square(x, y))
            }),
            r is None ==> ({
                &&& final(self).cur_row == 0 && final(self).cur_col == row_start(
                    old(self).lat.size as int,
                    0,
                )
                &&& forall|x: int, y: int|
                    scan_le(old(self).cur_row as int, old(self).cur_col as int, x, y) ==> !(
                    #[trigger] old(self).empty_square(x, y))
            }),
    {
        let ghost r0 = self.cur_row as int;
        let ghost c0 = self.cur_col as int;
        let size = self.lat.size;
        let mut i: usize = self.cur_row;
        while i < size - 1
            invariant
                self.lat == old(self).lat,
                self.tiles@ == old(self).tiles@,
                self.free_ids@ == old(self).free_ids@,
                self.cur_row == r0,
                self.cur_col == c0,
                self.prob == old(self).prob,
                self.wf(),
                self == old(self),
                size == self.lat.size,
                size >= 2,
                r0 <= i,
                forall|x: int, y: int|
                    scan_le(r0, c0, x, y) && x < i ==> !(#[trigger] old(self).empty_square(x, y)),
            decreases size - i,
        {
            let sp = self.lat.row_span(i);
            let b = sp.0;
            let e = sp.1;
            let sp2 = self.lat.row_span(i + 1);
            let b2 = sp2.0;
            let e2 = sp2.1;
            let mut j: usize = if i == self.cur_row && self.cur_col > b {
                self.cur_col
            } else {
                b
            };
            while j + 1 < e
                invariant
                    self == old(self),
                    self.wf(),
                    size == self.lat.size,
                    size >= 2,
                    r0 <= i < size - 1,
                    r0 == self.cur_row,
                    c0 == self.cur_col,
                    b == row_start(size as int, i as int),
                    e == row_end(size as int, i as int),
                    b2 == row_start(size as int, i + 1),
                    e2 == row_end(size as int, i + 1),
                    b <= j <= size,
                    i == r0 ==> c0 <= j,
                    forall|x: int, y: int|
                        scan_le(r0, c0, x, y) && x < i ==> !(#[trigger] old(self).empty_square(
                            x,
                            y,
                        )),
                    forall|y: int|
                        scan_le(r0, c0, i as int, y) && y < j ==> !(#[trigger] old(
                            self,
                        ).empty_square(i as int, y)),
                decreases size - j,
            {
                if j >= b2 && j + 1 < e2 {
                    if self.lat.read(i, j) == 0 && self.lat.read(i + 1, j) == 0 && self.lat.read(
                        i,
                        j + 1,
                    ) == 0 && self.lat.read(i + 1, j + 1) == 0 {
                        proof {
                            assert(old(self).empty_square(i as int, j as int));
                        }
                        self.cur_row = i;
                        self.cur_col = j;
                        proof {
                            assert(self.cursor_ok());
                            assert(self.wf());
                        }
                        return Some((i, j));
                    }
                }
                assert(!old(self).empty_square(i as int, j as int));
                j = j + 1;
            }
            proof {
                assert forall|y: int| scan_le(r0, c0, i as int, y) implies !(#[trigger] old(
                    self,
                ).empty_square(i as int, y)) by {
                    if y >= j {
                        assert(y + 1 >= e);
                    }
                };
            }
            i = i + 1;
        }
        proof {
            assert forall|x: int, y: int| scan_le(r0, c0, x, y) implies !(#[trigger] old(
                self,
            ).empty_square(x, y)) by {
                if x >= i {
                    assert(!in_diamond(size as int, x + 1, y));
                }
            };
        }
        self.cur_row = 0;
        self.cur_col = size / 2 - 1;
        proof {
            assert(self.cursor_ok());
            assert(self.wf());
        }
        None
    }

    /// What one round of the fill phase preserves, apart from the pairing
    /// of new tiles: well-formedness, frozen board shape and probability,
    /// old tiles kept, consistency, the free list a suffix of the old one,
    /// deterministic orientations at the extreme probabilities, and no dead
    /// slot minted.
    #[verifier::opaque]
    pub open spec fn fill_frame(pre: Diamond, cur: Diamond, bias_none: bool) -> bool {
        &&& cur.wf()
        &&& cur.lat.size == pre.lat.size
        &&& cur.lat.capacity == pre.lat.capacity
        &&& cur.lat.origin_r == pre.lat.origin_r
        &&& cur.lat.origin_c == pre.lat.origin_c
        &&& cur.prob == pre.prob
        &&& forall|id: int|
            pre.live(id) ==> cur.live(id) && cur.tile_at(id) == pre.tile_at(id)
        &&& cur.tiles@.len() >= pre.tiles@.len()
        &&& (pre.consistent() ==> cur.consistent())
        &&& cur.free_ids@.len() <= pre.free_ids@.len()
        &&& cur.free_ids@ == pre.free_ids@.subrange(
            pre.free_ids@.len() - cur.free_ids@.len(),
            pre.free_ids@.len() as int,
        )
        &&& (bias_none && pre.prob == PROB_ONE ==> forall|id: int|
            #[trigger] cur.live(id) && !pre.live(id) ==> cur.tile_at(id).horizontal())
        &&& (bias_none && pre.prob == 0 ==> forall|id: int|
            #[trigger] cur.live(id) && !pre.live(id) ==> !cur.tile_at(id).horizontal())
        &&& forall|id: int|
            pre.tiles@.len() <= id < cur.tiles@.len() ==> #[trigger] cur.live(id)
    }

    /// The id written on the board under this tile's partner cell: for a
    /// `Top` tile the cell right below its anchor, and so on around.
    pub open spec fn partner_id(cur: Diamond, id: int) -> int {
        match cur.tile_at(id).dir {
            Direction::Top => cur.lat.cell(cur.tile_at(id).row + 1, cur.tile_at(id).col as int) as int,
            Direction::Bottom => cur.lat.cell(cur.tile_at(id).row - 1, cur.tile_at(id).col as int) as int,
            Direction::Left => cur.lat.cell(cur.tile_at(id).row as int, cur.tile_at(id).col + 1) as int,
            Direction::Right => cur.lat.cell(cur.tile_at(id).row as int, cur.tile_at(id).col - 1) as int,
        }
    }

    /// A tile created since `pre` sits in one stamped domino pair with the
    /// tile its partner cell names: the `Top`/`Left` half was allocated
    /// first, and partners minted fresh take adjacent ids.
    pub open spec fn freshly_paired(pre: Diamond, cur: Diamond, id: int) -> bool {
        let p = Self::partner_id(cur, id);
        &&& cur.live(p) && !pre.live(p)
        &&& (cur.tile_at(id).dir == Direction::Top || cur.tile_at(id).dir == Direction::Left
            ==> cur.stamped_pair(id, p) && (pre.tiles@.len() <= id && pre.tiles@.len() <= p
            ==> p == id + 1))
        &&& (cur.tile_at(id).dir == Direction::Bottom || cur.tile_at(id).dir == Direction::Right
            ==> cur.stamped_pair(p, id) && (pre.tiles@.len() <= p && pre.tiles@.len() <= id
            ==> id == p + 1))
    }

    /// Every tile the fill phase has created so far belongs to one stamped
    /// domino pair, read off the board: in a consistent run the partner
    /// cell names the partner tile.
    #[verifier::opaque]
    pub open spec fn fill_pairs(pre: Diamond, cur: Diamond) -> bool {
        pre.consistent() ==> forall|id: int|
            cur.live(id) && !pre.live(id) ==> #[trigger] Self::freshly_paired(pre, cur, id)
    }

    /// What one round of the fill phase preserves, relative to the phase's
    /// entry state `pre`.
    pub open spec fn fill_progress(pre: Diamond, cur: Diamond, bias_none: bool) -> bool {
        Self::fill_frame(pre, cur, bias_none) && Self::fill_pairs(pre, cur)
    }

    /// The shape facts of a fill round, unbundled.    /// The shape facts of a fill round, unbundled.
    proof fn lemma_fill_progress_basics(pre: Diamond, cur: Diamond, bias_none: bool)
        requires
            Self::fill_progress(pre, cur, bias_none),
        ensures
            cur.wf(),
            cur.lat.size == pre.lat.size,
            cur.lat.capacity == pre.lat.capacity,
            cur.lat.origin_r == pre.lat.origin_r,
            cur.lat.origin_c == pre.lat.origin_c,
            cur.prob == pre.prob,
            forall|id: int| pre.live(id) ==> #[trigger] cur.live(id) && cur.tile_at(id)
                == pre.tile_at(id),
            forall|id: int| pre.tiles@.len() <= id < cur.tiles@.len() ==> #[trigger] cur.live(id),
            pre.consistent() ==> cur.consistent(),
    {
        reveal(Diamond::fill_frame);
        assert forall|id: int| pre.live(id) implies #[trigger] cur.live(id) && cur.tile_at(id)
            == pre.tile_at(id) by {
            assert(cur.live(id) && cur.tile_at(id) == pre.tile_at(id));
        };
    }

    /// The frame of a fill round carries over any state with the same
    /// board, tiles, free list and probability.
    #[verifier::spinoff_prover]
    #[verifier::rlimit(100)]
    proof fn lemma_frame_same(pre: Diamond, a: Diamond, b: Diamond, bias_none: bool)
        requires
            Self::fill_frame(pre, a, bias_none),
            b.wf(),
            b.lat == a.lat,
            b.tiles@ == a.tiles@,
            b.free_ids@ == a.free_ids@,
            b.prob == a.prob,
        ensures
            Self::fill_frame(pre, b, bias_none),
    {
        reveal(Diamond::fill_frame);
        assert forall|id: int| pre.live(id) implies b.live(id) && b.tile_at(id) == pre.tile_at(
            id,
        ) by {
            assert(a.live(id) && a.tile_at(id) == pre.tile_at(id));
        };
        if bias_none && pre.prob == PROB_ONE {
            assert forall|id: int| #[trigger] b.live(id) && !pre.live(id) implies b.tile_at(
                id,
            ).horizontal() by {
                assert(a.live(id) && a.tile_at(id) == b.tile_at(id));
            };
        }
        if bias_none && pre.prob == 0 {
            assert forall|id: int| #[trigger] b.live(id) && !pre.live(id) implies !b.tile_at(
                id,
            ).horizontal() by {
                assert(a.live(id) && a.tile_at(id) == b.tile_at(id));
            };
        }
        assert forall|id: int|
            pre.tiles@.len() <= id < b.tiles@.len() implies #[trigger] b.live(id) by {
            assert(a.live(id));
        };
    }

    /// The pairing of a fill round carries over any state with the same
    /// board and tiles.
    #[verifier::spinoff_prover]
    #[verifier::rlimit(100)]
    proof fn lemma_pairs_same(pre: Diamond, a: Diamond, b: Diamond)
        requires
            Self::fill_pairs(pre, a),
            b.lat == a.lat,
            b.tiles@ == a.tiles@,
        ensures
            Self::fill_pairs(pre, b),
    {
        reveal(Diamond::fill_pairs);
        if pre.consistent() {
            assert forall|id: int|
                b.live(id) && !pre.live(id) implies #[trigger] Self::freshly_paired(
                pre,
                b,
                id,
            ) by {
                assert(a.live(id));
                assert(Self::freshly_paired(pre, a, id));
                assert(b.tile_at(id) == a.tile_at(id));
                assert(Self::partner_id(b, id) == Self::partner_id(a, id));
            };
        }
    }

    /// `fill_progress` only reads the board, tiles, free list and    /// `fill_progress` only reads the board, tiles, free list and
    /// probability, so it carries over a cursor move unchanged.
    proof fn lemma_fill_progress_same(pre: Diamond, a: Diamond, b: Diamond, bias_none: bool)
        requires
            Self::fill_progress(pre, a, bias_none),
            b.wf(),
            b.lat == a.lat,
            b.tiles@ == a.tiles@,
            b.free_ids@ == a.free_ids@,
            b.prob == a.prob,
        ensures
            Self::fill_progress(pre, b, bias_none),
    {
        Self::lemma_frame_same(pre, a, b, bias_none);
        Self::lemma_pairs_same(pre, a, b);
    }

    /// Stamping one pair at the allocator's next two ids keeps the round's
    /// frame.
    #[verifier::spinoff_prover]
    #[verifier::rlimit(100)]
    proof fn lemma_frame_stamped(pre: Diamond, sp: Diamond, post: Diamond, bias_none: bool)
        requires
            Self::fill_frame(pre, sp, bias_none),
            post.wf(),
            post.lat.size == sp.lat.size,
            post.lat.capacity == sp.lat.capacity,
            post.lat.origin_r == sp.lat.origin_r,
            post.lat.origin_c == sp.lat.origin_c,
            post.prob == sp.prob,
            post.live(sp.next_id1()),
            post.live(sp.next_id2()),
            bias_none && pre.prob == PROB_ONE ==> post.tile_at(sp.next_id1()).horizontal()
                && post.tile_at(sp.next_id2()).horizontal(),
            bias_none && pre.prob == 0 ==> !post.tile_at(sp.next_id1()).horizontal() && !post
                .tile_at(sp.next_id2()).horizontal(),
            post.tiles@.len() as int == (if sp.free_ids@.len() >= 2 {
                sp.tiles@.len() as int
            } else if sp.free_ids@.len() == 1 {
                sp.tiles@.len() as int + 1
            } else {
                sp.tiles@.len() as int + 2
            }),
            forall|id: int|
                0 <= id < sp.tiles@.len() && id != sp.next_id1() && id != sp.next_id2()
                    ==> #[trigger] post.tiles@[id] == sp.tiles@[id],
            post.free_ids@ == (if sp.free_ids@.len() >= 2 {
                sp.free_ids@.subrange(2, sp.free_ids@.len() as int)
            } else {
                Seq::<usize>::empty()
            }),
            sp.consistent() ==> post.consistent(),
        ensures
            Self::fill_frame(pre, post, bias_none),
    {
        reveal(Diamond::fill_frame);
        let na = sp.next_id1();
        let nb = sp.next_id2();
        assert forall|id: int| pre.live(id) implies post.live(id) && post.tile_at(id)
            == pre.tile_at(id) by {
            assert(sp.live(id));
            assert(id != na && id != nb);
        };
        assert(post.free_ids@ =~= pre.free_ids@.subrange(
            pre.free_ids@.len() - post.free_ids@.len(),
            pre.free_ids@.len() as int,
        ));
        if bias_none && pre.prob == PROB_ONE {
            assert forall|id: int|
                #[trigger] post.live(id) && !pre.live(id) implies post.tile_at(
                id,
            ).horizontal() by {
                if id != na && id != nb {
                    assert(sp.live(id) == post.live(id));
                    assert(sp.live(id) ==> post.tile_at(id) == sp.tile_at(id));
                }
            };
        }
        if bias_none && pre.prob == 0 {
            assert forall|id: int|
                #[trigger] post.live(id) && !pre.live(id) implies !post.tile_at(
                id,
            ).horizontal() by {
                if id != na && id != nb {
                    assert(sp.live(id) == post.live(id));
                    assert(sp.live(id) ==> post.tile_at(id) == sp.tile_at(id));
                }
            };
        }
        assert forall|id: int|
            pre.tiles@.len() <= id < post.tiles@.len() implies #[trigger] post.live(id) by {
            if id != na && id != nb {
                assert(id < sp.tiles@.len());
                assert(sp.live(id) && post.tiles@[id] == sp.tiles@[id]);
            }
        };
    }

    /// Stamping one pair at the allocator's next two ids keeps the round's
    /// pairing: the two fresh tiles are each other's partners on the board,
    /// and older pairs keep their cells.
    #[verifier::spinoff_prover]
    #[verifier::rlimit(100)]
    proof fn lemma_pairs_stamped(
        pre: Diamond,
        sp: Diamond,
        post: Diamond,
        pi: int,
        pj: int,
        horizontal: bool,
    )
        requires
            Self::fill_pairs(pre, sp),
            sp.wf(),
            sp.empty_square(pi, pj),
            pre.consistent() ==> sp.consistent(),
            forall|id: int| pre.live(id) ==> #[trigger] sp.live(id) && sp.tile_at(id)
                == pre.tile_at(id),
            forall|id: int| pre.tiles@.len() <= id < sp.tiles@.len() ==> #[trigger] sp.live(id),
            post.lat.size == sp.lat.size,
            post.lat.capacity == sp.lat.capacity,
            post.lat.origin_r == sp.lat.origin_r,
            post.lat.origin_c == sp.lat.origin_c,
            !sp.live(sp.next_id1()),
            !sp.live(sp.next_id2()),
            post.live(sp.next_id1()),
            post.live(sp.next_id2()),
            post.tile_at(sp.next_id1()) == (if horizontal {
                Tile { row: pi as usize, col: pj as usize, dir: Direction::Top }
            } else {
                Tile { row: pi as usize, col: pj as usize, dir: Direction::Left }
            }),
            post.tile_at(sp.next_id2()) == (if horizontal {
                Tile { row: (pi + 1) as usize, col: pj as usize, dir: Direction::Bottom }
            } else {
                Tile { row: pi as usize, col: (pj + 1) as usize, dir: Direction::Right }
            }),
            post.tiles@.len() as int == (if sp.free_ids@.len() >= 2 {
                sp.tiles@.len() as int
            } else if sp.free_ids@.len() == 1 {
                sp.tiles@.len() as int + 1
            } else {
                sp.tiles@.len() as int + 2
            }),
            forall|id: int|
                0 <= id < sp.tiles@.len() && id != sp.next_id1() && id != sp.next_id2()
                    ==> #[trigger] post.tiles@[id] == sp.tiles@[id],
            ({
                let a = sp.next_id1();
                let b = sp.next_id2();
                if horizontal {
                    post.lat.cell(pi, pj) == a && post.lat.cell(pi, pj + 1) == a && post.lat.cell(
                        pi + 1,
                        pj,
                    ) == b && post.lat.cell(pi + 1, pj + 1) == b
                } else {
                    post.lat.cell(pi, pj) == a && post.lat.cell(pi + 1, pj) == a && post.lat.cell(
                        pi,
                        pj + 1,
                    ) == b && post.lat.cell(pi + 1, pj + 1) == b
                }
            }),
            forall|a2: int, b2: int|
                sp.lat.in_alloc(a2, b2) && !((a2 == pi || a2 == pi + 1) && (b2 == pj || b2 == pj
                    + 1)) ==> #[trigger] post.lat.cell(a2, b2) == sp.lat.cell(a2, b2),
        ensures
            Self::fill_pairs(pre, post),
    {
        reveal(Diamond::fill_pairs);
        let na = sp.next_id1();
        let nb = sp.next_id2();
        if pre.consistent() {
            assert forall|id: int|
                post.live(id) && !pre.live(id) implies #[trigger] Self::freshly_paired(
                pre,
                post,
                id,
            ) by {
                if pre.live(na) {
                    assert(sp.live(na));
                }
                if pre.live(nb) {
                    assert(sp.live(nb));
                }
                if id == na {
                    if pre.tiles@.len() <= na && pre.tiles@.len() <= nb {
                        if na < sp.tiles@.len() as int {
                            assert(sp.live(na));
                        }
                    }
                    assert(Self::partner_id(post, na) == nb);
                    assert(post.stamped_pair(na, nb));
                } else if id == nb {
                    if pre.tiles@.len() <= na && pre.tiles@.len() <= nb {
                        if na < sp.tiles@.len() as int {
                            assert(sp.live(na));
                        }
                    }
                    assert(Self::partner_id(post, nb) == na);
                    assert(post.stamped_pair(na, nb));
                } else {
                    assert(id < sp.tiles@.len());
                    assert(sp.live(id) && post.tiles@[id] == sp.tiles@[id]);
                    assert(Self::freshly_paired(pre, sp, id));
                    let t = sp.tile_at(id);
                    let p = Self::partner_id(sp, id);
                    assert(sp.live(p));
                    let tp = sp.tile_at(p);
                    assert(p != na && p != nb);
                    assert(post.tiles@[p] == sp.tiles@[p]);
                    assert(t.inside(sp.lat.size as int));
                    sp.lat.lemma_fp_in_alloc(t.row as int, t.col as int);
                    sp.lat.lemma_fp_in_alloc(t.row2(), t.col2());
                    assert(sp.lat.cell(t.row as int, t.col as int) == id);
                    assert(Self::partner_id(post, id) == p) by {
                        match t.dir {
                            Direction::Top => {
                                assert(sp.lat.cell(t.row + 1, t.col as int) == p);
                                assert(sp.lat.cell(t.row + 1, t.col as int) != 0);
                                assert(tp.covers(t.row + 1, t.col as int));
                                assert(tp.inside(sp.lat.size as int));
                                sp.lat.lemma_fp_in_alloc(t.row + 1, t.col as int);
                            },
                            Direction::Bottom => {
                                assert(sp.lat.cell(t.row - 1, t.col as int) == p);
                                assert(tp.covers(t.row - 1, t.col as int));
                                assert(tp.inside(sp.lat.size as int));
                                sp.lat.lemma_fp_in_alloc(t.row - 1, t.col as int);
                            },
                            Direction::Left => {
                                assert(sp.lat.cell(t.row as int, t.col + 1) == p);
                                assert(tp.covers(t.row as int, t.col + 1));
                                assert(tp.inside(sp.lat.size as int));
                                sp.lat.lemma_fp_in_alloc(t.row as int, t.col + 1);
                            },
                            Direction::Right => {
                                assert(sp.lat.cell(t.row as int, t.col - 1) == p);
                                assert(tp.covers(t.row as int, t.col - 1));
                                assert(tp.inside(sp.lat.size as int));
                                sp.lat.lemma_fp_in_alloc(t.row as int, t.col - 1);
                            },
                        }
                    };
                    assert(post.tile_at(id) == t && post.tile_at(p) == tp);
                }
            };
        }
    }

    /// Writing a stamped pair's four nonzero cells never creates an empty    /// Writing a stamped pair's four nonzero cells never creates an empty
    /// block: every block empty afterwards was empty before.
    #[verifier::spinoff_prover]
    #[verifier::rlimit(100)]
    proof fn lemma_fill_keeps_nonempty(sp: Diamond, post: Diamond, pi: int, pj: int)
        requires
            sp.wf(),
            post.lat.size == sp.lat.size,
            post.lat.capacity == sp.lat.capacity,
            post.lat.origin_r == sp.lat.origin_r,
            post.lat.origin_c == sp.lat.origin_c,
            forall|a: int, b: int|
                sp.lat.in_alloc(a, b) && !((a == pi || a == pi + 1) && (b == pj || b == pj + 1))
                    ==> #[trigger] post.lat.cell(a, b) == sp.lat.cell(a, b),
            post.lat.cell(pi, pj) != 0,
            post.lat.cell(pi, pj + 1) != 0,
            post.lat.cell(pi + 1, pj) != 0,
            post.lat.cell(pi + 1, pj + 1) != 0,
        ensures
            forall|x: int, y: int|
                !sp.empty_square(x, y) ==> !(#[trigger] post.empty_square(x, y)),
            !post.empty_square(pi, pj),
    {
        assert forall|x: int, y: int|
            !sp.empty_square(x, y) implies !(#[trigger] post.empty_square(x, y)) by {
            if post.empty_square(x, y) {
                sp.lat.lemma_fp_in_alloc(x, y);
                sp.lat.lemma_fp_in_alloc(x, y + 1);
                sp.lat.lemma_fp_in_alloc(x + 1, y);
                sp.lat.lemma_fp_in_alloc(x + 1, y + 1);
                assert(sp.empty_square(x, y));
            }
        };
    }

    /// Stamp one domino pair into the found square and keep the fill
    /// round's guarantees; no position that already held a tile turns into
    /// an empty block.
    #[verifier::spinoff_prover]
    #[verifier::rlimit(1)]
    fn fill_found(
        &mut self,
        pi: usize,
        pj: usize,
        rng: &mut RandomSource,
        bias: Option<&Bias>,
        Ghost(pre): Ghost<Diamond>,
    )
        requires
            Self::fill_progress(pre, *old(self), bias is None),
            old(self).empty_square(pi as int, pj as int),
            bias matches Some(bb) ==> bb.wf() && bb.side == old(self).lat.size,
        ensures
            Self::fill_progress(pre, *final(self), bias is None),
            final(self).cur_row == old(self).cur_row,
            final(self).cur_col == old(self).cur_col,
            crate::lattice::zero_count(final(self).lat.data@) < crate::lattice::zero_count(
                old(self).lat.data@,
            ),
            !final(self).empty_square(pi as int, pj as int),
            forall|x: int, y: int|
                !old(self).empty_square(x, y) ==> !(#[trigger] final(self).empty_square(x, y)),
    {
        let ghost sp = *old(self);
        proof {
            Self::lemma_fill_progress_basics(pre, sp, bias is None);
            assert(in_diamond(self.lat.size as int, pi + 1, pj + 1));
        }
        let sample = match bias {
            Some(bb) => Some(bb.sample(pi, pj)),
            None => None,
        };
        let horiz = self.choose_horizontal(sample, rng);
        self.tile_square(pi, pj, horiz);
        proof {
            if bias is None && pre.prob == PROB_ONE {
                assert(horiz);
            }
            if bias is None && pre.prob == 0 {
                assert(!horiz);
            }
            assert(!sp.live(sp.next_id1()));
            assert(!sp.live(sp.next_id2()));
            Self::lemma_frame_stamped(pre, sp, *self, bias is None);
            Self::lemma_pairs_stamped(pre, sp, *self, pi as int, pj as int, horiz);
            Self::lemma_fill_keeps_nonempty(sp, *self, pi as int, pj as int);
        }
    }

    /// The fill phase: repeatedly find the first empty 2x2 block from the
    /// scan cursor on and stamp a fresh domino pair into it, until none is
    /// left; the cursor then rests at the start of row 0.  When the scan
    /// starts at or before row zero's span start — as it does right after
    /// the move phase — no empty block remains anywhere afterwards.
    #[verifier::spinoff_prover]
    #[verifier::rlimit(100)]
    pub fn tile(&mut self, rng: &mut RandomSource, bias: Option<&Bias>)
        requires
            old(self).wf(),
            old(self).lat.size >= 2,
            bias matches Some(b) ==> b.wf() && b.side == old(self).lat.size,
        ensures
            final(self).wf(),
            final(self).lat.size == old(self).lat.size,
            final(self).lat.capacity == old(self).lat.capacity,
            final(self).lat.origin_r == old(self).lat.origin_r,
            final(self).lat.origin_c == old(self).lat.origin_c,
            final(self).prob == old(self).prob,
            final(self).cur_row == 0 && final(self).cur_col == row_start(
                old(self).lat.size as int,
                0,
            ),
            forall|id: int|
                old(self).live(id) ==> final(self).live(id) && final(self).tile_at(id) == old(
                    self,
                ).tile_at(id),
            final(self).tiles@.len() >= old(self).tiles@.len(),
            old(self).cur_row == 0 && old(self).cur_col <= row_start(old(self).lat.size as int, 0)
                ==> final(self).filled(),
            old(self).consistent() ==> final(self).consistent(),
            final(self).free_ids@.len() <= old(self).free_ids@.len(),
            final(self).free_ids@ == old(self).free_ids@.subrange(
                old(self).free_ids@.len() - final(self).free_ids@.len(),
                old(self).free_ids@.len() as int,
            ),
            bias is None && old(self).prob == PROB_ONE ==> forall|id: int|
                #[trigger] final(self).live(id) && !old(self).live(id) ==> final(self).tile_at(
                    id,
                ).horizontal(),
            bias is None && old(self).prob == 0 ==> forall|id: int|
                #[trigger] final(self).live(id) && !old(self).live(id) ==> !final(self).tile_at(
                    id,
                ).horizontal(),
            forall|id: int|
                old(self).tiles@.len() <= id < final(self).tiles@.len() ==> #[trigger] final(self).live(id),
            old(self).consistent() ==> forall|id: int|
                final(self).live(id) && !old(self).live(id) ==> #[trigger] Self::freshly_paired(
                    *old(self),
                    *final(self),
                    id,
                ),
    {
        let ghost started = old(self).cur_row == 0 && old(self).cur_col <= row_start(
            old(self).lat.size as int,
            0,
        );
        proof {
            reveal(Diamond::fill_frame);
            reveal(Diamond::fill_pairs);
            assert(self.free_ids@ =~= old(self).free_ids@.subrange(
                0,
                old(self).free_ids@.len() as int,
            ));
            assert(Self::fill_progress(*old(self), *self, bias is None));
        }
        loop
            invariant
                Self::fill_progress(*old(self), *self, bias is None),
                self.lat.size >= 2,
                bias matches Some(b) ==> b.wf() && b.side == old(self).lat.size,
                started ==> forall|x: int, y: int|
                    scan_le(x, y, self.cur_row as int, self.cur_col as int) && !(x == self.cur_row
                        && y == self.cur_col) ==> !(#[trigger] self.empty_square(x, y)),
            ensures
                Self::fill_progress(*old(self), *self, bias is None),
                self.cur_row == 0 && self.cur_col == row_start(old(self).lat.size as int, 0),
                started ==> self.filled(),
            decreases crate::lattice::zero_count(self.lat.data@),
        {
            let ghost before = *self;
            proof {
                Self::lemma_fill_progress_basics(*old(self), *self, bias is None);
            }
            let r = self.find_square();
            proof {
                Self::lemma_fill_progress_same(*old(self), before, *self, bias is None);
            }
            match r {
                Some(p) => {
                    proof {
                        assert(before.empty_square(p.0 as int, p.1 as int));
                        assert(self.empty_square(p.0 as int, p.1 as int));
                        assert(p.0 + 1 < self.lat.size && p.1 + 1 < self.lat.size as int) by {
                            assert(in_diamond(self.lat.size as int, p.0 + 1, p.1 + 1));
                        };
                    }
                    let ghost sp = *self;
                    self.fill_found(p.0, p.1, rng, bias, Ghost(*old(self)));
                    proof {
                        Self::lemma_fill_progress_basics(*old(self), *self, bias is None);
                        if started {
                            assert forall|x: int, y: int|
                                scan_le(x, y, self.cur_row as int, self.cur_col as int) && !(x
                                    == self.cur_row && y == self.cur_col) implies !(
                            #[trigger] self.empty_square(x, y)) by {
                                if self.empty_square(x, y) {
                                    assert(sp.empty_square(x, y));
                                    assert(before.empty_square(x, y));
                                }
                            };
                        }
                    }
                },
                None => {
                    proof {
                        if started {
                            assert forall|x: int, y: int| !(#[trigger] self.empty_square(x, y))
                                by {
                                if self.empty_square(x, y) {
                                    assert(before.empty_square(x, y));
                                    assert(!scan_le(
                                        before.cur_row as int,
                                        before.cur_col as int,
                                        x,
                                        y,
                                    ));
                                }
                            };
                        }
                    }
                    break ;
                },
            }
        }
        proof {
            reveal(Diamond::fill_frame);
            reveal(Diamond::fill_pairs);
        }
    }

    /// One growth step: eliminate colliding pairs, extend the diamond by
    /// two, slide every tile along its direction, then fill every empty 2x2
    /// block.  Afterwards the scan cursor rests at the start of row 0;
    /// starting from a cursor at or before that start, the step leaves no
    /// empty block behind.
    pub fn step(&mut self, rng: &mut RandomSource, bias: Option<&Bias>)
        requires
            old(self).wf(),
            old(self).lat.size + 2 <= old(self).lat.capacity,
            bias matches Some(b) ==> b.wf() && b.side == old(self).lat.size + 2,
        ensures
            final(self).wf(),
            final(self).lat.size == old(self).lat.size + 2,
            final(self).lat.capacity == old(self).lat.capacity,
            final(self).prob == old(self).prob,
            final(self).cur_row == 0 && final(self).cur_col == row_start(
                final(self).lat.size as int,
                0,
            ),
            old(self).cur_row == 0 && old(self).cur_col <= old(self).lat.size as int / 2
                ==> final(self).filled(),
            old(self).consistent() && old(self).next_slides_disjoint() ==> final(self).consistent(),
    {
        let ghost d0 = *old(self);
        self.eliminate_stuck_tiles();
        let ghost d1 = *self;
        self.extend();
        proof {
            if d0.consistent() && d0.next_slides_disjoint() {
                assert forall|id1: int, id2: int, x: int, y: int|
                    self.live(id1) && self.live(id2) && id1 != id2 implies !((#[trigger] self
                    .tile_at(id1).slid_spec().covers(x, y)) && (#[trigger] self.tile_at(
                    id2,
                ).slid_spec().covers(x, y))) by {
                    assert(d1.live(id1) && d1.live(id2));
                    assert(self.tile_at(id1) == d1.tile_at(id1).shifted_spec());
                    assert(self.tile_at(id2) == d1.tile_at(id2).shifted_spec());
                    assert(d0.live(id1) && d1.tile_at(id1) == d0.tile_at(id1));
                    assert(d0.live(id2) && d1.tile_at(id2) == d0.tile_at(id2));
                    assert(self.tile_at(id1).slid_spec().covers(x, y) == d0.tile_at(
                        id1,
                    ).shifted_spec().slid_spec().covers(x, y));
                    assert(self.tile_at(id2).slid_spec().covers(x, y) == d0.tile_at(
                        id2,
                    ).shifted_spec().slid_spec().covers(x, y));
                };
                assert(self.slide_disjoint());
                assert(self.consistent());
            }
        }
        self.move_tiles();
        self.tile(rng, bias);
    }

    /// Run `n` growth steps; only the last one sees the bias, so an image
    /// mask shapes the tiling only at its target resolution.  A zero step
    /// count, steps beyond the allocation, and a bias whose side is not the
    /// final side are all rejected before any state changes.
    pub fn generate(&mut self, n: usize, rng: &mut RandomSource, bias: Option<&Bias>) -> (r:
        Result<(), ConfigError>)
        requires
            old(self).wf(),
            bias matches Some(b) ==> b.wf(),
        ensures
            r is Ok <==> 1 <= n && old(self).lat.size + 2 * n <= old(self).lat.capacity && (
            bias matches Some(b) ==> b.side == old(self).lat.size + 2 * n),
            r is Err ==> *final(self) == *old(self),
            r == Err::<(), ConfigError>(ConfigError::ZeroSteps) <==> n == 0,
            r == Err::<(), ConfigError>(ConfigError::TooManySteps) <==> n >= 1 && old(
                self,
            ).lat.size + 2 * n > old(self).lat.capacity,
            r == Err::<(), ConfigError>(ConfigError::BiasSizeMismatch) <==> 1 <= n && old(
                self,
            ).lat.size + 2 * n <= old(self).lat.capacity && (bias matches Some(b) && b.side != old(
                self,
            ).lat.size + 2 * n),
            r is Ok ==> final(self).wf() && final(self).lat.size == old(self).lat.size + 2 * n
                && final(self).lat.capacity == old(self).lat.capacity && final(self).prob == old(
                self,
            ).prob && final(self).cur_row == 0 && final(self).cur_col == row_start(
                final(self).lat.size as int,
                0,
            ),
            r is Ok && (n >= 2 || (old(self).cur_row == 0 && old(self).cur_col <= old(
                self,
            ).lat.size as int / 2)) ==> final(self).filled(),
    {
        if n == 0 {
            return Err(ConfigError::ZeroSteps);
        }
        if n > (self.lat.capacity - self.lat.size) / 2 {
            return Err(ConfigError::TooManySteps);
        }
        let target: usize = self.lat.size + 2 * n;
        match bias {
            Some(b) => {
                if b.side() != target {
                    return Err(ConfigError::BiasSizeMismatch);
                }
            },
            None => {},
        }
        let mut k: usize = 0;
        while k < n
            invariant
                self.wf(),
                k <= n,
                1 <= n,
                self.lat.size == old(self).lat.size + 2 * k,
                self.lat.capacity == old(self).lat.capacity,
                old(self).lat.size + 2 * n <= old(self).lat.capacity,
                self.prob == old(self).prob,
                k == 0 ==> self.cur_row == old(self).cur_row && self.cur_col == old(self).cur_col,
                k >= 1 ==> self.cur_row == 0 && self.cur_col == row_start(self.lat.size as int, 0),
                k >= 1 ==> ((k >= 2 || (old(self).cur_row == 0 && old(self).cur_col <= old(
                    self,
                ).lat.size as int / 2)) ==> self.filled()),
                bias matches Some(b) ==> b.wf() && b.side == old(self).lat.size + 2 * n,
            decreases n - k,
        {
            let step_bias = if k == n - 1 {
                bias
            } else {
                None
            };
            self.step(rng, step_bias);
            k = k + 1;
        }
        Ok(())
    }
}

} // verus!
