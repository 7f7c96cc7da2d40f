//! Snapshots: the whole engine state as plain values, for save and resume.
//!
//! A snapshot can be serialized by any outer layer; restoring validates
//! every field, so a restored engine is well formed or nothing is handed
//! out.  Restoring the snapshot of a well-formed engine always succeeds and
//! reproduces the state field for field.

use vstd::prelude::*;
use std::collections::VecDeque;
use crate::engine::Diamond;
use crate::engine::PROB_ONE;
use crate::engine::cells_agree;
use crate::engine::cells_bound;
use crate::engine::free_ok;
use crate::engine::table_ok;
use crate::errors::LoadError;
use crate::lattice::CAP_MAX;
use crate::lattice::Lattice;
use crate::lattice::lemma_packed_len_fits;
use crate::lattice::packed_len;
use crate::lattice::row_end;
use crate::lattice::row_start;
use crate::tile::Direction;
use crate::tile::Tile;

verus! {

/// The full engine state as plain values.
#[derive(Clone, PartialEq, Debug)]
pub struct Snapshot {
    pub size: usize,
    pub capacity: usize,
    pub cells: Vec<usize>,
    pub tiles: Vec<Option<Tile>>,
    pub next_id: usize,
    pub free_ids: Vec<usize>,
    pub cursor_row: usize,
    pub cursor_col: usize,
    pub probability: u64,
}

/// The board a snapshot describes.
pub open spec fn lattice_of(s: Snapshot) -> Lattice {
    Lattice {
        size: s.size,
        capacity: s.capacity,
        origin_r: ((s.capacity - s.size) / 2) as usize,
        origin_c: ((s.capacity - s.size) / 2) as usize,
        data: s.cells,
    }
}

/// Sides and the cell array agree.
pub open spec fn shape_ok(s: Snapshot) -> bool {
    &&& 2 <= s.capacity <= CAP_MAX
    &&& s.capacity % 2 == 0
    &&& s.size % 2 == 0
    &&& s.size <= s.capacity
    &&& s.cells@.len() == packed_len(s.capacity as int)
}

/// The id counter matches the tile table.
pub open spec fn counter_ok(s: Snapshot) -> bool {
    s.next_id == s.tiles@.len() && 1 <= s.tiles@.len()
}

/// Cell values index the table, cells outside the diamond are empty, and
/// cells and tiles agree: the board is the tiling the table describes.
pub open spec fn cells_ok(s: Snapshot) -> bool {
    &&& cells_bound(lattice_of(s), s.tiles@.len() as int)
    &&& lattice_of(s).blank_outside()
    &&& cells_agree(lattice_of(s), s.tiles@)
}

/// The scan cursor stays inside the bounding box.
pub open spec fn snap_cursor_ok(s: Snapshot) -> bool {
    s.cursor_row <= s.size && s.cursor_col <= s.size
}

/// Everything `restore` demands: the restored engine is well formed.
pub open spec fn snapshot_ok(s: Snapshot) -> bool {
    &&& shape_ok(s)
    &&& counter_ok(s)
    &&& table_ok(s.tiles@, s.size as int)
    &&& cells_ok(s)
    &&& free_ok(s.free_ids@, s.tiles@)
    &&& snap_cursor_ok(s)
    &&& s.probability <= PROB_ONE
}

/// Copy a vector of cell values.
fn copy_usizes(v: &Vec<usize>) -> (r: Vec<usize>)
    ensures
        r@ == v@,
{
    let mut r: Vec<usize> = Vec::new();
    let mut k: usize = 0;
    while k < v.len()
        invariant
            k <= v@.len(),
            r@ == v@.take(k as int),
        decreases v@.len() - k,
    {
        r.push(v[k]);
        proof {
            assert(v@.take(k + 1).drop_last() =~= v@.take(k as int));
            assert(r@ =~= v@.take(k + 1));
        }
        k = k + 1;
    }
    proof {
        assert(v@.take(v@.len() as int) =~= v@);
    }
    r
}

/// Copy a tile table.
fn copy_tiles(v: &Vec<Option<Tile>>) -> (r: Vec<Option<Tile>>)
    ensures
        r@ == v@,
{
    let mut r: Vec<Option<Tile>> = Vec::new();
    let mut k: usize = 0;
    while k < v.len()
        invariant
            k <= v@.len(),
            r@ == v@.take(k as int),
        decreases v@.len() - k,
    {
        r.push(v[k]);
        proof {
            assert(v@.take(k + 1).drop_last() =~= v@.take(k as int));
            assert(r@ =~= v@.take(k + 1));
        }
        k = k + 1;
    }
    proof {
        assert(v@.take(v@.len() as int) =~= v@);
    }
    r
}

/// Turn a freed-id list back into the allocator's queue.
fn vec_to_deque(v: &Vec<usize>) -> (r: VecDeque<usize>)
    ensures
        r@ == v@,
{
    let mut r: VecDeque<usize> = VecDeque::new();
    let mut k: usize = 0;
    while k < v.len()
        invariant
            k <= v@.len(),
            r@ == v@.take(k as int),
        decreases v@.len() - k,
    {
        r.push_back(v[k]);
        proof {
            assert(v@.take(k + 1).drop_last() =~= v@.take(k as int));
            assert(r@ =~= v@.take(k + 1));
        }
        k = k + 1;
    }
    proof {
        assert(v@.take(v@.len() as int) =~= v@);
    }
    r
}

/// Copy the allocator's queue into a plain list.
fn deque_to_vec(q: &VecDeque<usize>) -> (r: Vec<usize>)
    ensures
        r@ == q@,
{
    let mut r: Vec<usize> = Vec::new();
    let mut k: usize = 0;
    while k < q.len()
        invariant
            k <= q@.len(),
            r@ == q@.take(k as int),
        decreases q@.len() - k,
    {
        r.push(q[k]);
        proof {
            assert(q@.take(k + 1).drop_last() =~= q@.take(k as int));
            assert(r@ =~= q@.take(k + 1));
        }
        k = k + 1;
    }
    proof {
        assert(q@.take(q@.len() as int) =~= q@);
    }
    r
}

/// Whether both cells of the tile lie inside a diamond of side `size`.
fn tile_inside(size: usize, t: Tile) -> (r: bool)
    requires
        size <= CAP_MAX,
    ensures
        r == t.inside(size as int),
{
    if t.row >= size || t.col >= size {
        return false;
    }
    let s: usize = size / 2;
    let b1: usize = if t.row < s {
        s - 1 - t.row
    } else {
        t.row - s
    };
    if t.col < b1 || t.col >= size - b1 {
        return false;
    }
    let r2: usize = if t.dir == Direction::Left || t.dir
        == Direction::Right {
        t.row + 1
    } else {
        t.row
    };
    let c2: usize = if t.dir == Direction::Left || t.dir
        == Direction::Right {
        t.col
    } else {
        t.col + 1
    };
    if r2 >= size {
        return false;
    }
    let b2: usize = if r2 < s {
        s - 1 - r2
    } else {
        r2 - s
    };
    c2 >= b2 && c2 < size - b2
}

impl Diamond {
    /// Whether `s` captures exactly this engine's state.
    pub open spec fn matches_snapshot(self, s: Snapshot) -> bool {
        &&& s.size == self.lat.size
        &&& s.capacity == self.lat.capacity
        &&& s.cells@ == self.lat.data@
        &&& s.tiles@ == self.tiles@
        &&& s.next_id == self.tiles@.len()
        &&& s.free_ids@ == self.free_ids@
        &&& s.cursor_row == self.cur_row
        &&& s.cursor_col == self.cur_col
        &&& s.probability == self.prob
    }

    /// Capture the whole engine state as plain values.
    pub fn snapshot(&self) -> (s: Snapshot)
        ensures
            self.matches_snapshot(s),
    {
        Snapshot {
            size: self.lat.size,
            capacity: self.lat.capacity,
            cells: copy_usizes(&self.lat.data),
            tiles: copy_tiles(&self.tiles),
            next_id: self.tiles.len(),
            free_ids: deque_to_vec(&self.free_ids),
            cursor_row: self.cur_row,
            cursor_col: self.cur_col,
            probability: self.prob,
        }
    }

    /// Rebuild an engine from a snapshot, validating every field first; a
    /// snapshot that does not describe a well-formed engine is rejected with
    /// the first failing check, and no engine is handed out.
    #[verifier::rlimit(100)]
    pub fn restore(s: &Snapshot) -> (r: Result<Diamond, LoadError>)
        ensures
            r is Ok <==> snapshot_ok(*s),
            r matches Ok(d) ==> d.wf() && d.consistent() && d.matches_snapshot(*s),
            r == Err::<Diamond, LoadError>(LoadError::BadShape) <==> !shape_ok(*s),
            r == Err::<Diamond, LoadError>(LoadError::BadIdCounter) <==> shape_ok(*s)
                && !counter_ok(*s),
            r == Err::<Diamond, LoadError>(LoadError::BadTiles) <==> shape_ok(*s) && counter_ok(*s)
                && !table_ok(s.tiles@, s.size as int),
            r == Err::<Diamond, LoadError>(LoadError::BadCells) <==> shape_ok(*s) && counter_ok(*s)
                && table_ok(s.tiles@, s.size as int) && !cells_ok(*s),
            r == Err::<Diamond, LoadError>(LoadError::BadFreeList) <==> shape_ok(*s) && counter_ok(
                *s,
            ) && table_ok(s.tiles@, s.size as int) && cells_ok(*s) && !free_ok(
                s.free_ids@,
                s.tiles@,
            ),
            r == Err::<Diamond, LoadError>(LoadError::BadCursor) <==> shape_ok(*s) && counter_ok(
                *s,
            ) && table_ok(s.tiles@, s.size as int) && cells_ok(*s) && free_ok(
                s.free_ids@,
                s.tiles@,
            ) && !snap_cursor_ok(*s),
            r == Err::<Diamond, LoadError>(LoadError::BadProbability) <==> shape_ok(*s)
                && counter_ok(*s) && table_ok(s.tiles@, s.size as int) && cells_ok(*s) && free_ok(
                s.free_ids@,
                s.tiles@,
            ) && snap_cursor_ok(*s) && !(s.probability <= PROB_ONE),
    {
        // Shape.
        if s.capacity < 2 || s.capacity > CAP_MAX || s.capacity % 2 != 0 || s.size % 2 != 0
            || s.size > s.capacity {
            return Err(LoadError::BadShape);
        }
        proof {
            lemma_packed_len_fits(s.capacity as int);
        }
        let half: usize = s.capacity / 2;
        if s.cells.len() != 2 * half * (half + 1) {
            return Err(LoadError::BadShape);
        }
        // Id counter.
        if s.tiles.len() < 1 || s.next_id != s.tiles.len() {
            return Err(LoadError::BadIdCounter);
        }
        // Tiles.
        if s.tiles[0].is_some() {
            return Err(LoadError::BadTiles);
        }
        let n_tiles = s.tiles.len();
        let mut k: usize = 0;
        while k < n_tiles
            invariant
                shape_ok(*s),
                counter_ok(*s),
                s.tiles@[0] is None,
                n_tiles == s.tiles@.len(),
                k <= n_tiles,
                s.size <= CAP_MAX,
                forall|id: int|
                    0 <= id < k && s.tiles@[id] is Some ==> (#[trigger] s.tiles@[id])->Some_0.inside(
                        s.size as int,
                    ),
            decreases n_tiles - k,
        {
            match s.tiles[k] {
                Some(t) => {
                    if !tile_inside(s.size, t) {
                        return Err(LoadError::BadTiles);
                    }
                },
                None => {},
            }
            k = k + 1;
        }
        // Cells.
        let lat = Lattice {
            size: s.size,
            capacity: s.capacity,
            origin_r: (s.capacity - s.size) / 2,
            origin_c: (s.capacity - s.size) / 2,
            data: copy_usizes(&s.cells),
        };
        proof {
            assert(lat.wf());
        }
        let o: usize = (s.capacity - s.size) / 2;
        let mut rr: usize = 0;
        let mut cells_good: bool = true;
        while rr < s.capacity && cells_good
            invariant
                shape_ok(*s),
                counter_ok(*s),
                table_ok(s.tiles@, s.size as int),
                lat.wf(),
                lat.size == s.size,
                lat.capacity == s.capacity,
                lat.origin_r == o && lat.origin_c == o,
                lat.data@ == s.cells@,
                o == (s.capacity - s.size) / 2,
                n_tiles == s.tiles@.len(),
                rr <= s.capacity,
                cells_good ==> forall|a: int, b: int|
                    lat.in_alloc(a, b) && a + o < rr ==> (#[trigger] lat.cell(a, b) < n_tiles && (
                    !lat.in_fp(a, b) ==> lat.cell(a, b) == 0)),
                !cells_good ==> !cells_ok(*s),
            decreases s.capacity - rr,
        {
            let spn = lat.row_span_at(rr);
            let mut cc: usize = spn.0;
            while cc < spn.1 && cells_good
                invariant
                    shape_ok(*s),
                    counter_ok(*s),
                    table_ok(s.tiles@, s.size as int),
                    lat.wf(),
                    lat.size == s.size,
                    lat.capacity == s.capacity,
                    lat.origin_r == o && lat.origin_c == o,
                    lat.data@ == s.cells@,
                    o == (s.capacity - s.size) / 2,
                    n_tiles == s.tiles@.len(),
                    rr < s.capacity,
                    spn.0 == row_start(s.capacity as int, rr as int),
                    spn.1 == row_end(s.capacity as int, rr as int),
                    spn.0 <= cc <= spn.1,
                    cells_good ==> forall|a: int, b: int|
                        lat.in_alloc(a, b) && a + o < rr ==> (#[trigger] lat.cell(a, b) < n_tiles
                            && (!lat.in_fp(a, b) ==> lat.cell(a, b) == 0)),
                    cells_good ==> forall|b: int|
                        lat.in_alloc(rr - o, b) && b + o < cc ==> (#[trigger] lat.cell(rr - o, b)
                            < n_tiles && (!lat.in_fp(rr - o, b) ==> lat.cell(rr - o, b) == 0)),
                    !cells_good ==> !cells_ok(*s),
                decreases spn.1 - cc,
            {
                let v = lat.read_alloc(rr, cc);
                let in_window = rr >= o && cc >= o && rr - o < s.size && {
                    let i = rr - o;
                    let j = cc - o;
                    let sh: usize = s.size / 2;
                    let bw: usize = if i < sh {
                        sh - 1 - i
                    } else {
                        i - sh
                    };
                    j >= bw && j < s.size - bw
                };
                proof {
                    assert(in_window == lat.in_fp(rr - o, cc - o));
                }
                proof {
                    assert(lattice_of(*s).cell(rr - o, cc - o) == lat.cell(rr - o, cc - o));
                    assert(lat.in_alloc(rr - o, cc - o));
                }
                if in_window {
                    if v >= n_tiles {
                        cells_good = false;
                        proof {
                            assert(!cells_bound(lattice_of(*s), s.tiles@.len() as int));
                        }
                    }
                } else {
                    if v != 0 {
                        cells_good = false;
                        proof {
                            assert(!lattice_of(*s).blank_outside());
                        }
                    }
                }
                cc = cc + 1;
            }
            proof {
                if cells_good {
                    assert forall|a: int, b: int|
                        lat.in_alloc(a, b) && a + o < rr + 1 implies (#[trigger] lat.cell(a, b)
                        < n_tiles && (!lat.in_fp(a, b) ==> lat.cell(a, b) == 0)) by {
                        if a + o == rr {
                            assert(a == rr - o);
                            assert(lat.in_alloc(rr - o, b));
                            assert(lat.cell(rr - o, b) < n_tiles && (!lat.in_fp(rr - o, b)
                                ==> lat.cell(rr - o, b) == 0));
                        }
                    };
                }
            }
            rr = rr + 1;
        }
        if !cells_good {
            return Err(LoadError::BadCells);
        }
        proof {
            assert forall|a: int, b: int| lat.in_alloc(a, b) implies #[trigger] lat.cell(a, b)
                < n_tiles && (!lat.in_fp(a, b) ==> lat.cell(a, b) == 0) by {
                assert(a + o < rr);
            };
            assert forall|a: int, b: int| lat.in_fp(a, b) implies #[trigger] lat.cell(a, b)
                < n_tiles by {
                lat.lemma_fp_in_alloc(a, b);
            };
            assert(cells_bound(lat, n_tiles as int));
            assert(lat.blank_outside());
        }
        // Agreement, tile side: each live tile's two cells hold its id.
        let mut ka: usize = 0;
        while ka < n_tiles
            invariant
                shape_ok(*s),
                counter_ok(*s),
                table_ok(s.tiles@, s.size as int),
                lat.wf(),
                lat.size == s.size,
                lat.capacity == s.capacity,
                lat.data@ == s.cells@,
                n_tiles == s.tiles@.len(),
                cells_bound(lat, n_tiles as int),
                lat.blank_outside(),
                ka <= n_tiles,
                forall|id: int|
                    0 <= id < ka && s.tiles@[id] is Some ==> lat.cell(
                        (#[trigger] s.tiles@[id])->Some_0.row as int,
                        s.tiles@[id]->Some_0.col as int,
                    ) == id && lat.cell(
                        s.tiles@[id]->Some_0.row2(),
                        s.tiles@[id]->Some_0.col2(),
                    ) == id,
            decreases n_tiles - ka,
        {
            match s.tiles[ka] {
                Some(t) => {
                    proof {
                        assert(t.inside(s.size as int));
                    }
                    if lat.read(t.row, t.col) != ka {
                        proof {
                            assert(lattice_of(*s).cell(t.row as int, t.col as int) == lat.cell(
                                t.row as int,
                                t.col as int,
                            ));
                            assert(!cells_agree(lattice_of(*s), s.tiles@));
                        }
                        return Err(LoadError::BadCells);
                    }
                    let second = if t.dir == Direction::Left || t.dir == Direction::Right {
                        lat.read(t.row + 1, t.col)
                    } else {
                        lat.read(t.row, t.col + 1)
                    };
                    if second != ka {
                        proof {
                            assert(lattice_of(*s).cell(t.row2(), t.col2()) == lat.cell(
                                t.row2(),
                                t.col2(),
                            ));
                            assert(!cells_agree(lattice_of(*s), s.tiles@));
                        }
                        return Err(LoadError::BadCells);
                    }
                },
                None => {},
            }
            ka = ka + 1;
        }
        // Agreement, cell side: each occupied cell is covered by the live
        // tile it names.
        let mut ia: usize = 0;
        while ia < s.size
            invariant
                shape_ok(*s),
                counter_ok(*s),
                table_ok(s.tiles@, s.size as int),
                lat.wf(),
                lat.size == s.size,
                lat.capacity == s.capacity,
                lat.data@ == s.cells@,
                n_tiles == s.tiles@.len(),
                cells_bound(lat, n_tiles as int),
                lat.blank_outside(),
                forall|id: int|
                    0 <= id < s.tiles@.len() && s.tiles@[id] is Some ==> lat.cell(
                        (#[trigger] s.tiles@[id])->Some_0.row as int,
                        s.tiles@[id]->Some_0.col as int,
                    ) == id && lat.cell(
                        s.tiles@[id]->Some_0.row2(),
                        s.tiles@[id]->Some_0.col2(),
                    ) == id,
                ia <= s.size,
                forall|a: int, b: int|
                    lat.in_fp(a, b) && a < ia && #[trigger] lat.cell(a, b) != 0 ==> 0 <= lat.cell(
                        a,
                        b,
                    ) < s.tiles@.len() && s.tiles@[lat.cell(a, b) as int] is Some
                        && s.tiles@[lat.cell(a, b) as int]->Some_0.covers(a, b),
            decreases s.size - ia,
        {
            let spi = lat.row_span(ia);
            let mut ja: usize = spi.0;
            while ja < spi.1
                invariant
                    shape_ok(*s),
                    counter_ok(*s),
                    table_ok(s.tiles@, s.size as int),
                    lat.wf(),
                    lat.size == s.size,
                    lat.capacity == s.capacity,
                    lat.data@ == s.cells@,
                    n_tiles == s.tiles@.len(),
                    cells_bound(lat, n_tiles as int),
                    lat.blank_outside(),
                    forall|id: int|
                        0 <= id < s.tiles@.len() && s.tiles@[id] is Some ==> lat.cell(
                            (#[trigger] s.tiles@[id])->Some_0.row as int,
                            s.tiles@[id]->Some_0.col as int,
                        ) == id && lat.cell(
                            s.tiles@[id]->Some_0.row2(),
                            s.tiles@[id]->Some_0.col2(),
                        ) == id,
                    ia < s.size,
                    spi.0 == row_start(s.size as int, ia as int),
                    spi.1 == row_end(s.size as int, ia as int),
                    spi.0 <= ja <= spi.1,
                    forall|a: int, b: int|
                        lat.in_fp(a, b) && a < ia && #[trigger] lat.cell(a, b) != 0 ==> 0 <= lat
                            .cell(a, b) < s.tiles@.len() && s.tiles@[lat.cell(a, b) as int]
                            is Some && s.tiles@[lat.cell(a, b) as int]->Some_0.covers(a, b),
                    forall|b: int|
                        lat.in_fp(ia as int, b) && b < ja && #[trigger] lat.cell(ia as int, b)
                            != 0 ==> 0 <= lat.cell(ia as int, b) < s.tiles@.len()
                            && s.tiles@[lat.cell(ia as int, b) as int] is Some && s.tiles@[lat.cell(
                            ia as int,
                            b,
                        ) as int]->Some_0.covers(ia as int, b),
                decreases spi.1 - ja,
            {
                let v = lat.read(ia, ja);
                if v != 0 {
                    match s.tiles[v] {
                        Some(t) => {
                            let covers = (t.row == ia && t.col == ja) || (if t.dir
                                == Direction::Left || t.dir == Direction::Right {
                                t.row + 1 == ia && t.col == ja
                            } else {
                                t.row == ia && t.col + 1 == ja
                            });
                            if !covers {
                                proof {
                                    assert(lattice_of(*s).cell(ia as int, ja as int) == lat.cell(
                                        ia as int,
                                        ja as int,
                                    ));
                                    assert(lattice_of(*s).in_fp(ia as int, ja as int));
                                    assert(!(s.tiles@[lat.cell(ia as int, ja as int) as int]
                                        ->Some_0.covers(ia as int, ja as int)));
                                    assert(!cells_agree(lattice_of(*s), s.tiles@));
                                }
                                return Err(LoadError::BadCells);
                            }
                        },
                        None => {
                            proof {
                                assert(lattice_of(*s).cell(ia as int, ja as int) == lat.cell(
                                    ia as int,
                                    ja as int,
                                ));
                                assert(lattice_of(*s).in_fp(ia as int, ja as int));
                                assert(!cells_agree(lattice_of(*s), s.tiles@));
                            }
                            return Err(LoadError::BadCells);
                        },
                    }
                }
                ja = ja + 1;
            }
            ia = ia + 1;
        }
        proof {
            assert(cells_agree(lat, s.tiles@));
            assert forall|a: int, b: int| lattice_of(*s).in_fp(a, b) implies #[trigger] lattice_of(
                *s,
            ).cell(a, b) < s.tiles@.len() by {
                assert(lattice_of(*s).cell(a, b) == lat.cell(a, b));
                assert(lat.in_fp(a, b));
            };
            assert forall|a: int, b: int|
                lattice_of(*s).in_alloc(a, b) && !lattice_of(*s).in_fp(a, b) implies #[trigger] lattice_of(
                *s,
            ).cell(a, b) == 0 by {
                assert(lattice_of(*s).cell(a, b) == lat.cell(a, b));
                assert(lat.in_alloc(a, b) && !lat.in_fp(a, b));
            };
            assert forall|id: int|
                0 <= id < s.tiles@.len() && s.tiles@[id] is Some implies lattice_of(*s).cell(
                (#[trigger] s.tiles@[id])->Some_0.row as int,
                s.tiles@[id]->Some_0.col as int,
            ) == id && lattice_of(*s).cell(
                s.tiles@[id]->Some_0.row2(),
                s.tiles@[id]->Some_0.col2(),
            ) == id by {
                let t = s.tiles@[id]->Some_0;
                assert(lattice_of(*s).cell(t.row as int, t.col as int) == lat.cell(
                    t.row as int,
                    t.col as int,
                ));
                assert(lattice_of(*s).cell(t.row2(), t.col2()) == lat.cell(t.row2(), t.col2()));
            };
            assert forall|a: int, b: int|
                lattice_of(*s).in_fp(a, b) && #[trigger] lattice_of(*s).cell(a, b) != 0 implies 0
                <= lattice_of(*s).cell(a, b) < s.tiles@.len() && s.tiles@[lattice_of(*s).cell(
                a,
                b,
            ) as int] is Some && s.tiles@[lattice_of(*s).cell(a, b) as int]->Some_0.covers(
                a,
                b,
            ) by {
                assert(lattice_of(*s).cell(a, b) == lat.cell(a, b));
                assert(lat.in_fp(a, b));
            };
            assert(cells_agree(lattice_of(*s), s.tiles@));
            assert(cells_ok(*s));
        }
        // Free list.
        let n_free = s.free_ids.len();
        let mut k2: usize = 0;
        while k2 < n_free
            invariant
                shape_ok(*s),
                counter_ok(*s),
                table_ok(s.tiles@, s.size as int),
                cells_ok(*s),
                n_free == s.free_ids@.len(),
                k2 <= n_free,
                n_tiles == s.tiles@.len(),
                forall|m: int|
                    0 <= m < k2 ==> 1 <= #[trigger] s.free_ids@[m] < n_tiles
                        && s.tiles@[s.free_ids@[m] as int] is None,
                forall|m1: int, m2: int|
                    0 <= m1 < m2 < k2 ==> #[trigger] s.free_ids@[m1] != #[trigger] s.free_ids@[m2],
            decreases n_free - k2,
        {
            let f = s.free_ids[k2];
            if f < 1 || f >= n_tiles {
                return Err(LoadError::BadFreeList);
            }
            if s.tiles[f].is_some() {
                return Err(LoadError::BadFreeList);
            }
            let mut m: usize = 0;
            while m < k2
                invariant
                    shape_ok(*s),
                    counter_ok(*s),
                    table_ok(s.tiles@, s.size as int),
                    cells_ok(*s),
                    m <= k2 < n_free,
                    n_free == s.free_ids@.len(),
                    f == s.free_ids@[k2 as int],
                    forall|m1: int| 0 <= m1 < m ==> #[trigger] s.free_ids@[m1] != f,
                decreases k2 - m,
            {
                if s.free_ids[m] == f {
                    return Err(LoadError::BadFreeList);
                }
                m = m + 1;
            }
            k2 = k2 + 1;
        }
        // Cursor and probability.
        if s.cursor_row > s.size || s.cursor_col > s.size {
            return Err(LoadError::BadCursor);
        }
        if s.probability > PROB_ONE {
            return Err(LoadError::BadProbability);
        }
        let d = Diamond {
            lat,
            tiles: copy_tiles(&s.tiles),
            free_ids: vec_to_deque(&s.free_ids),
            cur_row: s.cursor_row,
            cur_col: s.cursor_col,
            prob: s.probability,
        };
        proof {
            assert(d.wf());
            assert(d.matches_snapshot(*s));
        }
        Ok(d)
    }
}

/// Restoring the snapshot of a well-formed engine always succeeds: taking a
/// snapshot and restoring it reproduces the state field for field.
pub proof fn lemma_snapshot_round_trip(d: Diamond, s: Snapshot)
    requires
        d.wf(),
        d.consistent(),
        d.matches_snapshot(s),
    ensures
        snapshot_ok(s),
{
    assert(lattice_of(s).size == d.lat.size);
    assert(lattice_of(s).data@ == d.lat.data@);
    assert forall|i: int, j: int| lattice_of(s).in_fp(i, j) implies #[trigger] lattice_of(s).cell(
        i,
        j,
    ) < s.tiles@.len() by {
        assert(lattice_of(s).cell(i, j) == d.lat.cell(i, j));
        assert(d.lat.in_fp(i, j));
        assert(d.lat.cell(i, j) < d.tiles@.len());
    };
    assert forall|i: int, j: int|
        lattice_of(s).in_alloc(i, j) && !lattice_of(s).in_fp(i, j) implies #[trigger] lattice_of(
        s,
    ).cell(i, j) == 0 by {
        assert(lattice_of(s).cell(i, j) == d.lat.cell(i, j));
        assert(d.lat.in_alloc(i, j) && !d.lat.in_fp(i, j));
    };
    assert forall|id: int|
        0 <= id < s.tiles@.len() && s.tiles@[id] is Some implies lattice_of(s).cell(
        (#[trigger] s.tiles@[id])->Some_0.row as int,
        s.tiles@[id]->Some_0.col as int,
    ) == id && lattice_of(s).cell(
        s.tiles@[id]->Some_0.row2(),
        s.tiles@[id]->Some_0.col2(),
    ) == id by {
        let t = s.tiles@[id]->Some_0;
        assert(lattice_of(s).cell(t.row as int, t.col as int) == d.lat.cell(
            t.row as int,
            t.col as int,
        ));
        assert(lattice_of(s).cell(t.row2(), t.col2()) == d.lat.cell(t.row2(), t.col2()));
        assert(d.tiles@[id] is Some && d.tiles@[id]->Some_0 == t);
    };
    assert forall|i: int, j: int|
        lattice_of(s).in_fp(i, j) && #[trigger] lattice_of(s).cell(i, j) != 0 implies 0
        <= lattice_of(s).cell(i, j) < s.tiles@.len() && s.tiles@[lattice_of(s).cell(i, j) as int]
        is Some && s.tiles@[lattice_of(s).cell(i, j) as int]->Some_0.covers(i, j) by {
        assert(lattice_of(s).cell(i, j) == d.lat.cell(i, j));
        assert(d.lat.in_fp(i, j));
    };
    assert(cells_agree(lattice_of(s), s.tiles@));
    assert(cells_ok(s));
}

} // verus!
