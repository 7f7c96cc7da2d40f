//! Packed storage for the diamond-shaped board.
//!
//! A diamond of side `size` (always even) occupies the cells `(i, j)` with
//! `row_start(size, i) <= j < row_end(size, i)` for `0 <= i < size`; the four
//! corners of the bounding square are cut off.  Rows are stored back to back
//! in one `Vec`, so the backing array needs `packed_len(size)` slots.  The
//! board is allocated once at `capacity`; a centered window of the current
//! `size` is in use, and `origin` maps window coordinates to allocated
//! coordinates.  Growing the window by two shrinks `origin` by one per axis.

use vstd::prelude::*;

verus! {

/// Largest accepted allocation side: keeps every slot computation inside
/// 32-bit `usize` range.
pub const CAP_MAX: usize = 32768;

/// Column where row `i` of a diamond of side `size` begins.
pub open spec fn row_start(size: int, i: int) -> int {
    if i < size / 2 {
        size / 2 - 1 - i
    } else {
        i - size / 2
    }
}

/// One past the last column of row `i` of a diamond of side `size`.
pub open spec fn row_end(size: int, i: int) -> int {
    size - row_start(size, i)
}

/// Whether `(i, j)` lies inside a diamond of side `size`.
pub open spec fn in_diamond(size: int, i: int, j: int) -> bool {
    0 <= i < size && row_start(size, i) <= j < row_end(size, i)
}

/// Index of the first slot of row `i` in the packed array.
pub open spec fn row_base(size: int, i: int) -> int {
    if i <= size / 2 {
        i * (i + 1)
    } else {
        2 * (size / 2) * (size / 2 + 1) - (size - i) * (size - i + 1)
    }
}

/// Packed slot of the cell `(i, j)`.
pub open spec fn slot(size: int, i: int, j: int) -> int {
    row_base(size, i) + j - row_start(size, i)
}

/// Number of slots a diamond of side `size` needs.
pub open spec fn packed_len(size: int) -> int {
    2 * (size / 2) * (size / 2 + 1)
}

/// Rows keep their starting column when a diamond grows symmetrically:
/// row `i + m` of the side-`size + 2m` diamond starts where row `i` of the
/// side-`size` diamond does, and ends `2m` columns later.
pub proof fn lemma_row_shift(size: int, m: int, i: int)
    requires
        size >= 0,
        size % 2 == 0,
        m >= 0,
        0 <= i < size,
    ensures
        row_start(size + 2 * m, i + m) == row_start(size, i),
        row_end(size + 2 * m, i + m) == row_end(size, i) + 2 * m,
{
    assert((size + 2 * m) / 2 == size / 2 + m);
}

/// A cell of the smaller diamond, shifted by the margin, is a cell of the
/// larger diamond.
pub proof fn lemma_diamond_shift(size: int, m: int, i: int, j: int)
    requires
        size >= 0,
        size % 2 == 0,
        m >= 0,
        in_diamond(size, i, j),
    ensures
        in_diamond(size + 2 * m, i + m, j + m),
{
    lemma_row_shift(size, m, i);
}

/// Row bases are consecutive: each row starts right after the previous one.
pub proof fn lemma_row_base_step(size: int, i: int)
    requires
        size >= 2,
        size % 2 == 0,
        0 <= i < size,
    ensures
        row_base(size, i + 1) == row_base(size, i) + (row_end(size, i) - row_start(size, i)),
{
    let s = size / 2;
    if i + 1 <= s {
        assert((i + 1) * (i + 2) == i * (i + 1) + (2 * i + 2)) by (nonlinear_arith);
    } else {
        let s2 = size - i;
        assert(2 * s * (s + 1) - (s2 - 1) * s2
            == 2 * s * (s + 1) - s2 * (s2 + 1) + 2 * s2) by (nonlinear_arith);
        if i == s {
            assert(s * (s + 1) == 2 * s * (s + 1) - s * (s + 1)) by (nonlinear_arith);
        }
    }
}

/// Row bases never decrease.
pub proof fn lemma_row_base_mono(size: int, a: int, b: int)
    requires
        size >= 2,
        size % 2 == 0,
        0 <= a <= b <= size,
    ensures
        row_base(size, a) <= row_base(size, b),
    decreases b - a,
{
    if a < b {
        lemma_row_base_step(size, b - 1);
        assert(row_end(size, b - 1) - row_start(size, b - 1) >= 0);
        lemma_row_base_mono(size, a, b - 1);
    }
}

/// Every cell's slot lies inside the packed array, below the next row's base.
pub proof fn lemma_slot_in_row(size: int, i: int, j: int)
    requires
        size >= 2,
        size % 2 == 0,
        in_diamond(size, i, j),
    ensures
        row_base(size, i) <= slot(size, i, j) < row_base(size, i + 1),
        0 <= slot(size, i, j) < packed_len(size),
{
    let s = size / 2;
    lemma_row_base_step(size, i);
    assert(row_base(size, 0) == 0);
    lemma_row_base_mono(size, 0, i);
    lemma_row_base_mono(size, i + 1, size);
    assert(row_base(size, size) == packed_len(size)) by {
        assert((size - size) * (size - size + 1) == 0);
    };
}

/// The packed array of the largest accepted diamond still fits comfortably
/// in a 32-bit `usize`.
pub proof fn lemma_packed_len_fits(size: int)
    requires
        2 <= size <= CAP_MAX,
        size % 2 == 0,
    ensures
        packed_len(size) <= 0x20010000,
{
    let s = size / 2;
    assert(2 * s * (s + 1) <= 0x20010000) by (nonlinear_arith)
        requires 1 <= s <= 0x4000;
}

/// Distinct cells get distinct slots.
pub proof fn lemma_slot_injective(size: int, i1: int, j1: int, i2: int, j2: int)
    requires
        size >= 2,
        size % 2 == 0,
        in_diamond(size, i1, j1),
        in_diamond(size, i2, j2),
        slot(size, i1, j1) == slot(size, i2, j2),
    ensures
        i1 == i2 && j1 == j2,
{
    lemma_slot_in_row(size, i1, j1);
    lemma_slot_in_row(size, i2, j2);
    if i1 < i2 {
        lemma_row_base_mono(size, i1 + 1, i2);
    }
    if i2 < i1 {
        lemma_row_base_mono(size, i2 + 1, i1);
    }
}

/// Number of zero entries of a sequence; the fill phase strictly lowers it,
/// which bounds the fill loop.
pub open spec fn zero_count(s: Seq<usize>) -> nat
    decreases s.len(),
{
    if s.len() == 0 {
        0
    } else {
        zero_count(s.drop_last()) + (if s.last() == 0usize {
            1nat
        } else {
            0nat
        })
    }
}

/// Overwriting one entry with a nonzero value lowers the zero count exactly
/// when the entry was zero, and never raises it.
pub proof fn lemma_zero_count_update(s: Seq<usize>, k: int, v: usize)
    requires
        0 <= k < s.len(),
        v != 0,
    ensures
        zero_count(s.update(k, v)) == zero_count(s) - (if s[k] == 0usize {
            1int
        } else {
            0int
        }),
    decreases s.len(),
{
    if k == s.len() - 1 {
        assert(s.update(k, v).drop_last() =~= s.drop_last());
        assert(s.update(k, v).last() == v);
    } else {
        assert(s.update(k, v).drop_last() =~= s.drop_last().update(k, v));
        lemma_zero_count_update(s.drop_last(), k, v);
        assert(s.update(k, v).last() == s.last());
        assert(s.drop_last()[k] == s[k]);
    }
}

/// The packed board: allocated once, with a centered growing window in use.
pub struct Lattice {
    pub size: usize,
    pub capacity: usize,
    pub origin_r: usize,
    pub origin_c: usize,
    pub data: Vec<usize>,
}

impl Lattice {
    pub open spec fn wf(self) -> bool {
        &&& 2 <= self.capacity <= CAP_MAX
        &&& self.capacity % 2 == 0
        &&& self.size % 2 == 0
        &&& self.size <= self.capacity
        &&& self.origin_r == (self.capacity - self.size) / 2
        &&& self.origin_c == (self.capacity - self.size) / 2
        &&& self.data@.len() == packed_len(self.capacity as int)
    }

    /// Current window footprint, in window coordinates.
    pub open spec fn in_fp(self, i: int, j: int) -> bool {
        in_diamond(self.size as int, i, j)
    }

    /// Allocated footprint, in window coordinates; it extends `margin` cells
    /// beyond the window on every side.
    pub open spec fn in_alloc(self, i: int, j: int) -> bool {
        in_diamond(self.capacity as int, i + self.origin_r, j + self.origin_c)
    }

    /// Value stored at the window cell `(i, j)`.
    pub open spec fn cell(self, i: int, j: int) -> usize {
        self.data@[slot(self.capacity as int, i + self.origin_r, j + self.origin_c)]
    }

    /// Every allocated cell outside the current window is empty.
    pub open spec fn blank_outside(self) -> bool {
        forall|i: int, j: int|
            self.in_alloc(i, j) && !self.in_fp(i, j) ==> #[trigger] self.cell(i, j) == 0
    }

    /// A window cell is an allocated cell.
    pub proof fn lemma_fp_in_alloc(self, i: int, j: int)
        requires
            self.wf(),
            self.in_fp(i, j),
        ensures
            self.in_alloc(i, j),
    {
        lemma_diamond_shift(
            self.size as int,
            (self.capacity - self.size) as int / 2,
            i,
            j,
        );
    }

    /// A fresh all-empty board of the given allocation side.
    pub fn new(capacity: usize) -> (r: Lattice)
        requires
            2 <= capacity <= CAP_MAX,
            capacity % 2 == 0,
        ensures
            r.wf(),
            r.size == 0,
            r.capacity == capacity,
            forall|i: int, j: int| r.in_alloc(i, j) ==> #[trigger] r.cell(i, j) == 0,
    {
        let s: usize = capacity / 2;
        proof {
            lemma_packed_len_fits(capacity as int);
        }
        let n: usize = 2 * s * (s + 1);
        assert(n == packed_len(capacity as int));
        let mut data: Vec<usize> = Vec::new();
        let mut k: usize = 0;
        while k < n
            invariant
                k <= n,
                data@.len() == k,
                forall|m: int| 0 <= m < k ==> data@[m] == 0,
            decreases n - k,
        {
            data.push(0);
            k = k + 1;
        }
        let r = Lattice { size: 0, capacity, origin_r: s, origin_c: s, data };
        assert forall|i: int, j: int| r.in_alloc(i, j) implies #[trigger] r.cell(i, j) == 0 by {
            lemma_slot_in_row(capacity as int, i + s, j + s);
        };
        r
    }

    /// Packed slot of the allocated cell `(r, c)`, in allocated coordinates.
    fn to_slot(&self, r: usize, c: usize) -> (k: usize)
        requires
            self.wf(),
            in_diamond(self.capacity as int, r as int, c as int),
        ensures
            k == slot(self.capacity as int, r as int, c as int),
            k < self.data@.len(),
    {
        let ghost cap = self.capacity as int;
        proof {
            lemma_slot_in_row(cap, r as int, c as int);
            lemma_packed_len_fits(cap);
        }
        let s: usize = self.capacity / 2;
        let b: usize = if r < s {
            s - 1 - r
        } else {
            r - s
        };
        assert(b == row_start(cap, r as int));
        let base: usize = if r < s {
            assert(r * (r + 1) == row_base(cap, r as int));
            r * (r + 1)
        } else {
            let s2: usize = self.capacity - r;
            proof {
                assert(s2 * (s2 + 1) <= 2 * s * (s + 1)) by (nonlinear_arith)
                    requires 0 <= s2 <= s;
                if r == s {
                    assert(2 * s * (s + 1) - s * (s + 1) == s * (s + 1)) by (nonlinear_arith);
                }
            }
            2 * s * (s + 1) - s2 * (s2 + 1)
        };
        assert(base == row_base(cap, r as int));
        base + (c - b)
    }

    /// Read the window cell `(i, j)`.
    pub fn read(&self, i: usize, j: usize) -> (v: usize)
        requires
            self.wf(),
            self.in_fp(i as int, j as int),
        ensures
            v == self.cell(i as int, j as int),
    {
        proof {
            self.lemma_fp_in_alloc(i as int, j as int);
        }
        let k = self.to_slot(i + self.origin_r, j + self.origin_c);
        self.data[k]
    }

    /// Write the window cell `(i, j)`; every other cell keeps its value.
    pub fn write(&mut self, i: usize, j: usize, v: usize)
        requires
            old(self).wf(),
            old(self).in_fp(i as int, j as int),
        ensures
            final(self).wf(),
            final(self).size == old(self).size,
            final(self).capacity == old(self).capacity,
            final(self).origin_r == old(self).origin_r,
            final(self).origin_c == old(self).origin_c,
            final(self).cell(i as int, j as int) == v,
            final(self).data@ == old(self).data@.update(
                slot(
                    old(self).capacity as int,
                    i + old(self).origin_r,
                    j + old(self).origin_c,
                ),
                v,
            ),
            0 <= slot(
                old(self).capacity as int,
                i + old(self).origin_r,
                j + old(self).origin_c,
            ) < old(self).data@.len(),
            old(self).data@[slot(
                old(self).capacity as int,
                i + old(self).origin_r,
                j + old(self).origin_c,
            )] == old(self).cell(i as int, j as int),
            forall|a: int, b: int|
                old(self).in_alloc(a, b) && !(a == i && b == j)
                    ==> #[trigger] final(self).cell(a, b) == old(self).cell(a, b),
    {
        proof {
            self.lemma_fp_in_alloc(i as int, j as int);
        }
        let k = self.to_slot(i + self.origin_r, j + self.origin_c);
        self.data.set(k, v);
        proof {
            let cap = old(self).capacity as int;
            let or = old(self).origin_r as int;
            let oc = old(self).origin_c as int;
            assert forall|a: int, b: int|
                old(self).in_alloc(a, b) && !(a == i && b == j)
                    implies #[trigger] final(self).cell(a, b) == old(self).cell(a, b) by {
                lemma_slot_in_row(cap, a + or, b + oc);
                if slot(cap, a + or, b + oc) == slot(cap, i + or, j + oc) {
                    lemma_slot_injective(cap, a + or, b + oc, i + or, j + oc);
                }
            };
        }
    }

    /// Start and end of row `i`'s column range at the current window size.
    pub fn row_span(&self, i: usize) -> (r: (usize, usize))
        requires
            self.wf(),
            i < self.size,
        ensures
            r.0 == row_start(self.size as int, i as int),
            r.1 == row_end(self.size as int, i as int),
            r.0 <= r.1,
    {
        let s: usize = self.size / 2;
        let b: usize = if i < s {
            s - 1 - i
        } else {
            i - s
        };
        (b, self.size - b)
    }

    /// Start and end of row `r`'s column range in the allocated diamond,
    /// in allocated coordinates.
    pub(crate) fn row_span_at(&self, r: usize) -> (sp: (usize, usize))
        requires
            self.wf(),
            r < self.capacity,
        ensures
            sp.0 == row_start(self.capacity as int, r as int),
            sp.1 == row_end(self.capacity as int, r as int),
            sp.0 <= sp.1,
    {
        let s: usize = self.capacity / 2;
        let b: usize = if r < s {
            s - 1 - r
        } else {
            r - s
        };
        (b, self.capacity - b)
    }

    /// Read an allocated cell, in allocated coordinates.
    pub(crate) fn read_alloc(&self, r: usize, c: usize) -> (v: usize)
        requires
            self.wf(),
            in_diamond(self.capacity as int, r as int, c as int),
        ensures
            v == self.data@[slot(self.capacity as int, r as int, c as int)],
    {
        let k = self.to_slot(r, c);
        self.data[k]
    }

    /// Grow the window by two, recentering it in the allocation.  The stored
    /// values do not move, so the window cell `(i, j)` now reads what
    /// `(i - 1, j - 1)` read before.
    pub(crate) fn grow(&mut self)
        requires
            old(self).wf(),
            old(self).size + 2 <= old(self).capacity,
        ensures
            final(self).wf(),
            final(self).size == old(self).size + 2,
            final(self).capacity == old(self).capacity,
            final(self).data@ == old(self).data@,
            final(self).origin_r == old(self).origin_r - 1,
            final(self).origin_c == old(self).origin_c - 1,
            forall|a: int, b: int|
                #[trigger] final(self).cell(a, b) == old(self).cell(a - 1, b - 1),
            forall|a: int, b: int|
                #[trigger] final(self).in_alloc(a, b) == old(self).in_alloc(a - 1, b - 1),
    {
        self.size = self.size + 2;
        self.origin_r = self.origin_r - 1;
        self.origin_c = self.origin_c - 1;
    }
}

} // verus!
