//! A packet's damaged rows, in the shape both the equality filter and the scroll pre-pass need.
//!
//! Runs arrive in ascending row order and are disjoint, so a row's runs are a contiguous stretch of
//! the packet and finding one is a walk rather than a sort. A row is a range of run indices and
//! the offset of its first cell in the packet's concatenated cells: nothing is gathered, which is
//! what keeps the filter allocating nothing.
use vstd::prelude::*;
use crate::packet::{runs_fit, Packet, Run};
use crate::quant::Quantiser;
use crate::style::Cell;

verus! {

/// Where run `k`'s cells begin in the packet's concatenated cells.
pub open spec fn offset(runs: Seq<Run>, k: int) -> int
    decreases k,
{
    if k <= 0 {
        0
    } else {
        offset(runs, k - 1) + runs[k - 1].spec_len()
    }
}

/// Runs in ascending row order, and disjoint and ascending within a row.
pub open spec fn ordered(runs: Seq<Run>) -> bool {
    forall|i: int, j: int|
        0 <= i < j < runs.len() ==> #[trigger] runs[i].y < #[trigger] runs[j].y || (runs[i].y
            == runs[j].y && runs[i].hi < runs[j].lo)
}

/// What a serializer needs of a packet: its runs fit a `width` x `height` screen, are ordered, and
/// its cells are exactly theirs.
pub open spec fn shaped(p: &Packet, width: u16, height: u16) -> bool {
    &&& runs_fit(p.runs@, width, height)
    &&& ordered(p.runs@)
    &&& p.cells@.len() == offset(p.runs@, p.runs@.len() as int)
}

/// Whether a run covers column `x` of row `y`.
pub open spec fn covers(r: Run, x: int, y: int) -> bool {
    r.y == y && r.lo <= x <= r.hi
}

/// Whether this packet carries the cell at `(x, y)`.
pub open spec fn damaged(p: &Packet, x: int, y: int) -> bool {
    exists|k: int| 0 <= k < p.runs@.len() && #[trigger] covers(p.runs@[k], x, y)
}

/// The cell run `k` carries at column `x`.
pub open spec fn cell_in(p: &Packet, k: int, x: int) -> Cell {
    p.cells@[offset(p.runs@, k) + x - p.runs@[k].lo]
}

/// The cell this packet carries at `(x, y)`, where it carries one.
pub open spec fn damaged_cell(p: &Packet, x: int, y: int) -> Cell {
    cell_in(p, choose|k: int| 0 <= k < p.runs@.len() && #[trigger] covers(p.runs@[k], x, y), x)
}

/// A cell narrowed to what a terminal can express. The grapheme is never touched.
pub open spec fn narrowed(q: Quantiser, c: Cell) -> Cell {
    Cell { grapheme: c.grapheme, style: q.spec_style(c.style) }
}

/// Offsets only grow, and a run's cells end where the next run's begin or before.
pub proof fn lemma_offset_mono(runs: Seq<Run>, i: int, j: int)
    requires
        0 <= i <= j <= runs.len(),
        forall|k: int| 0 <= k < runs.len() ==> (#[trigger] runs[k]).lo <= runs[k].hi,
    ensures
        offset(runs, i) <= offset(runs, j),
        i < j ==> offset(runs, i) + runs[i].spec_len() <= offset(runs, j),
    decreases j - i,
{
    if i < j {
        lemma_offset_mono(runs, i, j - 1);
    }
}

/// A cell of a run lies inside the packet's cells.
pub proof fn lemma_cell_in_bounds(p: &Packet, width: u16, height: u16, k: int, x: int)
    requires
        shaped(p, width, height),
        0 <= k < p.runs@.len(),
        p.runs@[k].lo <= x <= p.runs@[k].hi,
    ensures
        0 <= offset(p.runs@, k) + x - p.runs@[k].lo < p.cells@.len(),
{
    assert(p.runs@[k].lo <= p.runs@[k].hi);
    lemma_offset_mono(p.runs@, k, p.runs@.len() as int);
    lemma_offset_mono(p.runs@, 0, k);
}

/// In an ordered packet no two runs cover one cell, so the carried cell is run `k`'s.
pub proof fn lemma_damaged_unique(p: &Packet, width: u16, height: u16, k: int, x: int, y: int)
    requires
        shaped(p, width, height),
        0 <= k < p.runs@.len(),
        covers(p.runs@[k], x, y),
    ensures
        damaged(p, x, y),
        damaged_cell(p, x, y) == cell_in(p, k, x),
{
    let j = choose|j: int| 0 <= j < p.runs@.len() && #[trigger] covers(p.runs@[j], x, y);
    assert(covers(p.runs@[j], x, y));
    if j < k {
        assert(p.runs@[j].y < p.runs@[k].y || (p.runs@[j].y == p.runs@[k].y && p.runs@[j].hi
            < p.runs@[k].lo));
    } else if k < j {
        assert(p.runs@[k].y < p.runs@[j].y || (p.runs@[k].y == p.runs@[j].y && p.runs@[k].hi
            < p.runs@[j].lo));
    }
}

/// Rows never go back up: a run after another is on the same row or a later one.
pub proof fn lemma_rows_ascend(runs: Seq<Run>, i: int, j: int)
    requires
        ordered(runs),
        0 <= i <= j < runs.len(),
    ensures
        runs[i].y <= runs[j].y,
        i < j && runs[i].y == runs[j].y ==> runs[i].hi < runs[j].lo,
{
    if i < j {
        assert(runs[i].y < runs[j].y || (runs[i].y == runs[j].y && runs[i].hi < runs[j].lo));
    }
}

/// One row of a packet: the runs `start..end` that damaged row `y`, and where their cells begin
/// and end in the packet's concatenated cells.
#[derive(Clone, Copy, Debug)]
pub struct Row {
    pub start: usize,
    pub end: usize,
    pub base: usize,
    pub stop: usize,
    pub y: u16,
}

impl Row {
    /// Exactly the runs of row `y`, and the offsets of their cells.
    pub open spec fn ok(self, p: &Packet) -> bool {
        &&& self.start < self.end <= p.runs@.len()
        &&& self.base == offset(p.runs@, self.start as int)
        &&& self.stop == offset(p.runs@, self.end as int)
        &&& forall|k: int| self.start <= k < self.end ==> (#[trigger] p.runs@[k]).y == self.y
        &&& self.start == 0 || p.runs@[self.start - 1].y != self.y
        &&& self.end == p.runs@.len() || p.runs@[self.end as int].y != self.y
    }

    /// The runs of this row are the only runs on it.
    pub proof fn lemma_only(self, p: &Packet, width: u16, height: u16, k: int)
        requires
            shaped(p, width, height),
            self.ok(p),
            0 <= k < p.runs@.len(),
            p.runs@[k].y == self.y,
        ensures
            self.start <= k < self.end,
    {
        if k < self.start {
            lemma_rows_ascend(p.runs@, k, self.start - 1);
            lemma_rows_ascend(p.runs@, self.start - 1, self.start as int);
        }
        if k >= self.end {
            lemma_rows_ascend(p.runs@, self.end - 1, self.end as int);
            lemma_rows_ascend(p.runs@, self.end as int, k);
        }
    }

    /// The row's y.
    pub fn y(&self) -> (y: u16)
        ensures
            y == self.y,
    {
        self.y
    }

    /// The packet's cell at column `x`, or `None` when no run of this row covers it.
    pub fn at(&self, p: &Packet, x: u16) -> (c: Option<Cell>)
        requires
            shaped(p, p.size.0, p.size.1),
            self.ok(p),
        ensures
            match c {
                Some(c) => damaged(p, x as int, self.y as int) && c == damaged_cell(p, x as int, self.y as int),
                None => !damaged(p, x as int, self.y as int),
            },
    {
        let ghost w = p.size.0;
        let ghost h = p.size.1;
        let ncells = p.cells.len();
        let mut k = self.start;
        let mut base = self.base;
        while k < self.end
            invariant
                shaped(p, w, h),
                w == p.size.0,
                h == p.size.1,
                ncells == p.cells@.len(),
                self.ok(p),
                self.start <= k <= self.end,
                base == offset(p.runs@, k as int),
                forall|j: int| self.start <= j < k ==> !covers(#[trigger] p.runs@[j], x as int, self.y as int),
            decreases self.end - k,
        {
            let r = p.runs[k];
            assert(r.lo <= r.hi);
            if x >= r.lo && x <= r.hi {
                proof {
                    assert(covers(p.runs@[k as int], x as int, self.y as int));
                    lemma_damaged_unique(p, w, h, k as int, x as int, self.y as int);
                    lemma_cell_in_bounds(p, w, h, k as int, x as int);
                }
                return Some(p.cells[base + (x - r.lo) as usize]);
            }
            proof {
                lemma_cell_in_bounds(p, w, h, k as int, r.hi as int);
            }
            base = base + r.len();
            k = k + 1;
        }
        proof {
            assert forall|j: int| 0 <= j < p.runs@.len() implies !#[trigger] covers(p.runs@[j], x as int, self.y as int) by {
                if covers(p.runs@[j], x as int, self.y as int) {
                    self.lemma_only(p, w, h, j);
                }
            }
        }
        None
    }
}

/// The row that begins at run `start`, whose cells begin at `base`.
pub fn next_row(p: &Packet, start: usize, base: usize) -> (r: Row)
    requires
        shaped(p, p.size.0, p.size.1),
        start < p.runs@.len(),
        base == offset(p.runs@, start as int),
        start == 0 || p.runs@[start - 1].y != p.runs@[start as int].y,
    ensures
        r.ok(p),
        r.start == start,
        r.base == base,
        r.y == p.runs@[start as int].y,
{
    let ghost w = p.size.0;
    let ghost h = p.size.1;
    let ncells = p.cells.len();
    let nruns = p.runs.len();
    let y = p.runs[start].y;
    let mut end = start + 1;
    proof {
        lemma_cell_in_bounds(p, w, h, start as int, p.runs@[start as int].hi as int);
    }
    let mut stop = base + p.runs[start].len();
    while end < nruns && p.runs[end].y == y
        invariant
            shaped(p, w, h),
            ncells == p.cells@.len(),
            nruns == p.runs@.len(),
            start < end <= p.runs@.len(),
            stop == offset(p.runs@, end as int),
            forall|k: int| start <= k < end ==> (#[trigger] p.runs@[k]).y == y,
        decreases p.runs@.len() - end,
    {
        proof {
            lemma_cell_in_bounds(p, w, h, end as int, p.runs@[end as int].hi as int);
        }
        stop = stop + p.runs[end].len();
        end = end + 1;
    }
    Row { start, end, base, stop, y }
}

/// The one row `y`, or `None` where this packet damaged nothing on it: a walk from the front.
pub fn find_row(p: &Packet, y: u16) -> (r: Option<Row>)
    requires
        shaped(p, p.size.0, p.size.1),
    ensures
        match r {
            Some(r) => r.ok(p) && r.y == y,
            None => forall|k: int| 0 <= k < p.runs@.len() ==> (#[trigger] p.runs@[k]).y != y,
        },
{
    let ghost w = p.size.0;
    let ghost h = p.size.1;
    let mut start: usize = 0;
    let mut base: usize = 0;
    while start < p.runs.len()
        invariant
            shaped(p, w, h),
            w == p.size.0,
            h == p.size.1,
            start <= p.runs@.len(),
            base == offset(p.runs@, start as int),
            start == 0 || start == p.runs@.len() || p.runs@[start - 1].y != p.runs@[start as int].y,
            forall|k: int| 0 <= k < start ==> (#[trigger] p.runs@[k]).y < y,
        decreases p.runs@.len() - start,
    {
        let r = next_row(p, start, base);
        if r.y == y {
            return Some(r);
        }
        if r.y > y {
            proof {
                assert forall|k: int| 0 <= k < p.runs@.len() implies (#[trigger] p.runs@[k]).y != y by {
                    if k >= start {
                        lemma_rows_ascend(p.runs@, start as int, k);
                    }
                }
            }
            return None;
        }
        proof {
            if r.end < p.runs@.len() {
                lemma_rows_ascend(p.runs@, r.end - 1, r.end as int);
            }
        }
        start = r.end;
        base = r.stop;
    }
    None
}

} // verus!
