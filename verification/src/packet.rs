//! The packet: what crosses from the app thread to the render thread.
//!
//! Damaged runs, and the cells inside them, and nothing else — never the grid. Every handle a
//! packed cell carries is resolved at pack time into a side table the packet owns, keyed by the
//! handle and stamped with the pack's generation, so the render thread holds nothing that points
//! into an engine table and last frame's entries are invisible without being cleared.
use vstd::prelude::*;
use crate::style::{Cell, Color, ExtStyle, GraphemeId, LinkId, Style};
use crate::tables::Tables;

verus! {

/// Append `bytes` to `out`.
pub fn append_bytes(out: &mut Vec<u8>, bytes: &[u8])
    ensures
        final(out)@ == old(out)@ + bytes@,
{
    let mut i: usize = 0;
    while i < bytes.len()
        invariant
            0 <= i <= bytes@.len(),
            out@ == old(out)@ + bytes@.subrange(0, i as int),
        decreases bytes@.len() - i,
    {
        out.push(bytes[i]);
        i = i + 1;
        assert(bytes@.subrange(0, i as int) =~= bytes@.subrange(0, (i - 1) as int).push(bytes@[i - 1]));
    }
    assert(bytes@.subrange(0, bytes@.len() as int) =~= bytes@);
}

/// Two screen dimensions multiply without overflowing a 32-bit `usize`.
pub proof fn lemma_area(x: u16, y: u16, w: u16, h: u16)
    requires
        x < w,
        y < h,
    ensures
        y * w + x < w * h,
        (y + 1) * w <= w * h,
        w * h <= 0xFFFF * 0xFFFF,
        0 <= y * w,
{
    assert(y * w + x < w * h && (y + 1) * w <= w * h && w * h <= 0xFFFF * 0xFFFF && 0 <= y * w) by (nonlinear_arith)
        requires x < w, y < h, w <= 0xFFFF, h <= 0xFFFF;
}

/// A damaged run: the columns `lo..=hi` of row `y`.
#[derive(Clone, Copy, PartialEq, Eq, Debug, Structural)]
pub struct Run {
    pub y: u16,
    pub lo: u16,
    pub hi: u16,
}

impl Run {
    pub fn new(y: u16, lo: u16, hi: u16) -> (r: Run)
        ensures
            r == (Run { y, lo, hi }),
    {
        Run { y, lo, hi }
    }

    pub open spec fn spec_len(self) -> int {
        self.hi - self.lo + 1
    }

    /// How many cells the run covers.
    pub fn len(self) -> (n: usize)
        requires
            self.lo <= self.hi,
        ensures
            n == self.spec_len(),
    {
        (self.hi - self.lo) as usize + 1
    }
}

/// A grid of cells and the tables its handles point into: what a frame is packed from.
pub struct Surface {
    pub width: u16,
    pub height: u16,
    pub cells: Vec<Cell>,
    pub tables: Tables,
}

impl Surface {
    pub open spec fn wf(&self) -> bool {
        self.cells@.len() == self.width as int * self.height as int
    }

    /// A surface of blanks, with tables of its own.
    pub fn new(width: u16, height: u16) -> (s: Surface)
        ensures
            s.wf(),
            s.width == width,
            s.height == height,
            forall|i: int| 0 <= i < s.cells@.len() ==> s.cells@[i] == Cell::spec_blank(),
            s.tables.exts.entries@.len() == 0,
            s.tables.links.uris@.len() == 0,
    {
        proof {
            assert(width * height <= 0xFFFF * 0xFFFF) by (nonlinear_arith)
                requires width <= 0xFFFF, height <= 0xFFFF;
        }
        let n = width as usize * height as usize;
        let mut cells: Vec<Cell> = Vec::new();
        let mut i: usize = 0;
        while i < n
            invariant
                0 <= i <= n,
                cells@.len() == i,
                forall|j: int| 0 <= j < i ==> cells@[j] == Cell::spec_blank(),
            decreases n - i,
        {
            cells.push(Cell::blank());
            i = i + 1;
        }
        Surface { width, height, cells, tables: Tables::new() }
    }

    pub fn size(&self) -> (s: (u16, u16))
        ensures
            s == (self.width, self.height),
    {
        (self.width, self.height)
    }

    /// Row `y`, as a slice.
    pub fn row(&self, y: u16) -> (r: &[Cell])
        requires
            self.wf(),
            y < self.height,
        ensures
            r@ == self.cells@.subrange(y * self.width, (y + 1) * self.width),
    {
        proof {
            assert((y + 1) * self.width <= self.width * self.height && y * self.width <= 0xFFFF * 0xFFFF
                && (y + 1) * self.width == y * self.width + self.width) by (nonlinear_arith)
                requires y < self.height, self.width <= 0xFFFF, self.height <= 0xFFFF;
        }
        let start = y as usize * self.width as usize;
        vstd::slice::slice_subrange(self.cells.as_slice(), start, start + self.width as usize)
    }

    /// The cell at `(x, y)`.
    pub fn cell(&self, x: u16, y: u16) -> (c: Cell)
        requires
            self.wf(),
            x < self.width,
            y < self.height,
        ensures
            c == self.cells@[y * self.width + x],
    {
        proof {
            lemma_area(x, y, self.width, self.height);
        }
        self.cells[y as usize * self.width as usize + x as usize]
    }

    /// Write one cell.
    pub fn set(&mut self, x: u16, y: u16, c: Cell)
        requires
            old(self).wf(),
            x < old(self).width,
            y < old(self).height,
        ensures
            final(self).wf(),
            final(self).width == old(self).width,
            final(self).height == old(self).height,
            final(self).tables == old(self).tables,
            final(self).cells@ == old(self).cells@.update(y * old(self).width + x, c),
    {
        proof {
            lemma_area(x, y, self.width, self.height);
        }
        let i = y as usize * self.width as usize + x as usize;
        self.cells.set(i, c);
    }

    pub fn tables(&self) -> (t: &Tables)
        ensures
            t == &self.tables,
    {
        &self.tables
    }

    pub fn tables_mut(&mut self) -> (t: &mut Tables)
        ensures
            *t == old(self).tables,
            final(self).tables == *final(t),
            final(self).cells == old(self).cells,
            final(self).width == old(self).width,
            final(self).height == old(self).height,
    {
        &mut self.tables
    }
}

/// A side table keyed by the handle, with a generation stamp per slot instead of a clear. A slot
/// stamped with another generation is invisible, and generation zero is never a valid stamp, so a
/// freshly grown slot is empty without being written.
pub struct Marks<T: Copy> {
    pub slots: Vec<(u64, T)>,
    pub blank: T,
}

/// The bytes the ranges marked in generation `g` span, over the first `n` slots.
pub open spec fn marked_bytes(m: Marks<(usize, usize)>, g: u64, n: int) -> int
    decreases n,
{
    if n <= 0 {
        0
    } else {
        marked_bytes(m, g, n - 1) + match m.spec_get(n - 1, g) {
            Some((s, e)) => e - s,
            None => 0,
        }
    }
}

/// Slots past the end mark nothing.
proof fn lemma_marked_beyond(m: Marks<(usize, usize)>, g: u64, n: int)
    requires
        n >= m.slots@.len(),
    ensures
        marked_bytes(m, g, n) == marked_bytes(m, g, m.slots@.len() as int),
    decreases n,
{
    if n > m.slots@.len() {
        lemma_marked_beyond(m, g, n - 1);
    }
}

/// A generation no slot is stamped with marks nothing.
proof fn lemma_marked_none(m: Marks<(usize, usize)>, g: u64, n: int)
    requires
        forall|j: int| #[trigger] m.spec_get(j, g) is None,
    ensures
        marked_bytes(m, g, n) == 0,
    decreases n,
{
    if n > 0 {
        lemma_marked_none(m, g, n - 1);
        assert(m.spec_get(n - 1, g) is None);
    }
}

/// Marking one more slot adds its range, once.
proof fn lemma_marked_set(m0: Marks<(usize, usize)>, m1: Marks<(usize, usize)>, g: u64, at: int, v: (usize, usize), n: int)
    requires
        m0.spec_get(at, g) is None,
        m1.spec_get(at, g) == Some(v),
        forall|j: int| j != at ==> #[trigger] m1.spec_get(j, g) == m0.spec_get(j, g),
    ensures
        marked_bytes(m1, g, n) == marked_bytes(m0, g, n) + if 0 <= at < n { v.1 - v.0 } else { 0 },
    decreases n,
{
    if n > 0 {
        lemma_marked_set(m0, m1, g, at, v, n - 1);
        if n - 1 != at {
            assert(m1.spec_get(n - 1, g) == m0.spec_get(n - 1, g));
        }
    }
}

impl<T: Copy> Marks<T> {
    /// Every slot is stamped with `g` or an earlier generation.
    pub open spec fn stamps_at_most(&self, g: u64) -> bool {
        forall|j: int| 0 <= j < self.slots@.len() ==> #[trigger] self.slots@[j].0 <= g
    }

    /// What slot `at` names in `generation`.
    pub open spec fn spec_get(&self, at: int, generation: u64) -> Option<T> {
        if 0 <= at < self.slots@.len() && self.slots@[at].0 == generation {
            Some(self.slots@[at].1)
        } else {
            None
        }
    }

    pub fn new(blank: T) -> (m: Marks<T>)
        ensures
            m.slots@.len() == 0,
            forall|at: int, g: u64| m.spec_get(at, g) is None,
    {
        Marks { slots: Vec::new(), blank }
    }

    /// What this handle names in this generation, or `None` if this pack has not copied it in.
    pub fn get(&self, at: usize, generation: u64) -> (v: Option<T>)
        ensures
            v == self.spec_get(at as int, generation),
    {
        if at < self.slots.len() {
            let (stamp, value) = self.slots[at];
            if stamp == generation {
                return Some(value);
            }
        }
        None
    }

    /// Record what this handle names, growing to the handle tables' high-water mark.
    pub fn set(&mut self, at: usize, generation: u64, value: T)
        requires
            generation > 0,
        ensures
            final(self).spec_get(at as int, generation) == Some(value),
            forall|g: u64| old(self).stamps_at_most(g) && generation <= g ==> final(self).stamps_at_most(g),
            forall|j: int, g: u64| j != at && g > 0 ==> #[trigger] final(self).spec_get(j, g) == old(self).spec_get(j, g),
            final(self).slots@.len() >= old(self).slots@.len(),
    {
        while self.slots.len() <= at
            invariant
                old(self).slots@.len() <= self.slots@.len(),
                self.slots@.len() > at + 1 ==> self.slots@.len() == old(self).slots@.len(),
                forall|j: int| 0 <= j < old(self).slots@.len() ==> self.slots@[j] == old(self).slots@[j],
                forall|j: int| old(self).slots@.len() <= j < self.slots@.len() ==> self.slots@[j].0 == 0,
            decreases at + 1 - self.slots@.len(),
        {
            self.slots.push((0, self.blank));
        }
        self.slots.set(at, (generation, value));
    }

    /// How many handles this generation copied in.
    pub fn len(&self, generation: u64) -> (n: usize)
        ensures
            n == self.slots@.filter(|s: (u64, T)| s.0 == generation).len(),
    {
        let mut n: usize = 0;
        let mut i: usize = 0;
        while i < self.slots.len()
            invariant
                0 <= i <= self.slots@.len(),
                n == self.slots@.subrange(0, i as int).filter(|s: (u64, T)| s.0 == generation).len(),
                n <= i,
            decreases self.slots@.len() - i,
        {
            proof {
                let f = |s: (u64, T)| s.0 == generation;
                assert(self.slots@.subrange(0, i + 1) =~= self.slots@.subrange(0, i as int).push(self.slots@[i as int]));
                self.slots@.subrange(0, i as int).lemma_filter_push(self.slots@[i as int], f);
            }
            if self.slots[i].0 == generation {
                n = n + 1;
            }
            i = i + 1;
        }
        assert(self.slots@.subrange(0, self.slots@.len() as int) =~= self.slots@);
        n
    }

}

} // verus!

verus! {


/// The bytes of a URI as the table holds it.
pub open spec fn uri_bytes(s: String) -> Seq<u8> {
    vstd::utf8::encode_utf8(s@)
}

/// Whether some cell of `cells` carries extended handle `h`.
pub open spec fn named(cells: Seq<Cell>, h: u64) -> bool {
    exists|i: int| 0 <= i < cells.len() && cells[i].style.extended && cells[i].style.handle == h
}

/// A cell pushed keeps every handle named, and names its own.
pub proof fn lemma_named_push(cells: Seq<Cell>, c: Cell)
    ensures
        forall|h: u64| named(cells, h) ==> #[trigger] named(cells.push(c), h),
        c.style.extended ==> named(cells.push(c), c.style.handle),
{
    assert forall|h: u64| named(cells, h) implies #[trigger] named(cells.push(c), h) by {
        let k = choose|k: int| 0 <= k < cells.len() && cells[k].style.extended && cells[k].style.handle == h;
        assert(cells.push(c)[k] == cells[k]);
    }
    if c.style.extended {
        assert(cells.push(c)[cells.len() as int] == c);
    }
}

/// The cells a list of runs covers, concatenated in run order.
pub open spec fn spec_run_cells(frame: Seq<Cell>, width: u16, runs: Seq<Run>) -> Seq<Cell>
    decreases runs.len(),
{
    if runs.len() == 0 {
        Seq::empty()
    } else {
        let r = runs.last();
        spec_run_cells(frame, width, runs.drop_last()) + frame.subrange(
            r.y * width + r.lo,
            r.y * width + r.hi + 1,
        )
    }
}

/// Whether every run lies inside a `width` x `height` frame, with `lo <= hi`.
pub open spec fn runs_fit(runs: Seq<Run>, width: u16, height: u16) -> bool {
    forall|i: int| 0 <= i < runs.len() ==> {
        &&& (#[trigger] runs[i]).y < height
        &&& runs[i].lo <= runs[i].hi
        &&& runs[i].hi < width
    }
}

/// What a frame has to say to the terminal besides its cells: the mouse tracking level and the
/// caret. Already a delta against what the terminal was last told, and already spelt where the
/// spelling is the terminal's: the bytes that change the tracking mode, set the caret's shape and
/// show or hide it come in with the frame.
#[derive(Debug)]
pub struct Actuation {
    /// The bytes that move mouse tracking to the level this frame wants; empty where it did not
    /// change.
    pub mouse: Vec<u8>,
    /// The bytes that set the caret's shape; empty where it did not change.
    pub shape: Vec<u8>,
    /// Where the caret goes, where it is placed at all.
    pub caret: Option<(u16, u16)>,
    /// Whether the caret went somewhere since the last frame.
    pub moved: bool,
    /// Whether this frame shows or hides the caret, where that changed.
    pub show: Option<bool>,
    /// The bytes that show or hide it; empty where `show` is `None`.
    pub visibility: Vec<u8>,
}

impl Actuation {
    /// Nothing to say: no tracking change and no caret.
    pub fn none() -> (a: Actuation)
        ensures
            a.mouse@.len() == 0,
            a.shape@.len() == 0,
            a.caret is None,
            !a.moved,
            a.show is None,
            a.visibility@.len() == 0,
    {
        Actuation { mouse: Vec::new(), shape: Vec::new(), caret: None, moved: false, show: None, visibility: Vec::new() }
    }
}

/// A snapshot in flight: the damaged runs of a frame together with the cells inside them, and the
/// cluster bytes, extended styles and URIs those cells name.
pub struct Packet {
    pub runs: Vec<Run>,
    pub cells: Vec<Cell>,
    /// So a stale-size packet can be refused on its own.
    pub size: (u16, u16),
    /// Every cluster and URI this packet's cells name, concatenated.
    pub arena: Vec<u8>,
    /// Cluster handle to its `(start, end)` in the arena.
    pub clusters: Marks<(usize, usize)>,
    /// Extended-style handle to the entry.
    pub exts: Marks<ExtStyle>,
    /// Link index to its `(start, end)` in the arena.
    pub links: Marks<(usize, usize)>,
    /// Which pack filled this packet, and the stamp every side table is marked with.
    pub generation: u64,
    /// Set when a sweep renumbered a table since the last packet: invalidate the mirror.
    pub repaint: bool,
    /// What the frame says besides its cells.
    pub actuation: Actuation,
}

impl Packet {
    /// The bytes a cluster handle names in this packet.
    pub open spec fn spec_cluster(&self, g: GraphemeId) -> Option<Seq<u8>> {
        match g {
            GraphemeId::Cluster { id, .. } => match self.clusters.spec_get(id as int, self.generation) {
                Some((s, e)) => Some(self.arena@.subrange(s as int, e as int)),
                None => None,
            },
            _ => None,
        }
    }

    /// The entry an extended handle names in this packet.
    pub open spec fn spec_ext(&self, h: u64) -> Option<ExtStyle> {
        self.exts.spec_get(h as int, self.generation)
    }

    /// The URI a link names in this packet.
    pub open spec fn spec_link(&self, l: LinkId) -> Option<Seq<u8>> {
        if l.id == 0 {
            None
        } else {
            match self.links.spec_get(l.id - 1, self.generation) {
                Some((s, e)) => Some(self.arena@.subrange(s as int, e as int)),
                None => None,
            }
        }
    }

    /// The arena holds each cluster and URI this generation copied in, once: it is exactly as
    /// long as the ranges their slots mark, each counted once.
    pub open spec fn tight(&self) -> bool {
        self.arena@.len() == marked_bytes(self.clusters, self.generation, self.clusters.slots@.len() as int)
            + marked_bytes(self.links, self.generation, self.links.slots@.len() as int)
    }

    /// Every range a side table of this generation holds lies inside the arena, the arena holds
    /// each of them once, and nothing is stamped from a later generation.
    pub open spec fn wf(&self) -> bool {
        &&& self.tight()
        &&& forall|j: int| #[trigger] self.clusters.spec_get(j, self.generation) matches Some((s, e))
            ==> s <= e <= self.arena@.len()
        &&& forall|j: int| #[trigger] self.links.spec_get(j, self.generation) matches Some((s, e))
            ==> s <= e <= self.arena@.len()
        &&& self.clusters.stamps_at_most(self.generation)
        &&& self.exts.stamps_at_most(self.generation)
        &&& self.links.stamps_at_most(self.generation)
    }

    /// Every extended style this packet holds is the table's entry and is named by one of its
    /// cells; every URI and cluster it holds is the table's.
    pub open spec fn sound(&self, tables: &Tables) -> bool {
        let g = self.generation;
        let entries = tables.exts.entries@;
        let uris = tables.links.uris@;
        let clusters = tables.interner.clusters@;
        &&& forall|h: int| #[trigger] self.exts.spec_get(h, g) matches Some(e) ==> {
            &&& 0 <= h < entries.len()
            &&& e == entries[h]
            &&& named(self.cells@, h as u64)
        }
        &&& forall|k: int| #[trigger] self.links.spec_get(k, g) matches Some((s, e)) ==> {
            &&& 0 <= k < uris.len()
            &&& self.arena@.subrange(s as int, e as int) == uri_bytes(uris[k])
            &&& Packet::link_named_by(self.exts, g, k)
        }
        &&& forall|k: int| #[trigger] self.clusters.spec_get(k, g) matches Some((s, e)) ==> {
            &&& 0 <= k < clusters.len()
            &&& self.arena@.subrange(s as int, e as int) == clusters[k]@
        }
    }

    /// Whether an extended style this packet holds names link `k`: a URI is carried only for the
    /// entries that name it.
    pub open spec fn link_named_by(exts: Marks<ExtStyle>, g: u64, k: int) -> bool {
        exists|h: int| #[trigger] exts.spec_get(h, g) matches Some(e) && e.link.id == k + 1
    }

    /// Every extended style this packet holds has its URI with it.
    pub open spec fn links_complete(&self, tables: &Tables) -> bool {
        forall|h: int| #[trigger] self.exts.spec_get(h, self.generation) matches Some(e) ==> (e.link.id
            >= 1 && e.link.id - 1 < tables.links.uris@.len() ==> self.links.spec_get(
            e.link.id - 1,
            self.generation,
        ) is Some)
    }

    /// Whatever this cell names, this packet has resolved.
    pub open spec fn resolved(&self, tables: &Tables, c: Cell) -> bool {
        &&& c.style.extended && c.style.handle < tables.exts.entries@.len() ==> self.exts.spec_get(
            c.style.handle as int,
            self.generation,
        ) is Some
        &&& match c.grapheme {
            GraphemeId::Cluster { id, .. } => id < tables.interner.clusters@.len()
                ==> self.clusters.spec_get(id as int, self.generation) is Some,
            _ => true,
        }
    }

    /// What this packet says about the tables it was packed from: every handle its cells name is
    /// resolved, and nothing it resolved was named by no cell or differs from the table.
    pub open spec fn carries(&self, tables: &Tables) -> bool {
        &&& self.sound(tables)
        &&& self.links_complete(tables)
        &&& forall|i: int| 0 <= i < self.cells@.len() ==> self.resolved(tables, #[trigger] self.cells@[i])
    }

    pub fn new() -> (p: Packet)
        ensures
            p.wf(),
            p.runs@.len() == 0,
            p.cells@.len() == 0,
            p.generation == 0,
            !p.repaint,
            p.actuation.mouse@.len() == 0 && p.actuation.shape@.len() == 0 && p.actuation.caret is None
                && !p.actuation.moved && p.actuation.show is None && p.actuation.visibility@.len() == 0,
    {
        let blank = ExtStyle { fg: Color::Default, bg: Color::Default, ul: Color::Default, link: LinkId::none() };
        Packet {
            runs: Vec::new(),
            cells: Vec::new(),
            size: (0, 0),
            arena: Vec::new(),
            clusters: Marks::new((0, 0)),
            exts: Marks::new(blank),
            links: Marks::new((0, 0)),
            generation: 0,
            repaint: false,
            actuation: Actuation::none(),
        }
    }

    /// Fill this packet from a frame's damaged runs, reusing whatever capacity it already has. The
    /// side tables are not cleared: a generation never used before is what makes last frame's
    /// entries invisible. Each extended entry has one slot per handle, and each cluster and URI is
    /// copied into the arena once however many cells name it: the arena is exactly as long as the
    /// ranges this generation marks (`tight`, part of `wf`).
    pub fn pack(&mut self, runs: &[Run], frame: &Surface, tables: &Tables, repaint: bool, actuation: Actuation,
        generation: u64)
        requires
            old(self).wf(),
            generation > old(self).generation,
            frame.wf(),
            runs_fit(runs@, frame.width, frame.height),
        ensures
            final(self).wf(),
            final(self).runs@ == runs@,
            final(self).cells@ == spec_run_cells(frame.cells@, frame.width, runs@),
            final(self).size == (frame.width, frame.height),
            final(self).generation == generation,
            final(self).repaint == repaint,
            final(self).actuation == actuation,
            final(self).carries(tables),
    {
        self.repaint = repaint;
        self.generation = generation;
        self.runs.clear();
        self.cells.clear();
        self.arena.clear();
        self.size = frame.size();
        assert(forall|j: int, g: u64| g == generation ==> self.clusters.spec_get(j, g) is None);
        assert(forall|j: int, g: u64| g == generation ==> self.links.spec_get(j, g) is None);
        assert(forall|j: int, g: u64| g == generation ==> self.exts.spec_get(j, g) is None);
        proof {
            lemma_marked_none(self.clusters, generation, self.clusters.slots@.len() as int);
            lemma_marked_none(self.links, generation, self.links.slots@.len() as int);
        }
        let mut k: usize = 0;
        while k < runs.len()
            invariant
                0 <= k <= runs@.len(),
                self.runs@ == runs@.subrange(0, k as int),
                self.cells@.len() == 0,
                self.generation == generation,
                self.repaint == repaint,
                self.size == (frame.width, frame.height),
                self.arena@.len() == 0,
                self.clusters == old(self).clusters,
                self.exts == old(self).exts,
                self.links == old(self).links,
            decreases runs@.len() - k,
        {
            self.runs.push(runs[k]);
            k = k + 1;
            assert(self.runs@ =~= runs@.subrange(0, k as int));
        }
        assert(runs@.subrange(0, runs@.len() as int) =~= runs@);
        let mut i: usize = 0;
        while i < runs.len()
            invariant
                0 <= i <= runs@.len(),
                frame.wf(),
                runs_fit(runs@, frame.width, frame.height),
                self.generation == generation,
                generation > 0,
                self.repaint == repaint,
                self.size == (frame.width, frame.height),
                self.runs@ == runs@,
                self.cells@ == spec_run_cells(frame.cells@, frame.width, runs@.subrange(0, i as int)),
                self.wf(),
                self.carries(tables),
            decreases runs@.len() - i,
        {
            let r = runs[i];
            let ghost before = self.cells@;
            let mut x = r.lo;
            proof {
                lemma_area(r.lo, r.y, frame.width, frame.height);
                lemma_area(r.hi, r.y, frame.width, frame.height);
            }
            assert(before + frame.cells@.subrange(r.y * frame.width + r.lo, r.y * frame.width + r.lo) =~= before);
            while x <= r.hi
                invariant
                    i < runs@.len(),
                    r == runs@[i as int],
                    runs_fit(runs@, frame.width, frame.height),
                    self.runs@ == runs@,
                    self.repaint == repaint,
                    self.size == (frame.width, frame.height),
                    r.lo <= x <= r.hi + 1,
                    r.y < frame.height,
                    r.hi < frame.width,
                    frame.wf(),
                    self.generation == generation,
                    generation > 0,
                    self.cells@ == before + frame.cells@.subrange(r.y * frame.width + r.lo, r.y * frame.width + x),
                    self.wf(),
                    self.carries(tables),
                decreases r.hi + 1 - x,
            {
                let cell = frame.cell(x, r.y);
                let ghost prev_cells = self.cells@;
                self.cells.push(cell);
                proof {
                    lemma_named_push(prev_cells, cell);
                    lemma_area(x, r.y, frame.width, frame.height);
                    assert(frame.cells@.subrange(r.y * frame.width + r.lo, r.y * frame.width + x + 1)
                        =~= frame.cells@.subrange(r.y * frame.width + r.lo, r.y * frame.width + x).push(cell));
                    assert(self.cells@.last() == cell);
                }
                self.resolve(cell.grapheme, tables);
                self.resolve_style(cell.style, tables);
                proof {
                    assert forall|j: int| 0 <= j < self.cells@.len() implies self.resolved(tables, #[trigger] self.cells@[j]) by {
                        if j < self.cells@.len() - 1 {
                        }
                    }
                }
                x = x + 1;
            }
            proof {
                assert(self.cells@ =~= spec_run_cells(frame.cells@, frame.width, runs@.subrange(0, i as int)) + frame.cells@.subrange(r.y * frame.width + r.lo, r.y * frame.width + r.hi + 1));
                assert(runs@.subrange(0, i + 1).drop_last() =~= runs@.subrange(0, i as int));
                assert(runs@.subrange(0, i + 1).last() == r);
            }
            i = i + 1;
        }
        assert(runs@.subrange(0, runs@.len() as int) =~= runs@);
        assert(self.runs@ =~= runs@);
        self.actuation = actuation;
    }


    /// Copy the bytes of a cluster handle into this packet, once per pack per handle. A scalar
    /// handle names its own bytes and needs no table.
    fn resolve(&mut self, g: GraphemeId, tables: &Tables)
        requires
            old(self).wf(),
            old(self).sound(tables),
            old(self).links_complete(tables),
            old(self).generation > 0,
        ensures
            final(self).wf(),
            final(self).sound(tables),
            final(self).links_complete(tables),
            final(self).cells == old(self).cells,
            final(self).runs == old(self).runs,
            final(self).size == old(self).size,
            final(self).generation == old(self).generation,
            final(self).repaint == old(self).repaint,
            final(self).exts == old(self).exts,
            final(self).links == old(self).links,
            forall|k: int| old(self).clusters.spec_get(k, old(self).generation) is Some
                ==> #[trigger] final(self).clusters.spec_get(k, old(self).generation) is Some,
            match g {
                GraphemeId::Cluster { id, .. } => id < tables.interner.clusters@.len()
                    ==> final(self).clusters.spec_get(id as int, final(self).generation) is Some,
                _ => true,
            },
    {
        let id = match g.cluster_id() {
            Some(id) => id,
            None => return,
        };
        let at = id as usize;
        if self.clusters.get(at, self.generation).is_some() {
            return;
        }
        let text = match tables.interner.cluster(id) {
            Some(t) => t,
            None => return,
        };
        let start = self.arena.len();
        let ghost old_arena = self.arena@;
        append_bytes(&mut self.arena, text);
        let end = self.arena.len();
        proof {
            assert(self.arena@.subrange(start as int, end as int) =~= text@);
            assert forall|s: int, e: int| 0 <= s <= e <= old_arena.len() implies #[trigger] self.arena@.subrange(s, e) == old_arena.subrange(s, e) by {
                assert(self.arena@.subrange(s, e) =~= old_arena.subrange(s, e));
            }
        }
        let ghost c0 = self.clusters;
        self.clusters.set(at, self.generation, (start, end));
        proof {
            let g = self.generation;
            lemma_marked_set(c0, self.clusters, g, at as int, (start, end), self.clusters.slots@.len() as int);
            lemma_marked_beyond(c0, g, self.clusters.slots@.len() as int);
        }
    }

    /// Copy one extended style, and the URI it names, into this packet. An inline word carries its
    /// own colours and needs no table.
    fn resolve_style(&mut self, style: Style, tables: &Tables)
        requires
            old(self).wf(),
            old(self).sound(tables),
            old(self).links_complete(tables),
            old(self).generation > 0,
            style.extended ==> named(old(self).cells@, style.handle),
        ensures
            final(self).wf(),
            final(self).sound(tables),
            final(self).links_complete(tables),
            final(self).cells == old(self).cells,
            final(self).runs == old(self).runs,
            final(self).size == old(self).size,
            final(self).generation == old(self).generation,
            final(self).repaint == old(self).repaint,
            forall|k: int| old(self).clusters.spec_get(k, old(self).generation) is Some
                ==> #[trigger] final(self).clusters.spec_get(k, old(self).generation) is Some,
            forall|h: int| old(self).exts.spec_get(h, old(self).generation) is Some
                ==> #[trigger] final(self).exts.spec_get(h, old(self).generation) is Some,
            style.extended && style.handle < tables.exts.entries@.len() ==> final(self).exts.spec_get(
                style.handle as int,
                final(self).generation,
            ) is Some,
    {
        let h = match style.ext_handle() {
            Some(h) => h,
            None => return,
        };
        let n = tables.exts.len();
        let e = match tables.exts.get(h) {
            Some(e) => e,
            None => return,
        };
        let at = h as usize;
        if self.exts.get(at, self.generation).is_some() {
            return;
        }
        let ghost ex0 = self.exts;
        self.exts.set(at, self.generation, e);
        proof {
            let g = self.generation;
            assert forall|k: int| #[trigger] self.links.spec_get(k, g) is Some implies Packet::link_named_by(self.exts, g, k) by {
                assert(Packet::link_named_by(ex0, g, k));
                let w = choose|w: int| #[trigger] ex0.spec_get(w, g) matches Some(e2) && e2.link.id == k + 1;
                assert(w != at);
                assert(self.exts.spec_get(w, g) == ex0.spec_get(w, g));
            }
        }
        let link = match e.link.index() {
            Some(link) => link,
            None => return,
        };
        if self.links.get(link, self.generation).is_some() {
            return;
        }
        let uri = match tables.links.uri(e.link) {
            Some(uri) => uri,
            None => return,
        };
        let bytes = uri.as_bytes();
        let start = self.arena.len();
        let ghost old_arena = self.arena@;
        append_bytes(&mut self.arena, bytes);
        let end = self.arena.len();
        proof {
            assert(self.arena@.subrange(start as int, end as int) =~= bytes@);
            assert forall|s: int, e: int| 0 <= s <= e <= old_arena.len() implies #[trigger] self.arena@.subrange(s, e) == old_arena.subrange(s, e) by {
                assert(self.arena@.subrange(s, e) =~= old_arena.subrange(s, e));
            }
        }
        let ghost ln0 = self.links;
        self.links.set(link, self.generation, (start, end));
        proof {
            let g = self.generation;
            lemma_marked_set(ln0, self.links, g, link as int, (start, end), self.links.slots@.len() as int);
            lemma_marked_beyond(ln0, g, self.links.slots@.len() as int);
            assert(self.exts.spec_get(at as int, g) == Some(e));
            assert forall|k: int| #[trigger] self.links.spec_get(k, g) is Some implies Packet::link_named_by(self.exts, g, k) by {
                if k == link {
                    assert(self.exts.spec_get(at as int, g) matches Some(e2) && e2.link.id == k + 1);
                } else {
                    assert(self.links.spec_get(k, g) == ln0.spec_get(k, g));
                }
            }
        }
    }

    /// The same fill, for a caller with nothing to say to the terminal besides the cells.
    pub fn pack_cells(&mut self, runs: &[Run], frame: &Surface, tables: &Tables, repaint: bool, generation: u64)
        requires
            old(self).wf(),
            generation > old(self).generation,
            frame.wf(),
            runs_fit(runs@, frame.width, frame.height),
        ensures
            final(self).wf(),
            final(self).runs@ == runs@,
            final(self).cells@ == spec_run_cells(frame.cells@, frame.width, runs@),
            final(self).size == (frame.width, frame.height),
            final(self).generation == generation,
            final(self).repaint == repaint,
            final(self).actuation.mouse@.len() == 0 && final(self).actuation.shape@.len() == 0
                && final(self).actuation.caret is None && !final(self).actuation.moved
                && final(self).actuation.show is None && final(self).actuation.visibility@.len() == 0,
            final(self).carries(tables),
    {
        self.pack(runs, frame, tables, repaint, Actuation::none(), generation)
    }

    /// The bytes a handle names, for a handle that names a cluster. `None` for a scalar, which
    /// names its own.
    pub fn cluster(&self, g: GraphemeId) -> (b: Option<&[u8]>)
        requires
            self.wf(),
        ensures
            match b {
                Some(b) => self.spec_cluster(g) == Some(b@),
                None => self.spec_cluster(g) is None,
            },
    {
        let id = match g.cluster_id() {
            Some(id) => id,
            None => return None,
        };
        match self.clusters.get(id as usize, self.generation) {
            Some((start, end)) => Some(vstd::slice::slice_subrange(self.arena.as_slice(), start, end)),
            None => None,
        }
    }

    /// The four channels an extended handle names. `None` for a handle no cell in this packet
    /// carried.
    pub fn ext(&self, handle: u64) -> (e: Option<ExtStyle>)
        ensures
            e == self.spec_ext(handle),
    {
        let n = self.exts.slots.len();
        if handle >= n as u64 {
            return None;
        }
        self.exts.get(handle as usize, self.generation)
    }

    /// The URI a hyperlink names. `None` for no link.
    pub fn link(&self, id: LinkId) -> (b: Option<&[u8]>)
        requires
            self.wf(),
        ensures
            match b {
                Some(b) => self.spec_link(id) == Some(b@),
                None => self.spec_link(id) is None,
            },
    {
        let k = match id.index() {
            Some(k) => k,
            None => return None,
        };
        match self.links.get(k, self.generation) {
            Some((start, end)) => Some(vstd::slice::slice_subrange(self.arena.as_slice(), start, end)),
            None => None,
        }
    }

    /// Which pack filled this packet.
    /// What the frame says besides its cells.
    pub fn actuation(&self) -> (a: &Actuation)
        ensures
            *a == self.actuation,
    {
        &self.actuation
    }

    pub fn generation(&self) -> (g: u64)
        ensures
            g == self.generation,
    {
        self.generation
    }

    /// Whether the mirror has to be thrown away before this packet is read.
    pub fn repaint(&self) -> (b: bool)
        ensures
            b == self.repaint,
    {
        self.repaint
    }

    /// Whether this packet carries no cells.
    pub fn is_empty(&self) -> (b: bool)
        ensures
            b == (self.runs@.len() == 0),
    {
        self.runs.len() == 0
    }

    pub fn runs(&self) -> (r: &[Run])
        ensures
            r@ == self.runs@,
    {
        self.runs.as_slice()
    }

    pub fn cells(&self) -> (c: &[Cell])
        ensures
            c@ == self.cells@,
    {
        self.cells.as_slice()
    }

    pub fn size(&self) -> (s: (u16, u16))
        ensures
            s == self.size,
    {
        self.size
    }
}

} // verus!
