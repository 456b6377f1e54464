//! Bytes on the wire: the mirror, the emit loop, the equality filter with its gap merge, the
//! shortest cursor encoding, and the scroll region verified before a byte is emitted.
use vstd::prelude::*;
use crate::caps::Capabilities;
use crate::packet::{append_bytes, Actuation, Packet, Run};
use crate::quant::Quantiser;
use crate::rows::{covers, damaged, damaged_cell, find_row, narrowed, next_row, shaped, Row};
use crate::style::{Cell, GraphemeId, LinkId, Style};
use crate::wire::{self, decimal, push_num};

verus! {

/// A row of `w` copies of `c`.
pub open spec fn filled(w: nat, c: Cell) -> Seq<Cell> {
    Seq::new(w, |i: int| c)
}

fn fill_row(w: u16, c: Cell) -> (row: Vec<Cell>)
    ensures
        row@ == filled(w as nat, c),
{
    let mut row: Vec<Cell> = Vec::new();
    let mut i: u16 = 0;
    while i < w
        invariant
            0 <= i <= w,
            row@ == filled(i as nat, c),
        decreases w - i,
    {
        row.push(c);
        i = i + 1;
        assert(row@ =~= filled(i as nat, c));
    }
    row
}

fn copy_row(src: &Vec<Cell>) -> (row: Vec<Cell>)
    ensures
        row@ == src@,
{
    let mut row: Vec<Cell> = Vec::new();
    let mut i: usize = 0;
    while i < src.len()
        invariant
            0 <= i <= src@.len(),
            row@ == src@.subrange(0, i as int),
        decreases src@.len() - i,
    {
        row.push(src[i]);
        i = i + 1;
        assert(row@ =~= src@.subrange(0, i as int));
    }
    assert(src@.subrange(0, src@.len() as int) =~= src@);
    row
}

/// What the terminal is currently showing, as far as this serializer knows: a cell it does not
/// know is [`Cell::unknown`], which no composited frame cell can equal.
pub struct Mirror {
    pub width: u16,
    pub height: u16,
    pub rows: Vec<Vec<Cell>>,
}

impl Mirror {
    pub open spec fn wf(&self) -> bool {
        &&& self.rows@.len() == self.height
        &&& forall|y: int| 0 <= y < self.height ==> (#[trigger] self.rows@[y])@.len() == self.width
    }

    /// The cell the mirror holds at `(x, y)`.
    pub open spec fn at(&self, x: int, y: int) -> Cell {
        self.rows@[y]@[x]
    }

    /// A mirror that knows nothing: a terminal at startup shows whatever it was showing.
    pub fn new(width: u16, height: u16) -> (m: Mirror)
        ensures
            m.wf(),
            m.width == width,
            m.height == height,
            forall|x: int, y: int| 0 <= x < width && 0 <= y < height ==> m.at(x, y) == Cell::spec_unknown(),
    {
        let mut rows: Vec<Vec<Cell>> = Vec::new();
        let mut y: u16 = 0;
        while y < height
            invariant
                0 <= y <= height,
                rows@.len() == y,
                forall|k: int| 0 <= k < y ==> (#[trigger] rows@[k])@ == filled(width as nat, Cell::spec_unknown()),
            decreases height - y,
        {
            rows.push(fill_row(width, Cell::unknown()));
            y = y + 1;
        }
        Mirror { width, height, rows }
    }

    /// What the terminal is showing at `(x, y)`, or the unknown cell.
    pub fn cell(&self, x: u16, y: u16) -> (c: Cell)
        requires
            self.wf(),
            x < self.width,
            y < self.height,
        ensures
            c == self.at(x as int, y as int),
    {
        self.rows[y as usize][x as usize]
    }

    /// What the terminal is showing at `(x, y)`, or `None` where this mirror does not know.
    pub fn known_cell(&self, x: u16, y: u16) -> (c: Option<Cell>)
        requires
            self.wf(),
            x < self.width,
            y < self.height,
        ensures
            self.at(x as int, y as int) == Cell::spec_unknown() ==> c is None,
            self.at(x as int, y as int) != Cell::spec_unknown() ==> c == Some(self.at(x as int, y as int)),
    {
        let cell = self.cell(x, y);
        if cell == Cell::unknown() {
            None
        } else {
            Some(cell)
        }
    }

    /// Whether every cell of row `y` records what the terminal is showing.
    pub fn is_known(&self, y: u16) -> (b: bool)
        requires
            self.wf(),
            y < self.height,
        ensures
            b == forall|x: int| 0 <= x < self.width ==> self.at(x, y as int) != Cell::spec_unknown(),
    {
        let row = &self.rows[y as usize];
        let mut x: usize = 0;
        while x < row.len()
            invariant
                0 <= x <= row@.len(),
                row@ == self.rows@[y as int]@,
                row@.len() == self.width,
                forall|k: int| 0 <= k < x ==> row@[k] != Cell::spec_unknown(),
            decreases row@.len() - x,
        {
            if row[x] == Cell::unknown() {
                assert(self.at(x as int, y as int) == Cell::spec_unknown());
                return false;
            }
            x = x + 1;
        }
        true
    }

    /// The columns `lo..hi` of row `y`.
    pub fn span(&self, y: u16, lo: u16, hi: u16) -> (s: &[Cell])
        requires
            self.wf(),
            y < self.height,
            lo <= hi <= self.width,
        ensures
            s@ == self.rows@[y as int]@.subrange(lo as int, hi as int),
    {
        vstd::slice::slice_subrange(self.rows[y as usize].as_slice(), lo as usize, hi as usize)
    }

    /// Forget the whole screen.
    pub fn forget(&mut self)
        requires
            old(self).wf(),
        ensures
            final(self).wf(),
            final(self).width == old(self).width,
            final(self).height == old(self).height,
            forall|x: int, y: int| 0 <= x < final(self).width && 0 <= y < final(self).height
                ==> final(self).at(x, y) == Cell::spec_unknown(),
    {
        let mut y: usize = 0;
        while y < self.rows.len()
            invariant
                0 <= y <= self.rows@.len(),
                self.rows@.len() == self.height,
                self.width == old(self).width,
                self.height == old(self).height,
                forall|k: int| 0 <= k < self.height ==> (#[trigger] self.rows@[k])@.len() == self.width,
                forall|k: int| 0 <= k < y ==> (#[trigger] self.rows@[k])@ == filled(self.width as nat, Cell::spec_unknown()),
            decreases self.rows@.len() - y,
        {
            let row = fill_row(self.width, Cell::unknown());
            self.rows.set(y, row);
            y = y + 1;
        }
    }

    /// Record that the terminal now shows `c` at `(x, y)`.
    pub fn set(&mut self, x: u16, y: u16, c: Cell)
        requires
            old(self).wf(),
            x < old(self).width,
            y < old(self).height,
        ensures
            final(self).wf(),
            final(self).width == old(self).width,
            final(self).height == old(self).height,
            final(self).at(x as int, y as int) == c,
            forall|i: int, j: int| 0 <= i < old(self).width && 0 <= j < old(self).height && !(i == x && j == y)
                ==> #[trigger] final(self).at(i, j) == old(self).at(i, j),
            forall|j: int| 0 <= j < old(self).height && j != y ==> #[trigger] final(self).rows@[j] == old(self).rows@[j],
    {
        self.rows[y as usize].set(x as usize, c);
    }

    /// Move the rows of the band the way `SU`/`SD` is about to move them on the terminal, and
    /// record the rows it exposes as blank — whole, because the terminal erases every column.
    pub fn scroll(&mut self, s: Scroll)
        requires
            old(self).wf(),
            s.valid(old(self).height),
        ensures
            final(self).wf(),
            final(self).width == old(self).width,
            final(self).height == old(self).height,
            forall|y: int| 0 <= y < old(self).height ==> (#[trigger] final(self).rows@[y])@ == if s.spec_moves(y) {
                old(self).rows@[s.spec_source(y)]@
            } else if s.spec_exposes(y) {
                filled(old(self).width as nat, Cell::spec_blank())
            } else {
                old(self).rows@[y]@
            },
    {
        let (lo, hi) = s.moved();
        if s.up {
            let mut y = lo;
            while y <= hi
                invariant
                    s.valid(old(self).height),
                    (lo, hi) == s.spec_moved(),
                    s.up,
                    lo <= y <= hi + 1,
                    self.wf(),
                    self.width == old(self).width,
                    self.height == old(self).height,
                    forall|k: int| lo <= k < y ==> (#[trigger] self.rows@[k])@ == old(self).rows@[k + s.by]@,
                    forall|k: int| 0 <= k < self.height && !(lo <= k < y) ==> (#[trigger] self.rows@[k])@ == old(self).rows@[k]@,
                decreases hi + 1 - y,
            {
                let row = copy_row(&self.rows[s.source(y) as usize]);
                self.rows.set(y as usize, row);
                y = y + 1;
            }
        } else {
            let mut y = hi + 1;
            while y > lo
                invariant
                    s.valid(old(self).height),
                    (lo, hi) == s.spec_moved(),
                    !s.up,
                    lo <= y <= hi + 1,
                    self.wf(),
                    self.width == old(self).width,
                    self.height == old(self).height,
                    forall|k: int| y <= k <= hi ==> (#[trigger] self.rows@[k])@ == old(self).rows@[k - s.by]@,
                    forall|k: int| 0 <= k < self.height && !(y <= k <= hi) ==> (#[trigger] self.rows@[k])@ == old(self).rows@[k]@,
                decreases y - lo,
            {
                y = y - 1;
                let row = copy_row(&self.rows[s.source(y) as usize]);
                self.rows.set(y as usize, row);
            }
        }
        let (elo, ehi) = s.exposed();
        let ghost moved_rows = self.rows@;
        let mut y = elo;
        while y <= ehi
            invariant
                s.valid(old(self).height),
                (elo, ehi) == s.spec_exposed(),
                elo <= y <= ehi + 1,
                self.wf(),
                self.width == old(self).width,
                self.height == old(self).height,
                forall|k: int| elo <= k < y ==> (#[trigger] self.rows@[k])@ == filled(self.width as nat, Cell::spec_blank()),
                forall|k: int| 0 <= k < self.height && !(elo <= k < y) ==> (#[trigger] self.rows@[k]) == moved_rows[k],
            decreases ehi + 1 - y,
        {
            let row = fill_row(self.width, Cell::blank());
            self.rows.set(y as usize, row);
            y = y + 1;
        }
    }
}

/// A candidate scroll: the band, the direction and the distance.
#[derive(Clone, Copy, Debug)]
pub struct Scroll {
    /// The first and last rows of the band, inclusive.
    pub band: (u16, u16),
    /// `SU`: content moves toward the top of the band and its bottom is exposed.
    pub up: bool,
    /// Rows: at least one, and fewer than the band's height.
    pub by: u16,
}

impl Scroll {
    /// A scroll of at least one row and fewer rows than its band, inside a screen `height` tall.
    pub open spec fn valid(self, height: u16) -> bool {
        &&& self.band.0 <= self.band.1 < height
        &&& 1 <= self.by <= self.band.1 - self.band.0
    }

    pub open spec fn spec_moved(self) -> (u16, u16) {
        let (top, bot) = self.band;
        if self.up {
            (top, (bot - self.by) as u16)
        } else {
            ((top + self.by) as u16, bot)
        }
    }

    pub open spec fn spec_exposed(self) -> (u16, u16) {
        let (top, bot) = self.band;
        if self.up {
            ((bot - (self.by - 1)) as u16, bot)
        } else {
            (top, (top + self.by - 1) as u16)
        }
    }

    pub open spec fn spec_moves(self, y: int) -> bool {
        self.spec_moved().0 <= y <= self.spec_moved().1
    }

    pub open spec fn spec_exposes(self, y: int) -> bool {
        self.spec_exposed().0 <= y <= self.spec_exposed().1
    }

    pub open spec fn spec_source(self, y: int) -> int {
        if self.up {
            y + self.by
        } else {
            y - self.by
        }
    }

    /// The rows the scroll moves, inclusive.
    pub fn moved(self) -> (r: (u16, u16))
        requires
            self.band.0 <= self.band.1,
            1 <= self.by <= self.band.1 - self.band.0,
        ensures
            r == self.spec_moved(),
    {
        let (top, bot) = self.band;
        if self.up {
            (top, bot - self.by)
        } else {
            (top + self.by, bot)
        }
    }

    /// The rows the scroll exposes for the terminal to erase, inclusive.
    pub fn exposed(self) -> (r: (u16, u16))
        requires
            self.band.0 <= self.band.1,
            1 <= self.by <= self.band.1 - self.band.0,
        ensures
            r == self.spec_exposed(),
    {
        let (top, bot) = self.band;
        if self.up {
            (bot - (self.by - 1), bot)
        } else {
            (top, top + self.by - 1)
        }
    }

    /// The row `y` is about to hold what this row holds now.
    pub fn source(self, y: u16) -> (s: u16)
        requires
            self.band.0 <= self.band.1,
            1 <= self.by <= self.band.1 - self.band.0,
            self.spec_moves(y as int),
        ensures
            s == self.spec_source(y as int),
    {
        if self.up {
            y + self.by
        } else {
            y - self.by
        }
    }
}

/// `CSI ? 2026 h`: the terminal holds the frame back until the block closes.
pub open spec fn sync_begin() -> Seq<u8> {
    seq![27u8, 91u8, 63u8, 50u8, 48u8, 50u8, 54u8, 104u8]
}

/// `CSI ? 2026 l`, which is what makes the frame appear at once.
pub open spec fn sync_end() -> Seq<u8> {
    seq![27u8, 91u8, 63u8, 50u8, 48u8, 50u8, 54u8, 108u8]
}

/// What every frame that has anything to say opens with: mode 2026 where the terminal has it,
/// then SGR 0.
pub open spec fn frame_prefix(sync: bool) -> Seq<u8> {
    (if sync { sync_begin() } else { Seq::empty() }) + seq![27u8, 91u8, 48u8, 109u8]
}

fn push_sync(out: &mut Vec<u8>, end: bool)
    ensures
        final(out)@ == old(out)@ + if end { sync_end() } else { sync_begin() },
{
    let ghost start = out@;
    out.push(27u8);
    out.push(91u8);
    out.push(63u8);
    out.push(50u8);
    out.push(48u8);
    out.push(50u8);
    out.push(54u8);
    out.push(if end { 108u8 } else { 104u8 });
    assert(out@ =~= start + if end { sync_end() } else { sync_begin() });
}

/// Which of the five cursor encodings a move is spelled with. `CUB` is absent on purpose: runs are
/// disjoint and ascending, so nothing ever moves left except to column zero, which `CR` spells in
/// one byte.
#[derive(Clone, Copy, PartialEq, Eq, Debug, Structural)]
pub enum Move {
    /// `CSI y;x H`.
    Cup,
    /// `CSI x G`: absolute column, same row.
    Cha,
    /// `CSI n C`: relative, and refused after a non-ASCII cluster on this row.
    Cuf(u16),
    /// `\r`.
    Cr,
    /// `\r` where needed, then one `\n` per row.
    Feed,
}

/// The digits a parameter costs when a value of one may be left out.
pub open spec fn omit_len(n: nat) -> nat {
    if n == 1 {
        0
    } else {
        decimal(n).len()
    }
}

/// `CUP`'s price: `CSI`, two numbers, `;` and `H`.
pub open spec fn cup_cost(x: u16, y: u16) -> nat {
    4 + decimal(y as nat + 1).len() + decimal(x as nat + 1).len()
}

/// Every candidate a move from `cursor` to `(x, y)` may be spelled with, in the order they are
/// tried; `None` where a candidate does not apply.
pub open spec fn candidates(cursor: (u16, u16), non_ascii: bool, x: u16, y: u16) -> Seq<Option<(Move, nat)>> {
    let (cx, cy) = cursor;
    let same_row = y == cy;
    seq![
        if same_row && x == 0 { Some((Move::Cr, 1nat)) } else { None },
        if same_row { Some((Move::Cha, 3 + omit_len(x as nat + 1))) } else { None },
        if same_row && x > cx && !non_ascii {
            Some((Move::Cuf((x - cx) as u16), 3 + omit_len((x - cx) as nat)))
        } else {
            None
        },
        if !same_row && x == 0 && y > cy {
            Some((Move::Feed, (if cx != 0 { 1nat } else { 0nat }) + (y - cy) as nat))
        } else {
            None
        },
    ]
}

/// The cheapest of the first `n` candidates, starting from `best`; a tie keeps the earlier one.
pub open spec fn cheapest(cands: Seq<Option<(Move, nat)>>, n: int, best: (Move, nat)) -> (Move, nat)
    decreases n,
{
    if n <= 0 {
        best
    } else {
        let b = cheapest(cands, n - 1, best);
        match cands[n - 1] {
            Some(c) => if c.1 < b.1 { c } else { b },
            None => b,
        }
    }
}

/// The spelling and price of a move to `(x, y)`: `CUP` where the cursor is unknown, and otherwise
/// the cheapest candidate, `CUP` winning ties.
pub open spec fn spec_price_move(cursor: Option<(u16, u16)>, non_ascii: bool, x: u16, y: u16) -> (Move, nat) {
    match cursor {
        None => (Move::Cup, cup_cost(x, y)),
        Some(c) => cheapest(candidates(c, non_ascii, x, y), 4, (Move::Cup, cup_cost(x, y))),
    }
}

/// `n` line feeds.
pub open spec fn feeds(n: nat) -> Seq<u8> {
    Seq::new(n, |i: int| 10u8)
}

/// The bytes a move is spelled with.
pub open spec fn move_bytes(m: Move, cursor: Option<(u16, u16)>, x: u16, y: u16) -> Seq<u8> {
    match m {
        Move::Cup => seq![27u8, 91u8] + decimal(y as nat + 1) + seq![59u8] + decimal(x as nat + 1)
            + seq![72u8],
        Move::Cha => seq![27u8, 91u8] + (if x > 0 { decimal(x as nat + 1) } else { Seq::empty() })
            + seq![71u8],
        Move::Cuf(by) => seq![27u8, 91u8] + (if by > 1 { decimal(by as nat) } else { Seq::empty() })
            + seq![67u8],
        Move::Cr => seq![13u8],
        Move::Feed => match cursor {
            Some((cx, cy)) => (if cx != 0 { seq![13u8] } else { Seq::empty() }) + feeds((y - cy) as nat),
            None => Seq::empty(),
        },
    }
}

/// `n` line feeds onto the buffer.
fn push_feeds(out: &mut Vec<u8>, n: u16)
    ensures
        final(out)@ == old(out)@ + feeds(n as nat),
{
    let ghost start = out@;
    let mut i: u16 = 0;
    while i < n
        invariant
            i <= n,
            out@ == start + feeds(i as nat),
        decreases n - i,
    {
        out.push(10u8);
        i = i + 1;
        assert(out@ =~= start + feeds(i as nat));
    }
}

/// What the winning candidate says about the move: `CUF` only forwards along the row and never
/// after a non-ASCII cluster on it, `CR` and `CHA` only on the row, feeds only downwards into
/// column zero.
pub proof fn lemma_chosen(c: (u16, u16), non_ascii: bool, x: u16, y: u16)
    ensures
        spec_price_move(Some(c), non_ascii, x, y).0 matches Move::Feed ==> x == 0 && y > c.1,
        spec_price_move(Some(c), non_ascii, x, y).0 matches Move::Cuf(by) ==> by == x - c.0 && x > c.0
            && y == c.1 && !non_ascii,
        spec_price_move(Some(c), non_ascii, x, y).0 matches Move::Cha ==> y == c.1,
        spec_price_move(Some(c), non_ascii, x, y).0 matches Move::Cr ==> y == c.1 && x == 0,
{
    let cands = candidates(c, non_ascii, x, y);
    let base = (Move::Cup, cup_cost(x, y));
    let b0 = cheapest(cands, 0, base);
    let b1 = cheapest(cands, 1, base);
    let b2 = cheapest(cands, 2, base);
    let b3 = cheapest(cands, 3, base);
    let b4 = cheapest(cands, 4, base);
}

/// **Each encoding is used where it is the cheapest**: the move chosen costs no more than `CUP`
/// and no more than any candidate that applies, and where the cursor is unknown it is `CUP`.
pub proof fn lemma_shortest(cursor: Option<(u16, u16)>, non_ascii: bool, x: u16, y: u16)
    ensures
        spec_price_move(cursor, non_ascii, x, y).1 <= cup_cost(x, y),
        cursor is None ==> spec_price_move(cursor, non_ascii, x, y).0 == Move::Cup,
        cursor matches Some(c) ==> forall|k: int| 0 <= k < 4 && #[trigger] candidates(c, non_ascii, x, y)[k] is Some
            ==> spec_price_move(cursor, non_ascii, x, y).1 <= candidates(c, non_ascii, x, y)[k]->Some_0.1,
{
    lemma_cost_bound(cursor, non_ascii, x, y);
    if let Some(c) = cursor {
        let cands = candidates(c, non_ascii, x, y);
        let base = (Move::Cup, cup_cost(x, y));
        let b1 = cheapest(cands, 1, base);
        let b2 = cheapest(cands, 2, base);
        let b3 = cheapest(cands, 3, base);
        let b4 = cheapest(cands, 4, base);
        assert(cheapest(cands, 0, base) == base);
        assert(b1.1 <= base.1);
        assert(b2.1 <= b1.1);
        assert(b3.1 <= b2.1);
        assert(b4.1 <= b3.1);
        assert(cands[0] is Some ==> b1.1 <= cands[0]->Some_0.1);
        assert(cands[1] is Some ==> b2.1 <= cands[1]->Some_0.1);
        assert(cands[2] is Some ==> b3.1 <= cands[2]->Some_0.1);
        assert(cands[3] is Some ==> b4.1 <= cands[3]->Some_0.1);
    }
}

/// Where the cursor stands after a move's bytes, by what each escape does: `CUP` goes to the
/// position it names, `CHA` to a column of the same row, `CUF` forward along the row, `CR` to
/// column zero, and each `LF` one row down.
pub open spec fn lands_at(m: Move, cursor: Option<(u16, u16)>, x: u16, y: u16) -> (int, int) {
    match (m, cursor) {
        (Move::Cup, _) => (x as int, y as int),
        (Move::Cha, Some((_, cy))) => (x as int, cy as int),
        (Move::Cuf(by), Some((cx, cy))) => (cx + by, cy as int),
        (Move::Cr, Some((_, cy))) => (0, cy as int),
        (Move::Feed, Some((_, cy))) => (0, cy + (y - cy)),
        _ => (-1, -1),
    }
}

/// **Every move lands where it was asked to**: whichever encoding is cheapest, its bytes put the
/// cursor at `(x, y)`.
pub proof fn lemma_every_move_lands(cursor: Option<(u16, u16)>, non_ascii: bool, x: u16, y: u16)
    ensures
        lands_at(spec_price_move(cursor, non_ascii, x, y).0, cursor, x, y) == (x as int, y as int),
{
    if let Some(c) = cursor {
        lemma_chosen(c, non_ascii, x, y);
    }
}

/// A candidate whose price is the length of its bytes.
pub open spec fn priced_right(c: Option<(Move, nat)>, cursor: Option<(u16, u16)>, x: u16, y: u16) -> bool {
    match c {
        Some((m, cost)) => move_bytes(m, cursor, x, y).len() == cost,
        None => true,
    }
}

/// A move never costs more than an absolute one, and an absolute one is at most twenty-four bytes.
proof fn lemma_cost_bound(cursor: Option<(u16, u16)>, non_ascii: bool, x: u16, y: u16)
    ensures
        1 <= spec_price_move(cursor, non_ascii, x, y).1 <= cup_cost(x, y),
        cup_cost(x, y) <= 24,
{
    wire::lemma_decimal_len(y as nat + 1);
    wire::lemma_decimal_len(x as nat + 1);
    match cursor {
        None => {
            assert(spec_price_move(cursor, non_ascii, x, y) == (Move::Cup, cup_cost(x, y)));
        },
        Some(c) => {
            let cands = candidates(c, non_ascii, x, y);
            let base = (Move::Cup, cup_cost(x, y));
            let b1 = cheapest(cands, 1, base);
            let b2 = cheapest(cands, 2, base);
            let b3 = cheapest(cands, 3, base);
            let b4 = cheapest(cands, 4, base);
            assert(cheapest(cands, 0, base) == base);
            assert(b1.1 <= base.1);
            assert(b2.1 <= base.1);
            assert(b3.1 <= base.1);
            assert(b4.1 <= base.1);
            assert(1 <= b1.1);
            assert(1 <= b2.1);
            assert(1 <= b3.1);
            assert(1 <= b4.1);
        },
    }
}

/// A move's price is the length of the bytes it is spelled with, whichever candidate wins.
pub proof fn lemma_price_is_length(cursor: Option<(u16, u16)>, non_ascii: bool, x: u16, y: u16)
    ensures
        move_bytes(spec_price_move(cursor, non_ascii, x, y).0, cursor, x, y).len()
            == spec_price_move(cursor, non_ascii, x, y).1,
{
    let cup = (Move::Cup, cup_cost(x, y));
    assert(move_bytes(Move::Cup, cursor, x, y).len() == cup_cost(x, y));
    match cursor {
        None => {},
        Some(c) => {
            let (cx, cy) = c;
            let cands = candidates(c, non_ascii, x, y);
            assert forall|k: int| 0 <= k < 4 implies priced_right(#[trigger] cands[k], cursor, x, y) by {
                if k == 3 {
                    assert(feeds((y - cy) as nat).len() == (y - cy) as nat);
                }
            }
            let b0 = cheapest(cands, 0, cup);
            let b1 = cheapest(cands, 1, cup);
            let b2 = cheapest(cands, 2, cup);
            let b3 = cheapest(cands, 3, cup);
            assert(move_bytes(b0.0, cursor, x, y).len() == b0.1);
            assert(move_bytes(b1.0, cursor, x, y).len() == b1.1);
            assert(move_bytes(b2.0, cursor, x, y).len() == b2.1);
            assert(move_bytes(b3.0, cursor, x, y).len() == b3.1);
        },
    }
}

/// Where the cursor ends up after printing a cell `columns` wide at `(x, y)`: with auto-wrap off
/// it stops in the last column rather than advancing off it.
pub open spec fn advanced(x: u16, y: u16, columns: u16, width: u16) -> (u16, u16) {
    let last = if width == 0 { 0 } else { width - 1 };
    (if x + columns < last { (x + columns) as u16 } else { last as u16 }, y)
}

/// Every cell the mirror knows is one this quantiser leaves alone: what the mirror holds is what
/// the terminal was sent, and what was sent was narrowed.
pub open spec fn consistent(m: &Mirror, q: Quantiser) -> bool {
    forall|x: int, y: int| 0 <= x < m.width && 0 <= y < m.height && m.at(x, y) != Cell::spec_unknown()
        ==> #[trigger] narrowed(q, m.at(x, y)) == m.at(x, y)
}

/// One thing a frame has said to the terminal, in the order it said it.
pub enum Said {
    /// A cell put on the wire at `(x, y)`: a move from where the cursor stood (`c0`) that lands
    /// there, unless the cursor already stood there; the change from the style word `s0` and the
    /// hyperlink `l0`, which leaves `l1` open; then the cell's own bytes.
    Put {
        x: u16,
        y: u16,
        c: Cell,
        c0: Option<(u16, u16)>,
        na0: bool,
        s0: Style,
        l0: LinkId,
        l1: LinkId,
        mv: Seq<u8>,
        st: Seq<u8>,
        text: Seq<u8>,
    },
    /// The second column of the wide cluster put before it, which the terminal covers with that
    /// cluster: no bytes of its own.
    Cover { x: u16, y: u16, c: Cell },
    /// A scroll of a band of a screen `height` rows tall.
    Scroll { s: Scroll, height: u16 },
}

/// The bytes one thing said takes on the wire.
pub open spec fn said_bytes(e: Said) -> Seq<u8> {
    match e {
        Said::Put { mv, st, text, .. } => mv + st + text,
        Said::Cover { .. } => Seq::empty(),
        Said::Scroll { s, height } => scroll_bytes(s, height),
    }
}

/// Everything said, as the bytes it took, in order.
pub open spec fn flatten(said: Seq<Said>) -> Seq<u8>
    decreases said.len(),
{
    if said.len() == 0 {
        Seq::empty()
    } else {
        flatten(said.drop_last()) + said_bytes(said.last())
    }
}

/// Where the terminal's cursor stands once `said` has been said on a screen `width` wide, from a
/// cursor nobody knows: after a cell, the column past it; after a scroll, nowhere known.
pub open spec fn cursor_after(said: Seq<Said>, width: u16) -> Option<(u16, u16)>
    decreases said.len(),
{
    if said.len() == 0 {
        None
    } else {
        match said.last() {
            Said::Put { x, y, c, .. } => Some(advanced(x, y, c.grapheme.spec_columns(), width)),
            Said::Cover { .. } => cursor_after(said.drop_last(), width),
            Said::Scroll { .. } => None,
        }
    }
}

/// The style word the terminal paints with once `said` has been said, from a frame's opening
/// reset: the last cell's.
pub open spec fn style_after(said: Seq<Said>) -> Style
    decreases said.len(),
{
    if said.len() == 0 {
        Style::spec_default()
    } else {
        match said.last() {
            Said::Put { c, .. } => c.style,
            _ => style_after(said.drop_last()),
        }
    }
}

/// Whether a non-ASCII cluster has gone out on the cursor's row once `said` has been said, from a
/// frame's opening: a move to another row forgets it, and a non-ASCII cell sets it.
pub open spec fn na_after(said: Seq<Said>) -> bool
    decreases said.len(),
{
    if said.len() == 0 {
        false
    } else {
        match said.last() {
            Said::Put { y, c, c0, na0, .. } => (na0 && (c0 matches Some((_, cy)) && cy == y))
                || !c.grapheme.spec_is_ascii_scalar(),
            _ => na_after(said.drop_last()),
        }
    }
}

/// The hyperlink the terminal has open once `said` has been said, from a frame's opening, which
/// has none open: the one the last cell left open.
pub open spec fn link_after(said: Seq<Said>) -> LinkId
    decreases said.len(),
{
    if said.len() == 0 {
        LinkId { id: 0 }
    } else {
        match said.last() {
            Said::Put { l1, .. } => l1,
            _ => link_after(said.drop_last()),
        }
    }
}

/// What the terminal shows at `(x, y)` once `said` has been said over a screen showing `base`.
pub open spec fn shown(said: Seq<Said>, base: &Mirror, x: int, y: int) -> Cell
    decreases said.len(),
{
    if said.len() == 0 {
        base.at(x, y)
    } else {
        match said.last() {
            Said::Put { x: px, y: py, c, .. } => if px == x && py == y {
                c
            } else {
                shown(said.drop_last(), base, x, y)
            },
            Said::Cover { x: px, y: py, c } => if px == x && py == y {
                c
            } else {
                shown(said.drop_last(), base, x, y)
            },
            Said::Scroll { s, .. } => if s.spec_moves(y) {
                shown(said.drop_last(), base, x, s.spec_source(y))
            } else if s.spec_exposes(y) {
                Cell::spec_blank()
            } else {
                shown(said.drop_last(), base, x, y)
            },
        }
    }
}

/// `(y1, x1)` comes before `(y2, x2)` in reading order.
pub open spec fn precedes(y1: int, x1: int, y2: int, x2: int) -> bool {
    y1 < y2 || (y1 == y2 && x1 < x2)
}

/// Whether a thing said stands at a cell it may: one the frame damaged, or one whose contents
/// the terminal showed, known, when the frame began; and a covered column holds the second
/// column of a wide cluster.
pub open spec fn placed(e: Said, p: &Packet, start: &Mirror) -> bool {
    match e {
        Said::Put { x, y, .. } => damaged(p, x as int, y as int) || start.at(x as int, y as int) != Cell::spec_unknown(),
        Said::Cover { x, y, c } => (damaged(p, x as int, y as int) || start.at(x as int, y as int) != Cell::spec_unknown())
            && c.grapheme is Continuation,
        Said::Scroll { .. } => true,
    }
}

/// Whether a thing said is a cell put on the wire before `(y, x)` in reading order; anything
/// else said passes.
pub open spec fn put_before(e: Said, y: int, x: int) -> bool {
    match e {
        Said::Put { x: px, y: py, .. } => precedes(py as int, px as int, y, x),
        _ => true,
    }
}

/// What a frame says keeps to reading order: the scroll, if any, first; every cell put on the
/// wire after the ones before it and before `(y, x)`, where the frame has got to; and nothing
/// said where the frame neither damaged the screen nor knew what it showed.
#[verifier::opaque]
pub open spec fn orderly(said: Seq<Said>, p: &Packet, start: &Mirror, y: int, x: int) -> bool {
    &&& forall|i: int| 0 < i < said.len() ==> !(#[trigger] said[i] is Scroll)
    &&& forall|i: int| 0 <= i < said.len() ==> #[trigger] put_before(said[i], y, x)
    &&& forall|i: int| 0 <= i < said.len() ==> #[trigger] placed(said[i], p, start)
    &&& forall|i: int, j: int| 0 <= i < j < said.len() ==> (#[trigger] said[i] matches Said::Put { x: xi, y: yi, .. }
        ==> put_after(#[trigger] said[j], yi as int, xi as int))
}

/// Whether a thing said is a cell put on the wire after `(y, x)` in reading order; anything else
/// said passes.
pub open spec fn put_after(e: Said, y: int, x: int) -> bool {
    match e {
        Said::Put { x: px, y: py, .. } => precedes(y, x, py as int, px as int),
        _ => true,
    }
}

/// `b` is `a` said further: it begins as `a` does, and where `a` said nothing, `b` does not begin
/// with a scroll.
pub open spec fn heads(a: Seq<Said>, b: Seq<Said>) -> bool {
    &&& a.len() <= b.len()
    &&& a.len() > 0 ==> b[0] == a[0]
    &&& a.len() == 0 && b.len() > 0 ==> !(b[0] is Scroll)
}

/// Nothing said yet but a scroll is in order, wherever the frame has got to.
proof fn lemma_orderly_start(said: Seq<Said>, p: &Packet, start: &Mirror, y: int, x: int)
    requires
        said.len() == 0 || (said.len() == 1 && said[0] is Scroll),
    ensures
        orderly(said, p, start, y, x),
{
    reveal(orderly);
}

/// Having got further keeps what was said in order.
proof fn lemma_orderly_later(said: Seq<Said>, p: &Packet, start: &Mirror, y: int, x: int, y2: int, x2: int)
    requires
        orderly(said, p, start, y, x),
        !precedes(y2, x2, y, x),
    ensures
        orderly(said, p, start, y2, x2),
{
    reveal(orderly);
    assert forall|i: int| 0 <= i < said.len() implies #[trigger] put_before(said[i], y2, x2) by {
        assert(put_before(said[i], y, x));
    }
}

/// A cell put on the wire at `(y, x)`, in reading order and where it may stand, keeps what was
/// said in order, and the frame has got past it.
proof fn lemma_orderly_put(said: Seq<Said>, e: Said, p: &Packet, start: &Mirror, y: u16, x: u16)
    requires
        orderly(said, p, start, y as int, x as int),
        e matches Said::Put { x: ex, y: ey, .. } && ex == x && ey == y,
        placed(e, p, start),
    ensures
        orderly(said.push(e), p, start, y as int, x + 1),
{
    reveal(orderly);
    let t = said.push(e);
    assert forall|i: int| 0 < i < t.len() implies !(#[trigger] t[i] is Scroll) by {
        if i < said.len() {
            assert(t[i] == said[i]);
        }
    }
    assert forall|i: int| 0 <= i < t.len() implies #[trigger] put_before(t[i], y as int, x + 1) by {
        if i < said.len() {
            assert(t[i] == said[i]);
            assert(put_before(said[i], y as int, x as int));
        }
    }
    assert forall|i: int| 0 <= i < t.len() implies #[trigger] placed(t[i], p, start) by {
        if i < said.len() {
            assert(t[i] == said[i]);
        }
    }
    assert forall|i: int, j: int| 0 <= i < j < t.len() implies (#[trigger] t[i] matches Said::Put { x: xi, y: yi, .. }
        ==> put_after(#[trigger] t[j], yi as int, xi as int)) by {
        assert(t[i] == said[i]);
        if j < said.len() {
            assert(t[j] == said[j]);
        } else {
            assert(put_before(said[i], y as int, x as int));
        }
    }
}

/// The second column of a wide cluster, where it may stand, keeps what was said in order.
proof fn lemma_orderly_cover(said: Seq<Said>, e: Said, p: &Packet, start: &Mirror, y: int, x: int)
    requires
        orderly(said, p, start, y, x),
        e is Cover,
        placed(e, p, start),
    ensures
        orderly(said.push(e), p, start, y, x),
{
    reveal(orderly);
    let t = said.push(e);
    assert forall|i: int| 0 < i < t.len() implies !(#[trigger] t[i] is Scroll) by {
        if i < said.len() {
            assert(t[i] == said[i]);
        }
    }
    assert forall|i: int| 0 <= i < t.len() implies #[trigger] put_before(t[i], y, x) by {
        if i < said.len() {
            assert(t[i] == said[i]);
        }
    }
    assert forall|i: int| 0 <= i < t.len() implies #[trigger] placed(t[i], p, start) by {
        if i < said.len() {
            assert(t[i] == said[i]);
        }
    }
    assert forall|i: int, j: int| 0 <= i < j < t.len() implies (#[trigger] t[i] matches Said::Put { x: xi, y: yi, .. }
        ==> put_after(#[trigger] t[j], yi as int, xi as int)) by {
        assert(t[i] == said[i]);
        if j < said.len() {
            assert(t[j] == said[j]);
        }
    }
}

/// Whether a thing said is the second column of a wide cluster.
pub open spec fn is_cover(e: Said) -> bool {
    e is Cover
}

/// What was said before a frame opened covers columns and moves nothing.
proof fn lemma_covers(said: Seq<Said>, width: u16)
    requires
        forall|i: int| 0 <= i < said.len() ==> #[trigger] is_cover(said[i]),
    ensures
        cursor_after(said, width) is None,
        style_after(said) == Style::spec_default(),
        link_after(said) == (LinkId { id: 0 }),
        !na_after(said),
        flatten(said) == Seq::<u8>::empty(),
    decreases said.len(),
{
    if said.len() > 0 {
        assert(is_cover(said[said.len() - 1]));
        assert forall|i: int| 0 <= i < said.drop_last().len() implies #[trigger] is_cover(said.drop_last()[i]) by {
            assert(is_cover(said[i]));
        }
        lemma_covers(said.drop_last(), width);
        assert(flatten(said) =~= flatten(said.drop_last()) + Seq::<u8>::empty());
    }
}

/// Saying one more thing keeps what was said before it, and where each earlier cell's move began.
proof fn lemma_said_push(said: Seq<Said>, e: Said, width: u16)
    requires
        forall|i: int| 0 <= i < said.len() ==> #[trigger] put_lands(said, i, width),
    ensures
        forall|i: int| 0 <= i < said.len() ==> #[trigger] put_lands(said.push(e), i, width),
        said.push(e).drop_last() == said,
        said.push(e).take(said.len() as int) == said,
{
    assert(said.push(e).drop_last() =~= said);
    assert(said.push(e).take(said.len() as int) =~= said);
    assert forall|i: int| 0 <= i < said.len() implies #[trigger] put_lands(said.push(e), i, width) by {
        assert(put_lands(said, i, width));
        assert(said.push(e).take(i) =~= said.take(i));
        assert(said.push(e)[i] == said[i]);
    }
}

/// The `i`th thing said is a cell whose move starts where the cursor stood after everything said
/// before it, and lands on the cell: no move only where the cursor already stood there.
pub open spec fn put_lands(said: Seq<Said>, i: int, width: u16) -> bool {
    match said[i] {
        Said::Put { x, y, c0, na0, s0, l0, mv, .. } => {
            &&& c0 == cursor_after(said.take(i), width)
            &&& s0 == style_after(said.take(i))
            &&& l0 == link_after(said.take(i))
            &&& na0 == na_after(said.take(i))
            &&& (mv.len() == 0 && c0 == Some((x, y))) || mv == move_bytes(spec_price_move(c0, na0, x, y).0, c0, x, y)
        },
        _ => true,
    }
}

/// Turns a packet into the bytes that go to the terminal.
pub struct Serializer {
    out: Vec<u8>,
    mirror: Mirror,
    /// Where the terminal's cursor is, or `None` before the first move of a frame.
    cursor: Option<(u16, u16)>,
    style: Style,
    /// The hyperlink the terminal currently has open: SGR 0 does not close one.
    link: LinkId,
    /// The cluster emitted last, when the next cell's bytes would follow it with nothing between.
    prev: Option<GraphemeId>,
    /// Whether a non-ASCII cluster has gone out on the row the cursor is on: the next move on that
    /// row is then absolute, so a width disagreement cannot compound along it.
    non_ascii_on_row: bool,
    /// Whether this frame's opening bytes have gone out. A frame the filter emptied says nothing.
    frame_open: bool,
    /// What this terminal can express, rebuilt at the top of every frame.
    quant: Quantiser,
    /// The one-entry memo on the last style word narrowed.
    memo: Option<(Style, Style)>,
    /// How the equality filter and the gap merge are configured.
    filter: Filter,
    /// What this frame sent before it opened: the mouse tracking change, which is a terminal mode
    /// rather than part of the picture.
    lead: Ghost<Seq<u8>>,
    /// What this frame has said, in order, since it began.
    said: Ghost<Seq<Said>>,
    /// What the terminal showed when this frame began.
    base: Ghost<Mirror>,
}

impl Serializer {
    /// The mirror, what this serializer believes the terminal shows.
    pub closed spec fn spec_mirror(&self) -> Mirror {
        self.mirror
    }

    /// The bytes of the last frame.
    pub closed spec fn spec_out(&self) -> Seq<u8> {
        self.out@
    }

    /// The hyperlink the terminal has open.
    pub closed spec fn spec_link(&self) -> LinkId {
        self.link
    }

    /// What the last frame narrowed with.
    pub closed spec fn spec_quant(&self) -> Quantiser {
        self.quant
    }

    /// How the equality filter and the gap merge are configured.
    pub closed spec fn spec_filter(&self) -> Filter {
        self.filter
    }

    /// What the last frame said, in order.
    pub closed spec fn spec_said(&self) -> Seq<Said> {
        self.said@
    }

    /// What the terminal showed when the last frame began.
    pub closed spec fn spec_base(&self) -> Mirror {
        self.base@
    }

    /// Where the terminal's cursor is, where this serializer knows it.
    pub closed spec fn spec_cursor(&self) -> Option<(u16, u16)> {
        self.cursor
    }

    /// The style word the terminal paints with.
    pub closed spec fn spec_style(&self) -> Style {
        self.style
    }

    /// Whether the last frame opened: whether it said anything of the picture.
    pub closed spec fn spec_frame_open(&self) -> bool {
        self.frame_open
    }

    /// At rest: the mirror is whole, the memo answers for the quantiser it was filled under, and
    /// no hyperlink is left open on the terminal.
    pub closed spec fn wf(&self) -> bool {
        &&& self.inv()
        &&& self.link.id == 0
    }

    /// What holds at every step of a frame.
    closed spec fn inv(&self) -> bool {
        &&& self.mirror.wf()
        &&& self.memo_ok()
    }

    closed spec fn memo_ok(&self) -> bool {
        match self.memo {
            Some((from, to)) => to == self.quant.spec_style(from),
            None => true,
        }
    }

    /// What the bytes say: once the frame opened, they are its opening and then everything said,
    /// in order; what the terminal shows is what was said over what it showed when the frame
    /// began; and every cell was moved to from where the cursor stood.
    #[verifier::opaque]
    closed spec fn told(&self, sync: bool) -> bool {
        &&& self.frame_open ==> self.out@ == self.lead@ + frame_prefix(sync) + flatten(self.said@)
        &&& !self.frame_open ==> flatten(self.said@) == Seq::<u8>::empty()
        &&& !self.frame_open ==> forall|i: int| 0 <= i < self.said@.len() ==> #[trigger] is_cover(self.said@[i])
        &&& self.frame_open ==> self.cursor == cursor_after(self.said@, self.mirror.width)
        &&& self.frame_open ==> self.style == style_after(self.said@)
        &&& self.frame_open ==> self.link == link_after(self.said@)
        &&& self.frame_open ==> self.non_ascii_on_row == na_after(self.said@)
        &&& self.base@.width == self.mirror.width
        &&& self.base@.height == self.mirror.height
        &&& forall|x: int, y: int| 0 <= x < self.mirror.width && 0 <= y < self.mirror.height
            ==> #[trigger] self.mirror.at(x, y) == shown(self.said@, &self.base@, x, y)
        &&& forall|i: int| 0 <= i < self.said@.len() ==> #[trigger] put_lands(self.said@, i, self.mirror.width)
    }

    /// What was told depends on the bytes, the mirror, the cursor and what was said alone.
    proof fn lemma_told_same(pre: Serializer, post: Serializer, sync: bool)
        requires
            pre.told(sync),
            post.out == pre.out,
            post.mirror == pre.mirror,
            post.cursor == pre.cursor,
            post.style == pre.style,
            post.link == pre.link,
            post.non_ascii_on_row == pre.non_ascii_on_row,
            post.frame_open == pre.frame_open,
            post.lead == pre.lead,
            post.said == pre.said,
            post.base == pre.base,
        ensures
            post.told(sync),
    {
        reveal(Serializer::told);
    }

    /// A cell put on the wire is one more thing said.
    proof fn lemma_told_put(pre: Serializer, post: Serializer, sync: bool, e: Said)
        requires
            pre.told(sync),
            pre.frame_open,
            post.frame_open,
            pre.mirror.wf(),
            post.mirror.wf(),
            e matches Said::Put { x, y, c, c0, na0, s0, l0, l1, mv, .. } && {
                &&& x < pre.mirror.width && y < pre.mirror.height
                &&& c0 == pre.cursor
                &&& s0 == pre.style
                &&& l0 == pre.link
                &&& na0 == pre.non_ascii_on_row
                &&& post.non_ascii_on_row == ((na0 && (c0 matches Some((_, cy)) && cy == y))
                    || !c.grapheme.spec_is_ascii_scalar())
                &&& post.style == c.style
                &&& post.link == l1
                &&& (mv.len() == 0 && c0 == Some((x, y))) || mv == move_bytes(spec_price_move(c0, na0, x, y).0, c0, x, y)
                &&& post.mirror.at(x as int, y as int) == c
                &&& forall|i: int, j: int| 0 <= i < pre.mirror.width && 0 <= j < pre.mirror.height && !(i == x && j == y)
                    ==> #[trigger] post.mirror.at(i, j) == pre.mirror.at(i, j)
                &&& post.cursor == Some(advanced(x, y, c.grapheme.spec_columns(), pre.mirror.width))
            },
            post.said@ == pre.said@.push(e),
            post.out@ == pre.out@ + said_bytes(e),
            post.lead == pre.lead,
            post.base == pre.base,
            post.mirror.width == pre.mirror.width,
            post.mirror.height == pre.mirror.height,
        ensures
            post.told(sync),
    {
        reveal(Serializer::told);
        lemma_said_push(pre.said@, e, pre.mirror.width);
        assert(flatten(post.said@) == flatten(pre.said@) + said_bytes(e));
        assert(post.out@ =~= post.lead@ + frame_prefix(sync) + flatten(post.said@));
        assert(put_lands(post.said@, pre.said@.len() as int, pre.mirror.width));
    }

    /// The second column of a wide cluster is one more thing said, and costs nothing.
    proof fn lemma_told_cover(pre: Serializer, post: Serializer, sync: bool, x: u16, y: u16, c: Cell)
        requires
            pre.told(sync),
            pre.mirror.wf(),
            post.mirror.wf(),
            x < pre.mirror.width && y < pre.mirror.height,
            post.mirror.at(x as int, y as int) == c,
            forall|i: int, j: int| 0 <= i < pre.mirror.width && 0 <= j < pre.mirror.height && !(i == x && j == y)
                ==> #[trigger] post.mirror.at(i, j) == pre.mirror.at(i, j),
            post.said@ == pre.said@.push(Said::Cover { x, y, c }),
            post.out == pre.out,
            post.cursor == pre.cursor,
            post.style == pre.style,
            post.link == pre.link,
            post.non_ascii_on_row == pre.non_ascii_on_row,
            post.frame_open == pre.frame_open,
            post.lead == pre.lead,
            post.base == pre.base,
            post.mirror.width == pre.mirror.width,
            post.mirror.height == pre.mirror.height,
        ensures
            post.told(sync),
    {
        reveal(Serializer::told);
        lemma_said_push(pre.said@, Said::Cover { x, y, c }, pre.mirror.width);
        assert(flatten(post.said@) =~= flatten(pre.said@) + Seq::<u8>::empty());
        if !post.frame_open {
            assert forall|i: int| 0 <= i < post.said@.len() implies #[trigger] is_cover(post.said@[i]) by {
                if i < pre.said@.len() {
                    assert(is_cover(pre.said@[i]));
                }
            }
        }
    }

    /// A scroll is one more thing said, and leaves the cursor nowhere known.
    proof fn lemma_told_scroll(pre: Serializer, post: Serializer, sync: bool, s: Scroll)
        requires
            pre.told(sync),
            pre.frame_open,
            post.frame_open,
            forall|x: int, y: int| 0 <= x < pre.mirror.width && 0 <= y < pre.mirror.height
                ==> #[trigger] post.mirror.at(x, y) == scrolled_at(&pre.mirror, s, x, y),
            s.valid(pre.mirror.height),
            post.said@ == pre.said@.push(Said::Scroll { s, height: pre.mirror.height }),
            post.out@ == pre.out@ + scroll_bytes(s, pre.mirror.height),
            post.cursor is None,
            post.style == pre.style,
            post.link == pre.link,
            post.non_ascii_on_row == pre.non_ascii_on_row,
            post.lead == pre.lead,
            post.base == pre.base,
            post.mirror.width == pre.mirror.width,
            post.mirror.height == pre.mirror.height,
        ensures
            post.told(sync),
    {
        reveal(Serializer::told);
        let e = Said::Scroll { s, height: pre.mirror.height };
        lemma_said_push(pre.said@, e, pre.mirror.width);
        assert(post.out@ =~= post.lead@ + frame_prefix(sync) + flatten(post.said@));
        assert forall|x: int, y: int| 0 <= x < post.mirror.width && 0 <= y < post.mirror.height
            implies #[trigger] post.mirror.at(x, y) == shown(post.said@, &post.base@, x, y) by {
            assert(post.mirror.at(x, y) == scrolled_at(&pre.mirror, s, x, y));
            if s.spec_moves(y) {
                assert(pre.mirror.at(x, s.spec_source(y)) == shown(pre.said@, &pre.base@, x, s.spec_source(y)));
            } else if !s.spec_exposes(y) {
                assert(pre.mirror.at(x, y) == shown(pre.said@, &pre.base@, x, y));
            }
        }
    }

    /// The framing invariant: nothing has gone out before the frame opened, and once it has, the
    /// frame's opening bytes are at its front.
    closed spec fn framed(&self, sync: bool) -> bool {
        if self.frame_open {
            &&& self.out@.len() >= (self.lead@ + frame_prefix(sync)).len()
            &&& self.out@.subrange(0, (self.lead@ + frame_prefix(sync)).len() as int) == self.lead@ + frame_prefix(sync)
        } else {
            self.out@ == self.lead@
        }
    }

    /// A serializer for a `width` x `height` terminal whose screen it knows nothing about.
    pub fn new(width: u16, height: u16) -> (s: Serializer)
        ensures
            s.wf(),
            s.spec_mirror().width == width,
            s.spec_mirror().height == height,
            forall|x: int, y: int| 0 <= x < width && 0 <= y < height
                ==> s.spec_mirror().at(x, y) == Cell::spec_unknown(),
            s.spec_out().len() == 0,
            s.spec_link() == (LinkId { id: 0 }),
            s.spec_filter() == Filter::Bytes,
            s.spec_cursor() is None,
            s.spec_style() == Style::spec_default(),
            !s.spec_frame_open(),
    {
        Serializer {
            out: Vec::new(),
            mirror: Mirror::new(width, height),
            cursor: None,
            style: Style::new(),
            link: LinkId::none(),
            prev: None,
            non_ascii_on_row: false,
            frame_open: false,
            quant: Quantiser::transparent(),
            memo: None,
            filter: Filter::Bytes,
            lead: Ghost(Seq::empty()),
            said: Ghost(Seq::empty()),
            base: Ghost(vstd::pervasive::arbitrary()),
        }
    }

    /// Run the filter and the gap merge under `filter` from the next frame on. Nothing else about
    /// the serializer moves.
    pub fn set_filter(&mut self, filter: Filter)
        ensures
            final(self).spec_filter() == filter,
            final(self).wf() == old(self).wf(),
            final(self).spec_mirror() == old(self).spec_mirror(),
            final(self).spec_out() == old(self).spec_out(),
            final(self).spec_link() == old(self).spec_link(),
            final(self).spec_quant() == old(self).spec_quant(),
    {
        self.filter = filter;
    }

    /// How the filter and the gap merge are configured.
    pub fn filter(&self) -> (f: Filter)
        ensures
            f == self.spec_filter(),
    {
        self.filter
    }

    /// What this serializer believes the terminal shows.
    pub fn mirror(&self) -> (m: &Mirror)
        ensures
            *m == self.spec_mirror(),
    {
        &self.mirror
    }

    /// Write the bytes every frame opens with, once, on the first cell that actually goes out.
    fn open_frame(&mut self, sync: bool)
        requires
            old(self).told(sync),
            old(self).framed(sync),
        ensures
            final(self).told(sync),
            final(self).filter == old(self).filter,
            final(self).lead == old(self).lead,
            final(self).said == old(self).said,
            final(self).base == old(self).base,
            final(self).framed(sync),
            final(self).frame_open,
            old(self).frame_open ==> *final(self) == *old(self),
            !old(self).frame_open ==> final(self).out@ == old(self).lead@ + frame_prefix(sync),
            !old(self).frame_open ==> final(self).cursor is None,
            !old(self).frame_open ==> final(self).link == (LinkId { id: 0 }),
            !old(self).frame_open ==> final(self).style == Style::spec_default(),
            !old(self).frame_open ==> !final(self).non_ascii_on_row,
            final(self).mirror == old(self).mirror,
            final(self).quant == old(self).quant,
            final(self).memo == old(self).memo,
    {
        if self.frame_open {
            return;
        }
        proof {
            reveal(Serializer::told);
            lemma_covers(self.said@, self.mirror.width);
        }
        self.frame_open = true;
        if sync {
            push_sync(&mut self.out, false);
        }
        self.out.push(27u8);
        self.out.push(91u8);
        self.out.push(48u8);
        self.out.push(109u8);
        assert(self.out@ =~= self.lead@ + frame_prefix(sync));
        assert(self.out@.subrange(0, (self.lead@ + frame_prefix(sync)).len() as int) =~= self.lead@ + frame_prefix(sync));
        self.style = Style::new();
        self.cursor = None;
        self.prev = None;
        self.non_ascii_on_row = false;
        self.link = LinkId::none();
        proof {
            reveal(Serializer::told);
            assert(self.out@ =~= self.lead@ + frame_prefix(sync) + flatten(self.said@));
        }
    }

    /// One style word, narrowed to what this terminal can express, through the one-entry memo.
    /// Both spellings of a memoised word hit: narrowing is idempotent, so the word it returned is
    /// its own answer.
    fn narrow(&mut self, cell: Cell) -> (c: Cell)
        requires
            old(self).memo_ok(),
        ensures
            final(self).filter == old(self).filter,
            final(self).lead == old(self).lead,
            final(self).said == old(self).said,
            final(self).base == old(self).base,
            c == narrowed(old(self).quant, cell),
            final(self).memo_ok(),
            final(self).quant == old(self).quant,
            final(self).mirror == old(self).mirror,
            final(self).out == old(self).out,
            final(self).cursor == old(self).cursor,
            final(self).style == old(self).style,
            final(self).link == old(self).link,
            final(self).prev == old(self).prev,
            final(self).non_ascii_on_row == old(self).non_ascii_on_row,
            final(self).frame_open == old(self).frame_open,
    {
        if let Some((from, to)) = self.memo {
            if from == cell.style || to == cell.style {
                proof {
                    crate::quant::lemma_style_idempotent(self.quant, from);
                }
                return Cell::new(cell.grapheme, to);
            }
        }
        let n = self.quant.cell(cell);
        self.memo = Some((cell.style, n.style));
        n
    }

    /// Where the terminal's cursor ends up after printing one cell at `(x, y)`.
    fn advance(&mut self, x: u16, y: u16, columns: u16)
        ensures
            final(self).filter == old(self).filter,
            final(self).lead == old(self).lead,
            final(self).said == old(self).said,
            final(self).base == old(self).base,
            final(self).cursor == Some(advanced(x, y, columns, old(self).mirror.width)),
            final(self).out == old(self).out,
            final(self).mirror == old(self).mirror,
            final(self).quant == old(self).quant,
            final(self).memo == old(self).memo,
            final(self).frame_open == old(self).frame_open,
            final(self).link == old(self).link,
            final(self).style == old(self).style,
            final(self).prev == old(self).prev,
            final(self).non_ascii_on_row == old(self).non_ascii_on_row,
    {
        let last: u32 = if self.mirror.width == 0 { 0 } else { self.mirror.width as u32 - 1 };
        let to: u32 = x as u32 + columns as u32;
        let nx = if to < last { to as u16 } else { last as u16 };
        self.cursor = Some((nx, y));
    }

    /// The cheapest spelling of a move to `(x, y)`, and what it costs in bytes. `CUF` is never the
    /// answer on a row that has emitted a non-ASCII cluster, and the price is exactly the length of
    /// the bytes [`move_to`](Serializer::move_to) writes for it.
    fn price_move(&self, x: u16, y: u16) -> (r: (Move, usize))
        ensures
            r.0 == spec_price_move(self.cursor, self.non_ascii_on_row, x, y).0,
            r.1 == spec_price_move(self.cursor, self.non_ascii_on_row, x, y).1,
    {
        let cup_price = 4 + wire::digits(y as u32 + 1) + wire::digits(x as u32 + 1);
        let (cx, cy) = match self.cursor {
            Some(c) => c,
            None => return (Move::Cup, cup_price),
        };
        let ghost cands = candidates((cx, cy), self.non_ascii_on_row, x, y);
        let same_row = y == cy;
        let ghost base = (Move::Cup, cup_cost(x, y));
        let mut best = (Move::Cup, cup_price);
        assert(best.0 == cheapest(cands, 0, base).0 && best.1 == cheapest(cands, 0, base).1);
        if same_row && x == 0 && 1 < best.1 {
            best = (Move::Cr, 1);
        }
        assert(best.0 == cheapest(cands, 1, base).0 && best.1 == cheapest(cands, 1, base).1);
        if same_row {
            let c = 3 + wire::omissible(x as u32 + 1);
            if c < best.1 {
                best = (Move::Cha, c);
            }
        }
        assert(best.0 == cheapest(cands, 2, base).0 && best.1 == cheapest(cands, 2, base).1);
        if same_row && x > cx && !self.non_ascii_on_row {
            let c = 3 + wire::omissible((x - cx) as u32);
            if c < best.1 {
                best = (Move::Cuf(x - cx), c);
            }
        }
        assert(best.0 == cheapest(cands, 3, base).0 && best.1 == cheapest(cands, 3, base).1);
        if !same_row && x == 0 && y > cy {
            let c: usize = (if cx != 0 { 1 } else { 0 }) + (y - cy) as usize;
            if c < best.1 {
                best = (Move::Feed, c);
            }
        }
        assert(best.0 == cheapest(cands, 4, base).0 && best.1 == cheapest(cands, 4, base).1);
        best
    }

    /// `CSI y;x H`, and nothing else.
    fn cup(&mut self, x: u16, y: u16)
        ensures
            final(self).filter == old(self).filter,
            final(self).lead == old(self).lead,
            final(self).said == old(self).said,
            final(self).base == old(self).base,
            final(self).out@ == old(self).out@ + move_bytes(Move::Cup, None, x, y),
            final(self).mirror == old(self).mirror,
            final(self).cursor == old(self).cursor,
            final(self).quant == old(self).quant,
            final(self).memo == old(self).memo,
            final(self).frame_open == old(self).frame_open,
            final(self).link == old(self).link,
            final(self).style == old(self).style,
            final(self).prev == old(self).prev,
            final(self).non_ascii_on_row == old(self).non_ascii_on_row,
    {
        let ghost start = self.out@;
        self.out.push(27u8);
        self.out.push(91u8);
        push_num(&mut self.out, y as u32 + 1);
        self.out.push(59u8);
        push_num(&mut self.out, x as u32 + 1);
        self.out.push(72u8);
        assert(self.out@ =~= start + move_bytes(Move::Cup, None, x, y));
    }

    /// Put the cursor at `(x, y)` in the fewest bytes the five encodings allow. `force` is for a
    /// cursor already there whose next bytes must nevertheless be separated from the last.
    fn move_to(&mut self, x: u16, y: u16, force: bool)
        ensures
            final(self).filter == old(self).filter,
            final(self).lead == old(self).lead,
            final(self).said == old(self).said,
            final(self).base == old(self).base,
            final(self).cursor == Some((x, y)),
            !force && old(self).cursor == Some((x, y)) ==> final(self).out == old(self).out,
            force || old(self).cursor != Some((x, y)) ==> final(self).out@ == old(self).out@
                + move_bytes(spec_price_move(old(self).cursor, old(self).non_ascii_on_row, x, y).0, old(self).cursor, x, y),
            force || old(self).cursor != Some((x, y)) ==> move_bytes(spec_price_move(old(self).cursor, old(self).non_ascii_on_row, x, y).0, old(self).cursor, x, y).len()
                == spec_price_move(old(self).cursor, old(self).non_ascii_on_row, x, y).1,
            final(self).mirror == old(self).mirror,
            final(self).quant == old(self).quant,
            final(self).memo == old(self).memo,
            final(self).frame_open == old(self).frame_open,
            final(self).link == old(self).link,
            final(self).style == old(self).style,
            final(self).prev == old(self).prev,
            final(self).non_ascii_on_row == (old(self).non_ascii_on_row && (old(self).cursor matches Some((_, cy)) && cy == y)),
    {
        if !force && self.cursor == Some((x, y)) {
            return;
        }
        let was = self.cursor;
        let (best, cost) = self.price_move(x, y);
        let ghost start = self.out@;
        match best {
            Move::Cup => {
                self.cup(x, y);
            },
            Move::Cha => {
                self.out.push(27u8);
                self.out.push(91u8);
                if x > 0 {
                    push_num(&mut self.out, x as u32 + 1);
                }
                self.out.push(71u8);
                assert(self.out@ =~= start + move_bytes(best, was, x, y));
            },
            Move::Cuf(by) => {
                self.out.push(27u8);
                self.out.push(91u8);
                if by > 1 {
                    push_num(&mut self.out, by as u32);
                }
                self.out.push(67u8);
                assert(self.out@ =~= start + move_bytes(best, was, x, y));
            },
            Move::Cr => {
                self.out.push(13u8);
                assert(self.out@ =~= start + move_bytes(best, was, x, y));
            },
            Move::Feed => {
                let (cx, cy) = match was {
                    Some(c) => c,
                    None => (0, y),
                };
                proof {
                    lemma_chosen((cx, cy), self.non_ascii_on_row, x, y);
                }
                if cx != 0 {
                    self.out.push(13u8);
                }
                push_feeds(&mut self.out, y - cy);
                assert(self.out@ =~= start + move_bytes(best, was, x, y));
            },
        }
        proof {
            lemma_price_is_length(was, self.non_ascii_on_row, x, y);
        }
        let same = match was {
            Some((_, cy)) => cy == y,
            None => false,
        };
        if !same {
            self.non_ascii_on_row = false;
        }
        self.cursor = Some((x, y));
    }
}

/// `b` is `a` with something appended.
pub open spec fn grows(a: Seq<u8>, b: Seq<u8>) -> bool {
    a.len() <= b.len() && b.subrange(0, a.len() as int) == a
}

/// What the terminal shows at `(x, y)` after a scroll, in terms of what it showed before.
pub open spec fn scrolled_at(m: &Mirror, s: Scroll, x: int, y: int) -> Cell {
    if s.spec_moves(y) {
        m.at(x, s.spec_source(y))
    } else if s.spec_exposes(y) {
        Cell::spec_blank()
    } else {
        m.at(x, y)
    }
}

/// `DECSTBM` + `SU`/`SD` + `DECSTBM` reset, or `SU`/`SD` alone where the band is the whole screen,
/// the region a terminal starts in.
pub open spec fn scroll_bytes(s: Scroll, height: u16) -> Seq<u8> {
    let (top, bot) = s.band;
    let whole = top == 0 && bot + 1 == height;
    (if whole {
        Seq::empty()
    } else {
        seq![27u8, 91u8] + decimal(top as nat + 1) + seq![59u8] + decimal(bot as nat + 1) + seq![114u8]
    }) + seq![27u8, 91u8] + (if s.by > 1 { decimal(s.by as nat) } else { Seq::empty() }) + seq![
        if s.up { 83u8 } else { 84u8 },
    ] + (if whole { Seq::empty() } else { seq![27u8, 91u8, 114u8] })
}

/// The bytes of a scroll, onto the buffer.
#[verifier::rlimit(40)]
fn push_scroll(out: &mut Vec<u8>, s: Scroll, height: u16)
    requires
        s.valid(height),
    ensures
        final(out)@ == old(out)@ + scroll_bytes(s, height),
{
    let ghost start = out@;
    let (top, bot) = s.band;
    let whole = top == 0 && bot + 1 == height;
    if !whole {
        out.push(27u8);
        out.push(91u8);
        push_num(out, top as u32 + 1);
        out.push(59u8);
        push_num(out, bot as u32 + 1);
        out.push(114u8);
    }
    let ghost region = out@;
    out.push(27u8);
    out.push(91u8);
    if s.by > 1 {
        push_num(out, s.by as u32);
    }
    out.push(if s.up { 83u8 } else { 84u8 });
    if !whole {
        out.push(27u8);
        out.push(91u8);
        out.push(114u8);
    }
    assert(out@ =~= start + scroll_bytes(s, height));
}

/// What [`Mirror::scroll`] says of rows, said of cells.
proof fn lemma_scrolled_at(m0: &Mirror, m1: &Mirror, s: Scroll)
    requires
        m0.wf(),
        m1.wf(),
        m1.width == m0.width,
        m1.height == m0.height,
        s.valid(m0.height),
        forall|y: int| 0 <= y < m0.height ==> (#[trigger] m1.rows@[y])@ == if s.spec_moves(y) {
            m0.rows@[s.spec_source(y)]@
        } else if s.spec_exposes(y) {
            filled(m0.width as nat, Cell::spec_blank())
        } else {
            m0.rows@[y]@
        },
    ensures
        forall|x: int, y: int| 0 <= x < m0.width && 0 <= y < m0.height
            ==> #[trigger] m1.at(x, y) == scrolled_at(m0, s, x, y),
{
    assert forall|x: int, y: int| 0 <= x < m0.width && 0 <= y < m0.height implies #[trigger] m1.at(x, y)
        == scrolled_at(m0, s, x, y) by {
        assert(m1.rows@[y]@ == m1.rows@[y]@);
    }
}

/// A frame's opening bytes survive whatever is appended after them.
proof fn lemma_framed_grows(a: Seq<u8>, b: Seq<u8>, pre: Seq<u8>)
    requires
        a.len() >= pre.len(),
        a.subrange(0, pre.len() as int) == pre,
        grows(a, b),
    ensures
        b.len() >= pre.len(),
        b.subrange(0, pre.len() as int) == pre,
{
    assert(b.subrange(0, pre.len() as int) =~= a.subrange(0, pre.len() as int));
}

/// Appending grows, and growing twice is growing.
proof fn lemma_grows_append(a: Seq<u8>, b: Seq<u8>)
    ensures
        grows(a, a + b),
{
    assert((a + b).subrange(0, a.len() as int) =~= a);
}

proof fn lemma_grows_trans(a: Seq<u8>, b: Seq<u8>, c: Seq<u8>)
    requires
        grows(a, b),
        grows(b, c),
    ensures
        grows(a, c),
{
    assert(c.subrange(0, a.len() as int) =~= b.subrange(0, a.len() as int));
}

/// Narrowing a narrowed cell changes nothing.
pub proof fn lemma_narrowed_idempotent(q: Quantiser, c: Cell)
    ensures
        narrowed(q, narrowed(q, c)) == narrowed(q, c),
{
    crate::quant::lemma_style_idempotent(q, c.style);
}

/// What no terminal has been told of narrows to itself.
proof fn lemma_unknown_is_narrowed(q: Quantiser)
    ensures
        narrowed(q, Cell::spec_unknown()) == Cell::spec_unknown(),
{
    assert(0u64 & crate::style::ATTR_MASK == 0) by (bit_vector);
}

/// An erased cell is one every terminal can express.
pub proof fn lemma_blank_is_narrowed(q: Quantiser)
    ensures
        narrowed(q, Cell::spec_blank()) == Cell::spec_blank(),
{
    assert(0u64 & crate::style::ATTR_MASK == 0) by (bit_vector);
}

impl Serializer {
    /// Whether the cluster about to be emitted would join the one before it into one cluster.
    fn joins_left(&self, next: GraphemeId, packet: &Packet) -> (b: bool)
        requires
            packet.wf(),
        ensures
            b == match self.prev {
                Some(prev) => crate::segment::may_join(prev, next, packet),
                None => false,
            },
    {
        match self.prev {
            Some(prev) => crate::segment::joins(prev, next, packet),
            None => false,
        }
    }

    /// Change the terminal's style word to `style`: the SGR that gets there from the current one,
    /// then the OSC 8 that opens, changes or closes the hyperlink to match. Where the terminal has
    /// no OSC 8 no link bytes go out and the link open stays as it was.
    fn restyle(&mut self, style: Style, packet: &Packet, caps: &Capabilities)
        requires
            packet.wf(),
        ensures
            final(self).out@ == old(self).out@ + style_bytes(old(self).style, style, packet, caps, old(self).quant)
                + link_step(style, packet, caps, old(self).quant, old(self).link).0,
            final(self).link == link_step(style, packet, caps, old(self).quant, old(self).link).1,
            final(self).style == style,
            final(self).filter == old(self).filter,
            final(self).lead == old(self).lead,
            final(self).said == old(self).said,
            final(self).base == old(self).base,
            final(self).mirror == old(self).mirror,
            final(self).quant == old(self).quant,
            final(self).memo == old(self).memo,
            final(self).frame_open == old(self).frame_open,
            final(self).cursor == old(self).cursor,
            final(self).prev == old(self).prev,
            final(self).non_ascii_on_row == old(self).non_ascii_on_row,
    {
        proof {
            reveal(style_bytes);
        }
        wire::emit_sgr_delta(&mut self.out, self.style, style, packet, caps, self.quant);
        self.style = style;
        let ghost delta = self.out@;
        if !caps.hyperlinks {
            assert(self.out@ =~= delta + Seq::<u8>::empty());
            return;
        }
        let want = wire::channels_of(style, packet, self.quant).link;
        if want == self.link {
            assert(self.out@ =~= delta + Seq::<u8>::empty());
            return;
        }
        let uri = if want.is_none() {
            None
        } else {
            packet.link(want)
        };
        wire::emit_osc8(&mut self.out, uri);
        self.link = if uri.is_some() {
            want
        } else {
            LinkId::none()
        };
    }

    /// Put one cell on the wire and record it in the mirror. Narrowed again here, whoever called:
    /// narrowing is idempotent, so this costs a memo hit.
    fn emit_cell(&mut self, x: u16, y: u16, cell: Cell, packet: &Packet, caps: &Capabilities, Ghost(start): Ghost<Mirror>)
        requires
            orderly(old(self).said@, packet, &start, y as int, x as int),
            damaged(packet, x as int, y as int) || start.at(x as int, y as int) != Cell::spec_unknown(),
            spoke_right(old(self).said@, packet, caps, old(self).quant),
            old(self).told(caps.sync),
            old(self).inv(),
            old(self).framed(caps.sync),
            packet.wf(),
            x < old(self).mirror.width,
            y < old(self).mirror.height,
        ensures
            orderly(final(self).said@, packet, &start, y as int, x + 1),
            heads(old(self).said@, final(self).said@),
            spoke_right(final(self).said@, packet, caps, old(self).quant),
            final(self).told(caps.sync),
            final(self).filter == old(self).filter,
            final(self).lead == old(self).lead,
            final(self).base == old(self).base,
            final(self).inv(),
            final(self).framed(caps.sync),
            final(self).quant == old(self).quant,
            final(self).mirror.width == old(self).mirror.width,
            final(self).mirror.height == old(self).mirror.height,
            final(self).mirror.at(x as int, y as int) == narrowed(old(self).quant, cell),
            forall|i: int, j: int| 0 <= i < old(self).mirror.width && 0 <= j < old(self).mirror.height
                && !(i == x && j == y) ==> #[trigger] final(self).mirror.at(i, j) == old(self).mirror.at(i, j),
            grows(old(self).out@, final(self).out@),
            old(self).frame_open ==> final(self).frame_open,
            narrowed(old(self).quant, cell).grapheme is Continuation ==> final(self).out == old(self).out
                && final(self).frame_open == old(self).frame_open,
            !(narrowed(old(self).quant, cell).grapheme is Continuation) ==> final(self).frame_open
                && final(self).cursor is Some,
    {
        let cell = self.narrow(cell);
        proof {
            Serializer::lemma_told_same(*old(self), *self, caps.sync);
        }
        if cell.grapheme.is_continuation() {
            let ghost pre = *self;
            self.mirror.set(x, y, cell);
            self.said = Ghost(pre.said@.push(Said::Cover { x, y, c: cell }));
            proof {
                Serializer::lemma_told_cover(pre, *self, caps.sync, x, y, cell);
                lemma_spoke_right_push(pre.said@, Said::Cover { x, y, c: cell }, packet, caps, self.quant);
                lemma_orderly_cover(pre.said@, Said::Cover { x, y, c: cell }, packet, &start, y as int, x as int);
                lemma_orderly_later(self.said@, packet, &start, y as int, x as int, y as int, x + 1);
                lemma_grows_append(self.out@, Seq::empty());
                assert(self.out@ + Seq::<u8>::empty() =~= self.out@);
            }
            return;
        }
        let ghost said0 = self.said@;
        self.put_cell(x, y, cell, packet, caps);
        proof {
            lemma_orderly_put(said0, self.said@.last(), packet, &start, y, x);
        }
    }

    /// Put one cell, as it is, on the wire at `(x, y)`, opening the frame if it was not yet open,
    /// and record it in the mirror and in what was said.
    fn put_cell(&mut self, x: u16, y: u16, cell: Cell, packet: &Packet, caps: &Capabilities)
        requires
            spoke_right(old(self).said@, packet, caps, old(self).quant),
            old(self).told(caps.sync),
            old(self).inv(),
            old(self).framed(caps.sync),
            packet.wf(),
            x < old(self).mirror.width,
            y < old(self).mirror.height,
        ensures
            spoke_right(final(self).said@, packet, caps, old(self).quant),
            final(self).told(caps.sync),
            final(self).filter == old(self).filter,
            final(self).lead == old(self).lead,
            final(self).base == old(self).base,
            final(self).inv(),
            final(self).framed(caps.sync),
            final(self).quant == old(self).quant,
            final(self).memo == old(self).memo,
            final(self).mirror.width == old(self).mirror.width,
            final(self).mirror.height == old(self).mirror.height,
            final(self).mirror.at(x as int, y as int) == cell,
            forall|i: int, j: int| 0 <= i < old(self).mirror.width && 0 <= j < old(self).mirror.height
                && !(i == x && j == y) ==> #[trigger] final(self).mirror.at(i, j) == old(self).mirror.at(i, j),
            grows(old(self).out@, final(self).out@),
            final(self).frame_open,
            final(self).cursor is Some,
            final(self).said@ == old(self).said@.push(final(self).said@.last()),
            final(self).said@.last() matches Said::Put { x: px, y: py, .. } && px == x && py == y,
    {
        let ghost before = self.out@;
        let sync = caps.sync_output();
        self.open_frame(sync);
        proof {
            if !old(self).frame_open {
                assert(before == self.lead@);
                assert(self.out@.subrange(0, before.len() as int) =~= before);
            } else {
                lemma_grows_append(before, Seq::empty());
                assert(before + Seq::<u8>::empty() =~= before);
            }
        }
        let ghost opened = self.out@;
        self.put_open_cell(x, y, cell, packet, caps);
        proof {
            lemma_grows_trans(before, opened, self.out@);
        }
    }

    /// Put one cell, as it is, on the wire of a frame already open.
    #[verifier::rlimit(80)]
    fn put_open_cell(&mut self, x: u16, y: u16, cell: Cell, packet: &Packet, caps: &Capabilities)
        requires
            spoke_right(old(self).said@, packet, caps, old(self).quant),
            old(self).told(caps.sync),
            old(self).inv(),
            old(self).framed(caps.sync),
            old(self).frame_open,
            packet.wf(),
            x < old(self).mirror.width,
            y < old(self).mirror.height,
        ensures
            spoke_right(final(self).said@, packet, caps, old(self).quant),
            final(self).told(caps.sync),
            final(self).filter == old(self).filter,
            final(self).lead == old(self).lead,
            final(self).base == old(self).base,
            final(self).inv(),
            final(self).framed(caps.sync),
            final(self).quant == old(self).quant,
            final(self).memo == old(self).memo,
            final(self).mirror.width == old(self).mirror.width,
            final(self).mirror.height == old(self).mirror.height,
            final(self).mirror.at(x as int, y as int) == cell,
            forall|i: int, j: int| 0 <= i < old(self).mirror.width && 0 <= j < old(self).mirror.height
                && !(i == x && j == y) ==> #[trigger] final(self).mirror.at(i, j) == old(self).mirror.at(i, j),
            grows(old(self).out@, final(self).out@),
            final(self).frame_open,
            final(self).cursor is Some,
            final(self).said@ == old(self).said@.push(final(self).said@.last()),
            final(self).said@.last() matches Said::Put { x: px, y: py, .. } && px == x && py == y,
    {
        let ghost pre = *self;
        let ghost opened = self.out@;
        let force = self.cursor == Some((x, y)) && self.joins_left(cell.grapheme, packet);
        self.move_to(x, y, force);
        let ghost moved = self.out@;
        let ghost mv = moved.subrange(opened.len() as int, moved.len() as int);
        proof {
            if !force && pre.cursor == Some((x, y)) {
                assert(mv.len() == 0);
            } else {
                assert(mv =~= move_bytes(spec_price_move(pre.cursor, pre.non_ascii_on_row, x, y).0, pre.cursor, x, y));
            }
            assert(moved =~= opened + mv);
        }
        if cell.style != self.style {
            self.restyle(cell.style, packet, caps);
        }
        let ghost styled = self.out@;
        let ghost st = styled.subrange(moved.len() as int, styled.len() as int);
        proof {
            assert(styled =~= moved + st);
        }
        wire::emit_grapheme(&mut self.out, cell.grapheme, packet);
        self.mirror.set(x, y, cell);
        self.advance(x, y, cell.grapheme.columns());
        self.prev = Some(cell.grapheme);
        self.non_ascii_on_row = self.non_ascii_on_row || !wire::is_ascii_scalar(cell.grapheme);
        let ghost e = Said::Put {
            x,
            y,
            c: cell,
            c0: pre.cursor,
            na0: pre.non_ascii_on_row,
            s0: pre.style,
            l0: pre.link,
            l1: self.link,
            mv,
            st,
            text: emitted_text(cell.grapheme, packet),
        };
        self.said = Ghost(pre.said@.push(e));
        proof {
            assert(self.out@ =~= pre.out@ + said_bytes(e));
            Serializer::lemma_told_put(pre, *self, caps.sync, e);
            if cell.style != pre.style {
                assert(st =~= style_bytes(pre.style, cell.style, packet, caps, self.quant)
                    + link_step(cell.style, packet, caps, self.quant, pre.link).0);
            }
            assert(put_right(e, packet, caps, self.quant));
            lemma_spoke_right_push(pre.said@, e, packet, caps, self.quant);
            lemma_grows_append(opened, said_bytes(e));
            lemma_framed_grows(opened, self.out@, self.lead@ + frame_prefix(caps.sync));
        }
    }

    /// Put a verified scroll on the wire and move the mirror the same way. `DECSTBM` homes the
    /// cursor and `SU` does not move it, so nothing is known about the cursor afterwards.
    fn emit_scroll(&mut self, s: Scroll, caps: &Capabilities)
        requires
            old(self).told(caps.sync),
            old(self).inv(),
            old(self).framed(caps.sync),
            s.valid(old(self).mirror.height),
        ensures
            final(self).said@ == old(self).said@.push(Said::Scroll { s, height: old(self).mirror.height }),
            final(self).told(caps.sync),
            final(self).filter == old(self).filter,
            final(self).lead == old(self).lead,
            final(self).base == old(self).base,
            final(self).inv(),
            final(self).framed(caps.sync),
            final(self).frame_open,
            final(self).quant == old(self).quant,
            final(self).mirror.width == old(self).mirror.width,
            final(self).mirror.height == old(self).mirror.height,
            forall|x: int, y: int| 0 <= x < old(self).mirror.width && 0 <= y < old(self).mirror.height
                ==> #[trigger] final(self).mirror.at(x, y) == scrolled_at(&old(self).mirror, s, x, y),
            final(self).out@ == (if old(self).frame_open { old(self).out@ } else { old(self).lead@ + frame_prefix(caps.sync) })
                + scroll_bytes(s, old(self).mirror.height),
            final(self).cursor is None,
    {
        let sync = caps.sync_output();
        self.open_frame(sync);
        let ghost pre = *self;
        let ghost opened = self.out@;
        push_scroll(&mut self.out, s, self.mirror.height);
        proof {
            lemma_grows_append(opened, scroll_bytes(s, self.mirror.height));
            lemma_framed_grows(opened, self.out@, self.lead@ + frame_prefix(caps.sync));
        }
        let ghost m0 = self.mirror;
        self.mirror.scroll(s);
        proof {
            lemma_scrolled_at(&m0, &self.mirror, s);
        }
        self.cursor = None;
        self.said = Ghost(pre.said@.push(Said::Scroll { s, height: pre.mirror.height }));
        proof {
            Serializer::lemma_told_scroll(pre, *self, caps.sync, s);
        }
    }
}

/// What a frame wants the terminal to show at `(x, y)`: the packet's cell, narrowed, where the
/// frame damaged it, and what `start` says the terminal already shows where it did not.
pub open spec fn target(start: &Mirror, p: &Packet, q: Quantiser, x: int, y: int) -> Cell {
    if damaged(p, x, y) {
        narrowed(q, damaged_cell(p, x, y))
    } else {
        start.at(x, y)
    }
}

/// Column `x` of row `y` of `m` is where a frame leaves it, whatever the mirror held before: a
/// damaged cell holds the frame's cell, narrowed, and any other holds what `start` showed, or
/// that repainted narrowed.
pub open spec fn settles(start: &Mirror, p: &Packet, q: Quantiser, m: &Mirror, x: int, y: int) -> bool {
    if damaged(p, x, y) {
        m.at(x, y) == narrowed(q, damaged_cell(p, x, y))
    } else {
        m.at(x, y) == start.at(x, y) || m.at(x, y) == narrowed(q, start.at(x, y))
    }
}

/// Every cell this frame damaged on row `y` is, narrowed, what `m` already shows there.
pub open spec fn quiet_row(p: &Packet, m: &Mirror, q: Quantiser, y: int) -> bool {
    forall|x: int| 0 <= x < m.width && #[trigger] damaged(p, x, y) ==> narrowed(q, damaged_cell(p, x, y)) == m.at(x, y)
}

/// Every cell this frame damaged is, narrowed, what `m` already shows: a frame that changes
/// nothing.
pub open spec fn quiet(p: &Packet, m: &Mirror, q: Quantiser) -> bool {
    forall|y: int| 0 <= y < m.height ==> #[trigger] quiet_row(p, m, q, y)
}

/// The first row a walk over the packet's rows has not reached once it stands at run `i`: that
/// run's row, or the screen's height past the last run.
pub open spec fn frontier(p: &Packet, i: int, height: int) -> int {
    if i < p.runs@.len() {
        p.runs@[i].y as int
    } else {
        height
    }
}

/// A row between two runs, none of which is on it, changes nothing.
proof fn lemma_quiet_between(p: &Packet, m: &Mirror, q: Quantiser, a: int, y: int)
    requires
        shaped(p, p.size.0, p.size.1),
        0 <= a <= p.runs@.len(),
        a == 0 || p.runs@[a - 1].y < y,
        a == p.runs@.len() || y < p.runs@[a].y,
    ensures
        quiet_row(p, m, q, y),
{
    assert forall|x: int| 0 <= x < m.width && #[trigger] damaged(p, x, y) implies narrowed(q, damaged_cell(p, x, y)) == m.at(x, y) by {
        let k = choose|k: int| 0 <= k < p.runs@.len() && #[trigger] covers(p.runs@[k], x, y);
        assert(covers(p.runs@[k], x, y));
        if k < a {
            crate::rows::lemma_rows_ascend(p.runs@, k, a - 1);
        } else {
            crate::rows::lemma_rows_ascend(p.runs@, a, k);
        }
    }
}

/// Column `x` of row `y` lands right if the terminal's row `src` moves onto row `y`: what the frame
/// wants there is what row `src` shows, and an undamaged column is one the mirror knows.
pub open spec fn lands(p: &Packet, m: &Mirror, q: Quantiser, x: int, y: int, src: int) -> bool {
    if damaged(p, x, y) {
        narrowed(q, damaged_cell(p, x, y)) == m.at(x, src)
    } else {
        m.at(x, y) != Cell::spec_unknown() && m.at(x, y) == m.at(x, src)
    }
}

/// A cell written narrowed keeps the mirror consistent.
proof fn lemma_consistent_set(m0: &Mirror, m1: &Mirror, q: Quantiser, x: int, y: int, c: Cell)
    requires
        consistent(m0, q),
        m1.width == m0.width,
        m1.height == m0.height,
        m1.at(x, y) == narrowed(q, c),
        forall|i: int, j: int| 0 <= i < m0.width && 0 <= j < m0.height && !(i == x && j == y)
            ==> #[trigger] m1.at(i, j) == m0.at(i, j),
    ensures
        consistent(m1, q),
{
    lemma_narrowed_idempotent(q, c);
    assert forall|i: int, j: int| 0 <= i < m1.width && 0 <= j < m1.height && m1.at(i, j) != Cell::spec_unknown()
        implies #[trigger] narrowed(q, m1.at(i, j)) == m1.at(i, j) by {
        if !(i == x && j == y) {
            assert(m1.at(i, j) == m0.at(i, j));
        }
    }
}

/// The columns before a row's first run, between two of its runs, and after its last are columns
/// the frame did not damage.
proof fn lemma_undamaged_between(p: &Packet, row: Row, k: int, x: int)
    requires
        shaped(p, p.size.0, p.size.1),
        row.ok(p),
        row.start <= k <= row.end,
        0 <= x,
        k == row.start || x > p.runs@[k - 1].hi,
        k == row.end || x < p.runs@[k].lo,
    ensures
        !damaged(p, x, row.y as int),
{
    if damaged(p, x, row.y as int) {
        let j = choose|j: int| 0 <= j < p.runs@.len() && #[trigger] covers(p.runs@[j], x, row.y as int);
        assert(covers(p.runs@[j], x, row.y as int));
        row.lemma_only(p, p.size.0, p.size.1, j);
        if j < k {
            crate::rows::lemma_rows_ascend(p.runs@, j, k - 1);
            assert(p.runs@[j].lo <= p.runs@[j].hi);
        } else {
            crate::rows::lemma_rows_ascend(p.runs@, k, j);
            assert(p.runs@[k].lo <= p.runs@[k].hi);
        }
    }
}

/// Whether every handle a style word names resolves in this packet: its extended entry, and the
/// hyperlink that entry names.
pub open spec fn resolvable(p: &Packet, s: Style) -> bool {
    match s.spec_ext_handle() {
        None => true,
        Some(h) => match p.spec_ext(h) {
            None => false,
            Some(e) => e.link.id == 0 || p.spec_link(e.link) is Some,
        },
    }
}

/// How the equality filter and the gap merge are configured. **One configuration ships**:
/// [`Filter::Bytes`], which a [`Serializer`] starts with. The others are the configurations that
/// lost to it, kept so that the comparison can be run again rather than quoted.
#[derive(Clone, Copy, PartialEq, Eq, Debug, Structural)]
pub enum Filter {
    /// Compare every cell against the mirror, and price a gap in bytes.
    Bytes,
    /// Compare, and never merge a gap.
    Strict,
    /// Compare, and merge any gap of at most this many columns, whatever it costs.
    Cells(u16),
    /// Do not compare at all: every damaged cell goes out.
    Off,
}

/// Whether to paint through a gap of `cols` columns priced at `price` bytes, against the
/// `move_cost` bytes of the move it would avoid. `None` is a gap that may not be painted through
/// at any price. Under [`Filter::Bytes`] **a tie goes to the move**: paint through a gap only
/// where it is strictly cheaper.
fn merges(filter: Filter, price: Option<usize>, move_cost: usize, cols: u16) -> (b: bool)
    ensures
        b == match filter {
            Filter::Bytes => price matches Some(p) && p < move_cost,
            Filter::Cells(n) => price is Some && cols <= n,
            Filter::Strict => false,
            Filter::Off => false,
        },
{
    match filter {
        Filter::Bytes => match price {
            Some(p) => p < move_cost,
            None => false,
        },
        Filter::Cells(n) => price.is_some() && cols <= n,
        Filter::Strict => false,
        Filter::Off => false,
    }
}

/// How many bytes a gap may cost before pricing it stops: the move it would avoid, because a gap
/// that already costs more than the move has lost. A cell count does not care what a gap costs, so
/// under [`Filter::Cells`] the walk reaches the end of the gap.
fn gap_budget(filter: Filter, move_cost: usize) -> (b: usize)
    ensures
        b == match filter {
            Filter::Cells(_) => usize::MAX,
            _ => move_cost,
        },
{
    match filter {
        Filter::Cells(_) => usize::MAX,
        _ => move_cost,
    }
}

/// The fewest bytes an SGR that says anything can take: `CSI`, one digit, `m`. A floor rather
/// than the cost, so a gap is priced by a lower bound.
pub const SGR_FLOOR: usize = 4;

impl Serializer {
    /// The cell a gap column would be painted with: the packet's where the frame damaged it, the
    /// mirror's where the mirror knows it, and `None` where neither.
    fn gap_cell(&self, row: &Row, x: u16, packet: &Packet) -> (c: Option<Cell>)
        requires
            self.mirror.wf(),
            shaped(packet, packet.size.0, packet.size.1),
            row.ok(packet),
            row.y < self.mirror.height,
            x < self.mirror.width,
        ensures
            match c {
                Some(c) => if damaged(packet, x as int, row.y as int) {
                    c == damaged_cell(packet, x as int, row.y as int)
                } else {
                    c == self.mirror.at(x as int, row.y as int) && c != Cell::spec_unknown()
                },
                None => !damaged(packet, x as int, row.y as int) && self.mirror.at(x as int, row.y as int)
                    == Cell::spec_unknown(),
            },
    {
        match row.at(packet, x) {
            Some(c) => Some(c),
            None => self.mirror.known_cell(x, row.y),
        }
    }

    /// The cell a gap column would be painted with: the packet's where the frame damaged it, the
    /// mirror's where the mirror knows it, and none where neither.
    spec fn spec_gap_cell(&self, p: &Packet, x: int, y: int) -> Option<Cell> {
        if damaged(p, x, y) {
            Some(damaged_cell(p, x, y))
        } else if self.mirror.at(x, y) != Cell::spec_unknown() {
            Some(self.mirror.at(x, y))
        } else {
            None
        }
    }

    /// What painting the gap columns `x..to` of row `y` costs on the wire, starting from the
    /// terminal's style word `style`: each cluster's bytes, and the floor of an SGR wherever the
    /// narrowed style changes. `None` where a column cannot be sourced, or names a cluster, an
    /// extended style or a hyperlink this packet cannot resolve.
    spec fn gap_price(&self, p: &Packet, y: int, x: int, to: int, style: Style) -> Option<nat>
        decreases to - x,
    {
        if x >= to {
            Some(0)
        } else {
            match self.spec_gap_cell(p, x, y) {
                None => None,
                Some(c) => if c.grapheme is Continuation {
                    self.gap_price(p, y, x + 1, to, style)
                } else {
                    match wire::spec_text_of(c.grapheme, p) {
                        None => None,
                        Some(t) => if !resolvable(p, c.style) {
                            None
                        } else {
                            let ns = self.quant.spec_style(c.style);
                            let cost: nat = t.len() + if ns != style { SGR_FLOOR as nat } else { 0 };
                            match self.gap_price(p, y, x + 1, to, ns) {
                                Some(rest) => Some(cost + rest),
                                None => None,
                            }
                        },
                    }
                },
            }
        }
    }

    /// What repainting the columns `from..to` would cost on the wire, or `None` when it may not be
    /// done at all or would cost at least `budget`: a column neither the packet nor the mirror can
    /// source, or a handle this packet cannot resolve, refuses the whole gap.
    fn price_gap(&self, row: &Row, from: u16, to: u16, packet: &Packet, budget: usize) -> (r: Option<usize>)
        requires
            budget >= 1,
            self.inv(),
            packet.wf(),
            shaped(packet, packet.size.0, packet.size.1),
            row.ok(packet),
            row.y < self.mirror.height,
            from <= to <= self.mirror.width,
        ensures
            r == match self.gap_price(packet, row.y as int, from as int, to as int, self.style) {
                Some(t) => if t < budget { Some(t as usize) } else { None },
                None => None,
            },
            r matches Some(n) ==> n < budget,
            r is Some ==> forall|x: int| from <= x < to ==> #[trigger] damaged(packet, x, row.y as int)
                || self.mirror.at(x, row.y as int) != Cell::spec_unknown(),
    {
        let ghost y = row.y as int;
        let ghost total = self.gap_price(packet, y, from as int, to as int, self.style);
        let mut price: usize = 0;
        let mut style = self.style;
        let mut x = from;
        while x < to
            invariant
                self.inv(),
                packet.wf(),
                shaped(packet, packet.size.0, packet.size.1),
                row.ok(packet),
                row.y < self.mirror.height,
                from <= x <= to <= self.mirror.width,
                price < budget,
                y == row.y as int,
                total == self.gap_price(packet, y, from as int, to as int, self.style),
                total == match self.gap_price(packet, y, x as int, to as int, style) {
                    Some(t) => Some((price + t) as nat),
                    None => None::<nat>,
                },
                forall|x2: int| from <= x2 < x ==> #[trigger] damaged(packet, x2, row.y as int)
                    || self.mirror.at(x2, row.y as int) != Cell::spec_unknown(),
            decreases to - x,
        {
            let cell = match self.gap_cell(row, x, packet) {
                Some(c) => c,
                None => return None,
            };
            let ghost rest = self.gap_price(packet, y, x + 1, to as int, self.quant.spec_style(cell.style));
            if !cell.grapheme.is_continuation() {
                let n = match wire::text_len(cell.grapheme, packet) {
                    Some(n) => n,
                    None => return None,
                };
                if n >= budget - price {
                    return None;
                }
                let ghost p0 = price;
                price = price + n;
                if let Some(h) = cell.style.ext_handle() {
                    match packet.ext(h) {
                        None => return None,
                        Some(e) => {
                            if !e.link.is_none() && packet.link(e.link).is_none() {
                                return None;
                            }
                        },
                    }
                }
                assert(resolvable(packet, cell.style));
                let narrowed_style = self.quant.style(cell.style);
                if narrowed_style != style {
                    if SGR_FLOOR >= budget - price {
                        return None;
                    }
                    price = price + SGR_FLOOR;
                    style = narrowed_style;
                }
                if price >= budget {
                    return None;
                }
            }
            x = x + 1;
        }
        Some(price)
    }

    /// Price the columns strictly between `from` and `to` against the move that skipping them
    /// needs, and paint through them where they are cheaper. The one place a cell the packet does
    /// not carry is emitted, out of a mirror that knows it.
    fn consider_gap(&mut self, row: &Row, from: u16, to: u16, packet: &Packet, caps: &Capabilities,
        Ghost(start): Ghost<Mirror>, Ghost(exact): Ghost<bool>)
        requires
            orderly(old(self).said@, packet, &start, row.y as int, from + 1),
            spoke_right(old(self).said@, packet, caps, old(self).quant),
            old(self).told(caps.sync),
            old(self).inv(),
            old(self).framed(caps.sync),
            packet.wf(),
            shaped(packet, packet.size.0, packet.size.1),
            row.ok(packet),
            row.y < old(self).mirror.height,
            from < to <= old(self).mirror.width,
            exact ==> consistent(&old(self).mirror, old(self).quant),
            exact ==> forall|x: int| 0 <= x < to ==> #[trigger] old(self).mirror.at(x, row.y as int)
                == target(&start, packet, old(self).quant, x, row.y as int),
            start.width == old(self).mirror.width,
            start.height == old(self).mirror.height,
            forall|x: int| 0 <= x < to ==> #[trigger] settles(&start, packet, old(self).quant, &old(self).mirror, x, row.y as int),
        ensures
            orderly(final(self).said@, packet, &start, row.y as int, to as int),
            heads(old(self).said@, final(self).said@),
            spoke_right(final(self).said@, packet, caps, old(self).quant),
            final(self).told(caps.sync),
            final(self).filter == old(self).filter,
            final(self).lead == old(self).lead,
            final(self).base == old(self).base,
            final(self).inv(),
            final(self).framed(caps.sync),
            final(self).quant == old(self).quant,
            final(self).mirror.width == old(self).mirror.width,
            final(self).mirror.height == old(self).mirror.height,
            exact ==> consistent(&final(self).mirror, final(self).quant),
            exact ==> forall|x: int| 0 <= x < to ==> #[trigger] final(self).mirror.at(x, row.y as int)
                == target(&start, packet, old(self).quant, x, row.y as int),
            forall|x: int| 0 <= x < to ==> #[trigger] settles(&start, packet, old(self).quant, &final(self).mirror, x, row.y as int),
            forall|x: int, y: int| 0 <= x < old(self).mirror.width && 0 <= y < old(self).mirror.height
                && !(y == row.y && x < to) ==> #[trigger] final(self).mirror.at(x, y) == old(self).mirror.at(x, y),
            grows(old(self).out@, final(self).out@),
            old(self).frame_open ==> final(self).frame_open,
    {
        let y = row.y;
        let q = self.quant;
        let (_, move_cost) = self.price_move(to, y);
        proof {
            wire::lemma_decimal_len(y as nat + 1);
            wire::lemma_decimal_len(to as nat + 1);
            lemma_price_is_length(self.cursor, self.non_ascii_on_row, to, y);
            lemma_cost_bound(self.cursor, self.non_ascii_on_row, to, y);
        }
        let price = self.price_gap(row, from + 1, to, packet, gap_budget(self.filter, move_cost));
        proof {
            lemma_grows_append(self.out@, Seq::empty());
            assert(self.out@ + Seq::<u8>::empty() =~= self.out@);
        }
        if !merges(self.filter, price, move_cost, to - from - 1) {
            proof {
                lemma_orderly_later(self.said@, packet, &start, y as int, from + 1, y as int, to as int);
            }
            return;
        }
        let ghost m0 = self.mirror;
        let ghost out0 = self.out@;
        let mut x = from + 1;
        while x < to
            invariant
                self.inv(),
                self.framed(caps.sync),
                packet.wf(),
                shaped(packet, packet.size.0, packet.size.1),
                row.ok(packet),
                y == row.y,
                q == self.quant,
                q == old(self).quant,
                m0 == old(self).mirror,
                out0 == old(self).out@,
                self.told(caps.sync),
                heads(old(self).said@, self.said@),
                orderly(self.said@, packet, &start, y as int, x as int),
                spoke_right(self.said@, packet, caps, self.quant),
                self.filter == old(self).filter,
                self.lead == old(self).lead,
                self.base == old(self).base,
                y < self.mirror.height,
                self.mirror.width == m0.width,
                self.mirror.height == m0.height,
                from + 1 <= x <= to <= self.mirror.width,
                exact ==> consistent(&self.mirror, q),
                forall|x2: int| from + 1 <= x2 < to ==> #[trigger] damaged(packet, x2, y as int)
                    || m0.at(x2, y as int) != Cell::spec_unknown(),
                exact ==> forall|x2: int| 0 <= x2 < to ==> #[trigger] self.mirror.at(x2, y as int) == target(&start, packet, q, x2, y as int),
                exact ==> forall|x2: int| 0 <= x2 < to ==> #[trigger] m0.at(x2, y as int) == target(&start, packet, q, x2, y as int),
                forall|x2: int| 0 <= x2 < to ==> #[trigger] settles(&start, packet, q, &m0, x2, y as int),
                forall|x2: int| 0 <= x2 < to ==> #[trigger] settles(&start, packet, q, &self.mirror, x2, y as int),
                forall|x2: int, y2: int| 0 <= x2 < m0.width && 0 <= y2 < m0.height && !(y2 == y && x2 < x)
                    ==> #[trigger] self.mirror.at(x2, y2) == m0.at(x2, y2),
                grows(out0, self.out@),
                old(self).frame_open ==> self.frame_open,
            decreases to - x,
        {
            let cell = self.gap_cell(row, x, packet);
            if let Some(cell) = cell {
                let ghost m1 = self.mirror;
                let ghost o1 = self.out@;
                proof {
                    if exact {
                        if !damaged(packet, x as int, y as int) {
                            assert(cell == m0.at(x as int, y as int));
                            assert(narrowed(q, cell) == cell);
                        } else {
                            lemma_narrowed_idempotent(q, damaged_cell(packet, x as int, y as int));
                        }
                    }
                }
                proof {
                    assert(settles(&start, packet, q, &m0, x as int, y as int));
                    if !damaged(packet, x as int, y as int) {
                        lemma_unknown_is_narrowed(q);
                    }
                }
                self.emit_cell(x, y, cell, packet, caps, Ghost(start));
                proof {
                    if exact {
                        lemma_consistent_set(&m1, &self.mirror, q, x as int, y as int, cell);
                    }
                    lemma_grows_trans(out0, o1, self.out@);
                    assert(settles(&start, packet, q, &m0, x as int, y as int));
                    if !damaged(packet, x as int, y as int) {
                        assert(cell == m1.at(x as int, y as int));
                        assert(m1.at(x as int, y as int) == m0.at(x as int, y as int));
                        lemma_narrowed_idempotent(q, start.at(x as int, y as int));
                    }
                    assert(settles(&start, packet, q, &self.mirror, x as int, y as int));
                    assert forall|x2: int| 0 <= x2 < to implies #[trigger] settles(&start, packet, q, &self.mirror, x2, y as int) by {
                        if x2 != x {
                            assert(self.mirror.at(x2, y as int) == m1.at(x2, y as int));
                            assert(settles(&start, packet, q, &m1, x2, y as int));
                        }
                    }
                }
            } else {
                proof {
                    lemma_orderly_later(self.said@, packet, &start, y as int, x as int, y as int, x + 1);
                }
            }
            x = x + 1;
        }
    }
}

/// The first column a row's walk has not yet put a cell at: past the last one it put, or the
/// row's start where it has put none.
pub open spec fn next_col(emitted: Option<u16>) -> int {
    match emitted {
        Some(e) => e + 1,
        None => 0,
    }
}

impl Serializer {
    /// How far along row `y` a frame has got: every column before `bound` holds what the frame
    /// wants, every column from `bound` on and every other row is as it was when the row began.
    closed spec fn row_progress(&self, p: &Packet, q: Quantiser, start: &Mirror, entry: &Mirror, y: int, bound: int,
        exact: bool) -> bool {
        &&& exact ==> forall|x: int| 0 <= x < self.mirror.width && x < bound ==> #[trigger] self.mirror.at(x, y)
            == target(start, p, q, x, y)
        &&& forall|x: int| 0 <= x < self.mirror.width && x < bound ==> #[trigger] settles(start, p, q, &self.mirror, x, y)
        &&& forall|x: int| 0 <= x < self.mirror.width && x >= bound ==> #[trigger] self.mirror.at(x, y)
            == entry.at(x, y)
        &&& forall|x: int, j: int| 0 <= x < self.mirror.width && 0 <= j < self.mirror.height && j != y
            ==> #[trigger] self.mirror.at(x, j) == entry.at(x, j)
    }

    /// One run of a row: the equality filter, the gap it opens, and the cells that go out.
    #[verifier::rlimit(40)]
    fn emit_run(
        &mut self,
        row: &Row,
        k: usize,
        base: usize,
        bound: u16,
        emitted: Option<u16>,
        packet: &Packet,
        caps: &Capabilities,
        Ghost(start): Ghost<Mirror>,
        Ghost(entry): Ghost<Mirror>,
        Ghost(out_entry): Ghost<Seq<u8>>,
        Ghost(open_entry): Ghost<bool>,
        Ghost(exact): Ghost<bool>,
    ) -> (e: Option<u16>)
        requires
            orderly(old(self).said@, packet, &start, row.y as int, next_col(emitted)),
            spoke_right(old(self).said@, packet, caps, old(self).quant),
            old(self).told(caps.sync),
            old(self).inv(),
            old(self).framed(caps.sync),
            packet.wf(),
            shaped(packet, packet.size.0, packet.size.1),
            packet.size == (old(self).mirror.width, old(self).mirror.height),
            row.ok(packet),
            row.y < old(self).mirror.height,
            row.start <= k < row.end,
            base == crate::rows::offset(packet.runs@, k as int),
            bound <= packet.runs@[k as int].lo,
            forall|x: int| bound <= x < packet.runs@[k as int].lo ==> !#[trigger] damaged(packet, x, row.y as int),
            exact ==> consistent(&old(self).mirror, old(self).quant),
            entry.width == old(self).mirror.width,
            entry.height == old(self).mirror.height,
            start.width == old(self).mirror.width,
            start.height == old(self).mirror.height,
            forall|x: int| 0 <= x < entry.width && !#[trigger] damaged(packet, x, row.y as int)
                ==> entry.at(x, row.y as int) == start.at(x, row.y as int),
            exact ==> forall|x: int| 0 <= x < entry.width && !#[trigger] damaged(packet, x, row.y as int)
                ==> entry.at(x, row.y as int) == target(&start, packet, old(self).quant, x, row.y as int),
            old(self).row_progress(packet, old(self).quant, &start, &entry, row.y as int, bound as int, exact),
            emitted matches Some(e) ==> e < bound,
            old(self).filter != Filter::Off && quiet_row(packet, &entry, old(self).quant, row.y as int)
                ==> emitted is None && old(self).out@
                == out_entry && old(self).frame_open == open_entry,
            old(self).filter != Filter::Off && quiet_row(packet, &entry, old(self).quant, row.y as int)
                ==> forall|x: int| 0 <= x < entry.width ==> #[trigger] old(self).mirror.at(x, row.y as int) == entry.at(x, row.y as int),
            grows(out_entry, old(self).out@),
            open_entry ==> old(self).frame_open,
        ensures
            orderly(final(self).said@, packet, &start, row.y as int, next_col(e)),
            heads(old(self).said@, final(self).said@),
            spoke_right(final(self).said@, packet, caps, old(self).quant),
            final(self).told(caps.sync),
            final(self).inv(),
            final(self).framed(caps.sync),
            final(self).quant == old(self).quant,
            final(self).mirror.width == old(self).mirror.width,
            final(self).mirror.height == old(self).mirror.height,
            exact ==> consistent(&final(self).mirror, final(self).quant),
            final(self).filter == old(self).filter,
            final(self).lead == old(self).lead,
            final(self).base == old(self).base,
            final(self).row_progress(packet, old(self).quant, &start, &entry, row.y as int,
                packet.runs@[k as int].hi + 1, exact),
            e matches Some(e) ==> e < packet.runs@[k as int].hi + 1,
            old(self).filter != Filter::Off && quiet_row(packet, &entry, old(self).quant, row.y as int)
                ==> e is None && final(self).out@
                == out_entry && final(self).frame_open == open_entry,
            old(self).filter != Filter::Off && quiet_row(packet, &entry, old(self).quant, row.y as int)
                ==> forall|x: int| 0 <= x < entry.width ==> #[trigger] final(self).mirror.at(x, row.y as int) == entry.at(x, row.y as int),
            grows(out_entry, final(self).out@),
            open_entry ==> final(self).frame_open,
            old(self).frame_open ==> final(self).frame_open,
            (exists|x: int| packet.runs@[k as int].lo <= x <= packet.runs@[k as int].hi
                && #[trigger] speaks(packet, &entry, old(self).quant, x, row.y as int)) ==> final(self).frame_open,
    {
        let y = row.y;
        let ghost q = self.quant;
        let ghost w = packet.size.0;
        let ghost h = packet.size.1;
        let r = packet.runs[k];
        assert(r.lo <= r.hi && r.hi < w);
        let len = r.len();
        let ncells = packet.cells.len();
        let mut emitted = emitted;
        let mut i: usize = 0;
        while i < len
            invariant
                self.told(caps.sync),
                heads(old(self).said@, self.said@),
                orderly(self.said@, packet, &start, y as int, next_col(emitted)),
                spoke_right(self.said@, packet, caps, self.quant),
                ncells == packet.cells@.len(),
                self.inv(),
                self.framed(caps.sync),
                packet.wf(),
                shaped(packet, w, h),
                w == packet.size.0,
                h == packet.size.1,
                packet.size == (self.mirror.width, self.mirror.height),
                row.ok(packet),
                y == row.y,
                y < self.mirror.height,
                row.start <= k < row.end,
                r == packet.runs@[k as int],
                r.lo <= r.hi < w,
                len == r.spec_len(),
                base == crate::rows::offset(packet.runs@, k as int),
                0 <= i <= len,
                q == self.quant,
                q == old(self).quant,
                exact ==> consistent(&self.mirror, q),
                entry.width == self.mirror.width,
                entry.height == self.mirror.height,
                exact ==> forall|x: int| 0 <= x < entry.width && !#[trigger] damaged(packet, x, y as int)
                    ==> entry.at(x, y as int) == target(&start, packet, q, x, y as int),
                start.width == entry.width,
                start.height == entry.height,
                forall|x: int| 0 <= x < entry.width && !#[trigger] damaged(packet, x, y as int)
                    ==> entry.at(x, y as int) == start.at(x, y as int),
                self.row_progress(packet, q, &start, &entry, y as int, r.lo + i, exact),
                emitted matches Some(e) ==> e < r.lo + i,
                self.filter == old(self).filter,
                self.lead == old(self).lead,
                self.base == old(self).base,
                self.filter != Filter::Off && quiet_row(packet, &entry, q, y as int) ==> emitted is None
                    && self.out@ == out_entry
                    && self.frame_open == open_entry,
                self.filter != Filter::Off && quiet_row(packet, &entry, q, y as int)
                    ==> forall|x: int| 0 <= x < entry.width ==> #[trigger] self.mirror.at(x, y as int) == entry.at(x, y as int),
                grows(out_entry, self.out@),
                open_entry ==> self.frame_open,
                old(self).frame_open ==> self.frame_open,
                (exists|x: int| r.lo <= x < r.lo + i && #[trigger] speaks(packet, &entry, q, x, y as int)) ==> self.frame_open,
            decreases len - i,
        {
            let x = r.lo + i as u16;
            proof {
                crate::rows::lemma_cell_in_bounds(packet, w, h, k as int, x as int);
                assert(covers(packet.runs@[k as int], x as int, y as int));
                crate::rows::lemma_damaged_unique(packet, w, h, k as int, x as int, y as int);
                lemma_narrowed_idempotent(q, damaged_cell(packet, x as int, y as int));
            }
            let ghost s0 = *self;
            let c = self.narrow(packet.cells[base + i]);
            proof {
                Serializer::lemma_told_same(s0, *self, caps.sync);
            }
            let ghost m1 = self.mirror;
            let ghost o1 = self.out@;
            proof {
                assert(c == narrowed(q, damaged_cell(packet, x as int, y as int)));
            }
            if c.grapheme.is_continuation() {
                let ghost pre = *self;
                self.mirror.set(x, y, c);
                self.said = Ghost(pre.said@.push(Said::Cover { x, y, c }));
                proof {
                    Serializer::lemma_told_cover(pre, *self, caps.sync, x, y, c);
                    lemma_spoke_right_push(pre.said@, Said::Cover { x, y, c }, packet, caps, q);
                    lemma_orderly_cover(pre.said@, Said::Cover { x, y, c }, packet, &start, y as int, next_col(emitted));
                    assert(!speaks(packet, &entry, q, x as int, y as int));
                    if exact {
                        lemma_consistent_set(&m1, &self.mirror, q, x as int, y as int, damaged_cell(packet, x as int, y as int));
                    }
                    assert forall|x2: int| 0 <= x2 < self.mirror.width && x2 < x + 1
                        implies #[trigger] settles(&start, packet, q, &self.mirror, x2, y as int) by {
                        if x2 != x {
                            assert(settles(&start, packet, q, &m1, x2, y as int));
                        }
                    }
                }
            } else if self.filter != Filter::Off && c == self.mirror.cell(x, y) {
                proof {
                    assert(settles(&start, packet, q, &self.mirror, x as int, y as int));
                    assert(self.mirror.at(x as int, y as int) == entry.at(x as int, y as int));
                    assert(!speaks(packet, &entry, q, x as int, y as int));
                }
            } else {
                proof {
                    lemma_grows_append(o1, Seq::empty());
                    assert(o1 + Seq::<u8>::empty() =~= o1);
                }
                if let Some(from) = emitted {
                    if x > from + 1 {
                        self.consider_gap(row, from, x, packet, caps, Ghost(start), Ghost(exact));
                    }
                }
                proof {
                    if !(emitted is Some && x > emitted->0 + 1) {
                        lemma_orderly_later(self.said@, packet, &start, y as int, next_col(emitted), y as int, x as int);
                    }
                }
                let ghost m2 = self.mirror;
                let ghost o2 = self.out@;
                proof {
                    assert forall|x2: int| 0 <= x2 < x implies #[trigger] settles(&start, packet, q, &m2, x2, y as int) by {
                        if emitted is None || x <= emitted->0 + 1 {
                            assert(settles(&start, packet, q, &m1, x2, y as int));
                            assert(m2.at(x2, y as int) == m1.at(x2, y as int));
                        }
                    }
                }
                self.emit_cell(x, y, c, packet, caps, Ghost(start));
                proof {
                    if exact {
                        lemma_consistent_set(&m2, &self.mirror, q, x as int, y as int, c);
                    }
                    lemma_grows_trans(out_entry, o1, o2);
                    lemma_grows_trans(out_entry, o2, self.out@);
                    assert forall|x2: int| 0 <= x2 < self.mirror.width && x2 < x + 1
                        implies #[trigger] settles(&start, packet, q, &self.mirror, x2, y as int) by {
                        if x2 != x {
                            assert(settles(&start, packet, q, &m2, x2, y as int));
                        }
                    }
                }
                emitted = Some(x);
            }
            proof {
                if exists|x2: int| r.lo <= x2 < r.lo + i + 1 && #[trigger] speaks(packet, &entry, q, x2, y as int) {
                    let x2 = choose|x2: int| r.lo <= x2 < r.lo + i + 1 && #[trigger] speaks(packet, &entry, q, x2, y as int);
                    if x2 < x {
                        assert(r.lo <= x2 < r.lo + i);
                    }
                }
            }
            i = i + 1;
        }
        emitted
    }

    /// One row: the equality filter, the gap merge, and the emit loop. The filter is one
    /// comparison against the mirror and nothing else, and what the mirror does not know needs no
    /// branch: no frame cell equals the unknown cell.
    fn emit_row(&mut self, row: &Row, packet: &Packet, caps: &Capabilities, Ghost(start): Ghost<Mirror>,
        Ghost(exact): Ghost<bool>)
        requires
            orderly(old(self).said@, packet, &start, row.y as int, 0),
            spoke_right(old(self).said@, packet, caps, old(self).quant),
            old(self).told(caps.sync),
            old(self).inv(),
            old(self).framed(caps.sync),
            packet.wf(),
            shaped(packet, packet.size.0, packet.size.1),
            packet.size == (old(self).mirror.width, old(self).mirror.height),
            row.ok(packet),
            row.y < old(self).mirror.height,
            exact ==> consistent(&old(self).mirror, old(self).quant),
            exact ==> forall|x: int| 0 <= x < old(self).mirror.width && !#[trigger] damaged(packet, x, row.y as int)
                ==> old(self).mirror.at(x, row.y as int) == target(&start, packet, old(self).quant, x, row.y as int),
            start.width == old(self).mirror.width,
            start.height == old(self).mirror.height,
            forall|x: int| 0 <= x < old(self).mirror.width && !#[trigger] damaged(packet, x, row.y as int)
                ==> old(self).mirror.at(x, row.y as int) == start.at(x, row.y as int),
        ensures
            orderly(final(self).said@, packet, &start, row.y + 1, 0),
            heads(old(self).said@, final(self).said@),
            spoke_right(final(self).said@, packet, caps, old(self).quant),
            final(self).told(caps.sync),
            (exists|x: int| 0 <= x < old(self).mirror.width
                && #[trigger] speaks(packet, &old(self).mirror, old(self).quant, x, row.y as int)) ==> final(self).frame_open,
            forall|x: int| 0 <= x < old(self).mirror.width
                ==> #[trigger] settles(&start, packet, old(self).quant, &final(self).mirror, x, row.y as int),
            final(self).filter == old(self).filter,
            final(self).lead == old(self).lead,
            final(self).base == old(self).base,
            final(self).inv(),
            final(self).framed(caps.sync),
            final(self).quant == old(self).quant,
            final(self).mirror.width == old(self).mirror.width,
            final(self).mirror.height == old(self).mirror.height,
            exact ==> consistent(&final(self).mirror, final(self).quant),
            exact ==> forall|x: int| 0 <= x < old(self).mirror.width ==> #[trigger] final(self).mirror.at(x, row.y as int)
                == target(&start, packet, old(self).quant, x, row.y as int),
            forall|x: int, j: int| 0 <= x < old(self).mirror.width && 0 <= j < old(self).mirror.height && j != row.y
                ==> #[trigger] final(self).mirror.at(x, j) == old(self).mirror.at(x, j),
            grows(old(self).out@, final(self).out@),
            old(self).frame_open ==> final(self).frame_open,
            old(self).filter != Filter::Off && quiet_row(packet, &old(self).mirror, old(self).quant, row.y as int)
                ==> final(self).out@
                == old(self).out@ && final(self).frame_open == old(self).frame_open,
            old(self).filter != Filter::Off && quiet_row(packet, &old(self).mirror, old(self).quant, row.y as int)
                ==> forall|x: int| 0 <= x < old(self).mirror.width
                ==> #[trigger] final(self).mirror.at(x, row.y as int) == old(self).mirror.at(x, row.y as int),
    {
        let ghost entry = self.mirror;
        let ghost out_entry = self.out@;
        let ghost open_entry = self.frame_open;
        let ghost q = self.quant;
        let y = row.y;
        proof {
            lemma_grows_append(out_entry, Seq::empty());
            assert(out_entry + Seq::<u8>::empty() =~= out_entry);
        }
        let ncells = packet.cells.len();
        let mut k = row.start;
        let mut base = row.base;
        let mut bound: u16 = 0;
        let mut emitted: Option<u16> = None;
        while k < row.end
            invariant
                self.told(caps.sync),
                heads(old(self).said@, self.said@),
                orderly(self.said@, packet, &start, y as int, next_col(emitted)),
                spoke_right(self.said@, packet, caps, self.quant),
                ncells == packet.cells@.len(),
                self.inv(),
                self.framed(caps.sync),
                packet.wf(),
                shaped(packet, packet.size.0, packet.size.1),
                packet.size == (self.mirror.width, self.mirror.height),
                row.ok(packet),
                y == row.y,
                y < self.mirror.height,
                row.start <= k <= row.end,
                base == crate::rows::offset(packet.runs@, k as int),
                k == row.start ==> bound == 0,
                k > row.start ==> bound == packet.runs@[k - 1].hi + 1,
                bound <= self.mirror.width,
                q == self.quant,
                q == old(self).quant,
                entry == old(self).mirror,
                out_entry == old(self).out@,
                open_entry == old(self).frame_open,
                exact ==> consistent(&self.mirror, q),
                entry.width == self.mirror.width,
                entry.height == self.mirror.height,
                exact ==> forall|x: int| 0 <= x < entry.width && !#[trigger] damaged(packet, x, y as int)
                    ==> entry.at(x, y as int) == target(&start, packet, q, x, y as int),
                start.width == entry.width,
                start.height == entry.height,
                forall|x: int| 0 <= x < entry.width && !#[trigger] damaged(packet, x, y as int)
                    ==> entry.at(x, y as int) == start.at(x, y as int),
                self.row_progress(packet, q, &start, &entry, y as int, bound as int, exact),
                (exists|x: int| 0 <= x < bound && #[trigger] speaks(packet, &entry, q, x, y as int)) ==> self.frame_open,
                emitted matches Some(e) ==> e < bound,
                self.filter == old(self).filter,
                self.lead == old(self).lead,
                self.base == old(self).base,
                self.filter != Filter::Off && quiet_row(packet, &entry, q, y as int) ==> emitted is None
                    && self.out@ == out_entry
                    && self.frame_open == open_entry,
                self.filter != Filter::Off && quiet_row(packet, &entry, q, y as int)
                    ==> forall|x: int| 0 <= x < entry.width ==> #[trigger] self.mirror.at(x, y as int) == entry.at(x, y as int),
                grows(out_entry, self.out@),
                open_entry ==> self.frame_open,
            decreases row.end - k,
        {
            proof {
                assert forall|x: int| bound <= x < packet.runs@[k as int].lo implies !#[trigger] damaged(packet, x, y as int) by {
                    lemma_undamaged_between(packet, *row, k as int, x);
                }
                if k > row.start {
                    crate::rows::lemma_rows_ascend(packet.runs@, k - 1, k as int);
                }
                crate::rows::lemma_cell_in_bounds(packet, packet.size.0, packet.size.1, k as int, packet.runs@[k as int].hi as int);
            }
            emitted = self.emit_run(row, k, base, bound, emitted, packet, caps, Ghost(start), Ghost(entry),
                Ghost(out_entry), Ghost(open_entry), Ghost(exact));
            let r = packet.runs[k];
            proof {
                if exists|x: int| 0 <= x < r.hi + 1 && #[trigger] speaks(packet, &entry, q, x, y as int) {
                    let x = choose|x: int| 0 <= x < r.hi + 1 && #[trigger] speaks(packet, &entry, q, x, y as int);
                    if x < bound {
                    } else if x < r.lo {
                        lemma_undamaged_between(packet, *row, k as int, x);
                    } else {
                        assert(packet.runs@[k as int].lo <= x <= packet.runs@[k as int].hi);
                    }
                }
            }
            bound = r.hi + 1;
            base = base + r.len();
            k = k + 1;
        }
        proof {
            lemma_orderly_later(self.said@, packet, &start, y as int, next_col(emitted), y + 1, 0);
            if exact {
                assert forall|x: int| 0 <= x < self.mirror.width implies #[trigger] self.mirror.at(x, y as int)
                    == target(&start, packet, q, x, y as int) by {
                    if x >= bound {
                        lemma_undamaged_between(packet, *row, row.end as int, x);
                    }
                }
            }
            if exists|x: int| 0 <= x < self.mirror.width && #[trigger] speaks(packet, &entry, q, x, y as int) {
                let x = choose|x: int| 0 <= x < self.mirror.width && #[trigger] speaks(packet, &entry, q, x, y as int);
                if x >= bound {
                    lemma_undamaged_between(packet, *row, row.end as int, x);
                }
            }
            assert forall|x: int| 0 <= x < self.mirror.width implies #[trigger] settles(&start, packet, q, &self.mirror, x, y as int) by {
                if x >= bound {
                    lemma_undamaged_between(packet, *row, row.end as int, x);
                    assert(self.mirror.at(x, y as int) == entry.at(x, y as int));
                }
            }
        }
    }
}

impl Serializer {
    /// Whether run `k`'s cells, narrowed, are what the mirror shows on row `src` in the same
    /// columns. Where nothing narrows the cells are compared as they are.
    fn run_lands(&self, packet: &Packet, k: usize, base: usize, src: u16) -> (b: bool)
        requires
            self.inv(),
            shaped(packet, packet.size.0, packet.size.1),
            packet.size == (self.mirror.width, self.mirror.height),
            k < packet.runs@.len(),
            base == crate::rows::offset(packet.runs@, k as int),
            src < self.mirror.height,
        ensures
            b == forall|x: int| packet.runs@[k as int].lo <= x <= packet.runs@[k as int].hi
                ==> #[trigger] narrowed(self.quant, crate::rows::cell_in(packet, k as int, x)) == self.mirror.at(x, src as int),
    {
        let ghost w = packet.size.0;
        let ghost h = packet.size.1;
        let r = packet.runs[k];
        assert(r.lo <= r.hi && r.hi < w);
        let len = r.len();
        let ncells = packet.cells.len();
        let narrows = self.quant.narrows();
        let mut i: usize = 0;
        while i < len
            invariant
                self.inv(),
                ncells == packet.cells@.len(),
                shaped(packet, w, h),
                w == packet.size.0,
                h == packet.size.1,
                packet.size == (self.mirror.width, self.mirror.height),
                k < packet.runs@.len(),
                r == packet.runs@[k as int],
                r.lo <= r.hi < w,
                len == r.spec_len(),
                base == crate::rows::offset(packet.runs@, k as int),
                src < self.mirror.height,
                narrows == (self.quant.depth != crate::caps::ColorDepth::TrueColor),
                0 <= i <= len,
                forall|x: int| r.lo <= x < r.lo + i ==> #[trigger] narrowed(self.quant, crate::rows::cell_in(packet, k as int, x))
                    == self.mirror.at(x, src as int),
            decreases len - i,
        {
            let x = r.lo + i as u16;
            proof {
                crate::rows::lemma_cell_in_bounds(packet, w, h, k as int, x as int);
            }
            let want = packet.cells[base + i];
            let shown = self.mirror.cell(x, src);
            let same = if narrows {
                self.quant.cell(want) == shown
            } else {
                want == shown
            };
            if !same {
                assert(!(narrowed(self.quant, crate::rows::cell_in(packet, k as int, x as int)) == self.mirror.at(x as int, src as int)));
                return false;
            }
            i = i + 1;
        }
        true
    }

    /// Whether any cell this row damaged is not already on the terminal.
    fn row_changed(&self, packet: &Packet, row: &Row) -> (b: bool)
        requires
            self.inv(),
            shaped(packet, packet.size.0, packet.size.1),
            packet.size == (self.mirror.width, self.mirror.height),
            row.ok(packet),
            row.y < self.mirror.height,
        ensures
            b == !quiet_row(packet, &self.mirror, self.quant, row.y as int),
    {
        let ghost w = packet.size.0;
        let ghost h = packet.size.1;
        let ncells = packet.cells.len();
        let mut k = row.start;
        let mut base = row.base;
        while k < row.end
            invariant
                self.inv(),
                ncells == packet.cells@.len(),
                shaped(packet, w, h),
                w == packet.size.0,
                h == packet.size.1,
                packet.size == (self.mirror.width, self.mirror.height),
                row.ok(packet),
                row.y < self.mirror.height,
                row.start <= k <= row.end,
                base == crate::rows::offset(packet.runs@, k as int),
                forall|j: int, x: int| row.start <= j < k && packet.runs@[j].lo <= x <= packet.runs@[j].hi
                    ==> #[trigger] narrowed(self.quant, crate::rows::cell_in(packet, j, x)) == self.mirror.at(x, row.y as int),
            decreases row.end - k,
        {
            proof {
                crate::rows::lemma_cell_in_bounds(packet, w, h, k as int, packet.runs@[k as int].hi as int);
            }
            if !self.run_lands(packet, k, base, row.y) {
                proof {
                    let x = choose|x: int| packet.runs@[k as int].lo <= x <= packet.runs@[k as int].hi
                        && !(narrowed(self.quant, crate::rows::cell_in(packet, k as int, x)) == self.mirror.at(x, row.y as int));
                    assert(covers(packet.runs@[k as int], x, row.y as int));
                    crate::rows::lemma_damaged_unique(packet, w, h, k as int, x, row.y as int);
                }
                return true;
            }
            let r = packet.runs[k];
            base = base + r.len();
            k = k + 1;
        }
        proof {
            assert forall|x: int| 0 <= x < self.mirror.width && #[trigger] damaged(packet, x, row.y as int)
                implies narrowed(self.quant, damaged_cell(packet, x, row.y as int)) == self.mirror.at(x, row.y as int) by {
                let j = choose|j: int| 0 <= j < packet.runs@.len() && #[trigger] covers(packet.runs@[j], x, row.y as int);
                assert(covers(packet.runs@[j], x, row.y as int));
                row.lemma_only(packet, w, h, j);
                crate::rows::lemma_damaged_unique(packet, w, h, j, x, row.y as int);
                assert(narrowed(self.quant, crate::rows::cell_in(packet, j, x)) == self.mirror.at(x, row.y as int));
            }
        }
        false
    }

    /// The band a scroll could be in: the first and last rows on which this frame wants something
    /// other than what the mirror shows. `None` when fewer than two rows changed.
    fn changed_band(&self, packet: &Packet) -> (r: Option<(u16, u16)>)
        requires
            self.inv(),
            shaped(packet, packet.size.0, packet.size.1),
            packet.size == (self.mirror.width, self.mirror.height),
        ensures
            r matches Some((t, b)) ==> t < b < self.mirror.height,
            r matches Some((t, b)) ==> !quiet_row(packet, &self.mirror, self.quant, t as int)
                && !quiet_row(packet, &self.mirror, self.quant, b as int),
            r matches Some((t, b)) ==> forall|y: int| 0 <= y < self.mirror.height && (y < t || b < y)
                ==> #[trigger] quiet_row(packet, &self.mirror, self.quant, y),
            r is None ==> forall|y1: int, y2: int| 0 <= y1 < y2 < self.mirror.height
                ==> #[trigger] quiet_row(packet, &self.mirror, self.quant, y1) || #[trigger] quiet_row(packet, &self.mirror, self.quant, y2),
            quiet(packet, &self.mirror, self.quant) ==> r is None,
    {
        let ghost hgt = self.mirror.height as int;
        let n = packet.runs.len();
        let mut top: Option<u16> = None;
        let mut bot: u16 = 0;
        let mut i: usize = 0;
        let mut base: usize = 0;
        proof {
            assert forall|y: int| 0 <= y < frontier(packet, 0, hgt) implies #[trigger] quiet_row(packet, &self.mirror, self.quant, y) by {
                lemma_quiet_between(packet, &self.mirror, self.quant, 0, y);
            }
        }
        while i < n
            invariant
                self.inv(),
                shaped(packet, packet.size.0, packet.size.1),
                packet.size == (self.mirror.width, self.mirror.height),
                hgt == self.mirror.height,
                n == packet.runs@.len(),
                i <= n,
                base == crate::rows::offset(packet.runs@, i as int),
                i == 0 || i == n || packet.runs@[i - 1].y != packet.runs@[i as int].y,
                top matches Some(t) ==> t <= bot < frontier(packet, i as int, hgt),
                top matches Some(t) ==> !quiet_row(packet, &self.mirror, self.quant, t as int)
                    && !quiet_row(packet, &self.mirror, self.quant, bot as int),
                top matches Some(t) ==> forall|y: int| 0 <= y < frontier(packet, i as int, hgt) && (y < t || bot < y)
                    ==> #[trigger] quiet_row(packet, &self.mirror, self.quant, y),
                top is None ==> forall|y: int| 0 <= y < frontier(packet, i as int, hgt)
                    ==> #[trigger] quiet_row(packet, &self.mirror, self.quant, y),
                quiet(packet, &self.mirror, self.quant) ==> top is None,
            decreases n - i,
        {
            let row = next_row(packet, i, base);
            proof {
                assert(packet.runs@[row.start as int].y < self.mirror.height);
                if row.end < n {
                    crate::rows::lemma_rows_ascend(packet.runs@, row.end - 1, row.end as int);
                    assert(packet.runs@[row.end - 1].y == row.y);
                    assert(packet.runs@[row.end as int].y < self.mirror.height);
                }
                assert(packet.runs@[row.end - 1].y == row.y);
                assert forall|y: int| row.y < y < frontier(packet, row.end as int, hgt)
                    implies #[trigger] quiet_row(packet, &self.mirror, self.quant, y) by {
                    lemma_quiet_between(packet, &self.mirror, self.quant, row.end as int, y);
                }
            }
            let changed = self.row_changed(packet, &row);
            if changed {
                proof {
                    if quiet(packet, &self.mirror, self.quant) {
                        assert(quiet_row(packet, &self.mirror, self.quant, row.y as int));
                    }
                }
                if top.is_none() {
                    top = Some(row.y);
                }
                bot = row.y;
            }
            i = row.end;
            base = row.stop;
        }
        match top {
            Some(t) => if bot > t {
                Some((t, bot))
            } else {
                proof {
                    assert forall|y1: int, y2: int| 0 <= y1 < y2 < self.mirror.height
                        implies #[trigger] quiet_row(packet, &self.mirror, self.quant, y1)
                        || #[trigger] quiet_row(packet, &self.mirror, self.quant, y2) by {
                        if y1 != t {
                            assert(quiet_row(packet, &self.mirror, self.quant, y1));
                        } else {
                            assert(quiet_row(packet, &self.mirror, self.quant, y2));
                        }
                    }
                }
                None
            },
            None => {
                proof {
                    assert forall|y1: int, y2: int| 0 <= y1 < y2 < self.mirror.height
                        implies #[trigger] quiet_row(packet, &self.mirror, self.quant, y1)
                        || #[trigger] quiet_row(packet, &self.mirror, self.quant, y2) by {
                        assert(quiet_row(packet, &self.mirror, self.quant, y1));
                    }
                }
                None
            },
        }
    }

    /// The columns `lo..hi` that this frame did not damage land where the scroll puts them only if
    /// the two rows already agree, and a column the mirror does not know refuses the scroll: two
    /// unknown cells compare equal, and that equality is false.
    fn undamaged_span_lands_on(&self, y: u16, src: u16, lo: u16, hi: u16) -> (b: bool)
        requires
            self.inv(),
            y < self.mirror.height,
            src < self.mirror.height,
            lo <= hi <= self.mirror.width,
        ensures
            b == forall|x: int| lo <= x < hi ==> #[trigger] self.mirror.at(x, y as int) != Cell::spec_unknown()
                && self.mirror.at(x, y as int) == self.mirror.at(x, src as int),
    {
        let want = self.mirror.span(y, lo, hi);
        let shown = self.mirror.span(src, lo, hi);
        let mut i: usize = 0;
        while i < want.len()
            invariant
                self.inv(),
                want@ == self.mirror.rows@[y as int]@.subrange(lo as int, hi as int),
                shown@ == self.mirror.rows@[src as int]@.subrange(lo as int, hi as int),
                y < self.mirror.height,
                src < self.mirror.height,
                lo <= hi <= self.mirror.width,
                0 <= i <= want@.len(),
                forall|x: int| lo <= x < lo + i ==> #[trigger] self.mirror.at(x, y as int) != Cell::spec_unknown()
                    && self.mirror.at(x, y as int) == self.mirror.at(x, src as int),
            decreases want@.len() - i,
        {
            if want[i] == Cell::unknown() || want[i] != shown[i] {
                proof {
                    let x = lo + i;
                    assert(want@[i as int] == self.mirror.at(x, y as int));
                    assert(shown@[i as int] == self.mirror.at(x, src as int));
                    assert(!(self.mirror.at(x, y as int) != Cell::spec_unknown()
                        && self.mirror.at(x, y as int) == self.mirror.at(x, src as int)));
                }
                return false;
            }
            i = i + 1;
        }
        true
    }

    /// Whether the columns `lo..hi` of row `y` are all blank.
    fn span_is_blank(&self, y: u16, lo: u16, hi: u16) -> (b: bool)
        requires
            self.inv(),
            y < self.mirror.height,
            lo <= hi <= self.mirror.width,
        ensures
            b == forall|x: int| lo <= x < hi ==> #[trigger] self.mirror.at(x, y as int) == Cell::spec_blank(),
    {
        let span = self.mirror.span(y, lo, hi);
        let blank = Cell::blank();
        let mut i: usize = 0;
        while i < span.len()
            invariant
                self.inv(),
                span@ == self.mirror.rows@[y as int]@.subrange(lo as int, hi as int),
                y < self.mirror.height,
                lo <= hi <= self.mirror.width,
                blank == Cell::spec_blank(),
                0 <= i <= span@.len(),
                forall|x: int| lo <= x < lo + i ==> #[trigger] self.mirror.at(x, y as int) == Cell::spec_blank(),
            decreases span@.len() - i,
        {
            if span[i] != blank {
                proof {
                    let x = lo + i;
                    assert(span@[i as int] == self.mirror.at(x, y as int));
                    assert(self.mirror.at(x, y as int) != Cell::spec_blank());
                }
                return false;
            }
            i = i + 1;
        }
        true
    }
}

/// What a row lookup says: the row's runs where the frame damaged it, and no run on it where not.
pub open spec fn row_found(p: &Packet, row: Option<Row>, y: int) -> bool {
    match row {
        Some(r) => r.ok(p) && r.y == y,
        None => forall|k: int| 0 <= k < p.runs@.len() ==> (#[trigger] p.runs@[k]).y != y,
    }
}

impl Serializer {
    /// **Obligation 1.** Whether what this frame wants on row `y` is what the mirror already shows
    /// on row `src`, in every column, undamaged ones included: the row is walked as the alternating
    /// spans its runs cut it into.
    fn row_lands_on(&self, packet: &Packet, row: Option<Row>, y: u16, src: u16) -> (b: bool)
        requires
            self.inv(),
            shaped(packet, packet.size.0, packet.size.1),
            packet.size == (self.mirror.width, self.mirror.height),
            row_found(packet, row, y as int),
            y < self.mirror.height,
            src < self.mirror.height,
        ensures
            b == forall|x: int| 0 <= x < self.mirror.width ==> #[trigger] lands(packet, &self.mirror, self.quant, x, y as int, src as int),
    {
        let ghost w = packet.size.0;
        let ghost h = packet.size.1;
        let width = self.mirror.width;
        let mut x: u16 = 0;
        if let Some(row) = row {
            let ncells = packet.cells.len();
            let mut k = row.start;
            let mut base = row.base;
            while k < row.end
                invariant
                    self.inv(),
                    ncells == packet.cells@.len(),
                    shaped(packet, w, h),
                    w == packet.size.0,
                    h == packet.size.1,
                    packet.size == (self.mirror.width, self.mirror.height),
                    width == self.mirror.width,
                    row.ok(packet),
                    row.y == y,
                    y < self.mirror.height,
                    src < self.mirror.height,
                    row.start <= k <= row.end,
                    base == crate::rows::offset(packet.runs@, k as int),
                    k == row.start ==> x == 0,
                    k > row.start ==> x == packet.runs@[k - 1].hi + 1,
                    x <= width,
                    forall|x2: int| 0 <= x2 < x ==> #[trigger] lands(packet, &self.mirror, self.quant, x2, y as int, src as int),
                decreases row.end - k,
            {
                let r = packet.runs[k];
                proof {
                    if k > row.start {
                        crate::rows::lemma_rows_ascend(packet.runs@, k - 1, k as int);
                    }
                    crate::rows::lemma_cell_in_bounds(packet, w, h, k as int, r.hi as int);
                }
                if !self.undamaged_span_lands_on(y, src, x, r.lo) {
                    proof {
                        let x2 = choose|x2: int| x <= x2 < r.lo && !(#[trigger] self.mirror.at(x2, y as int) != Cell::spec_unknown()
                            && self.mirror.at(x2, y as int) == self.mirror.at(x2, src as int));
                        lemma_undamaged_between(packet, row, k as int, x2);
                        assert(!lands(packet, &self.mirror, self.quant, x2, y as int, src as int));
                    }
                    return false;
                }
                if !self.run_lands(packet, k, base, src) {
                    proof {
                        let x2 = choose|x2: int| r.lo <= x2 <= r.hi && !(#[trigger] narrowed(self.quant, crate::rows::cell_in(packet, k as int, x2))
                            == self.mirror.at(x2, src as int));
                        assert(covers(packet.runs@[k as int], x2, y as int));
                        crate::rows::lemma_damaged_unique(packet, w, h, k as int, x2, y as int);
                        assert(!lands(packet, &self.mirror, self.quant, x2, y as int, src as int));
                    }
                    return false;
                }
                proof {
                    assert forall|x2: int| 0 <= x2 <= r.hi implies #[trigger] lands(packet, &self.mirror, self.quant, x2, y as int, src as int) by {
                        if x <= x2 < r.lo {
                            lemma_undamaged_between(packet, row, k as int, x2);
                        } else if r.lo <= x2 {
                            assert(covers(packet.runs@[k as int], x2, y as int));
                            crate::rows::lemma_damaged_unique(packet, w, h, k as int, x2, y as int);
                        }
                    }
                }
                base = base + r.len();
                x = r.hi + 1;
                k = k + 1;
            }
            if !self.undamaged_span_lands_on(y, src, x, width) {
                proof {
                    let x2 = choose|x2: int| x <= x2 < width && !(#[trigger] self.mirror.at(x2, y as int) != Cell::spec_unknown()
                        && self.mirror.at(x2, y as int) == self.mirror.at(x2, src as int));
                    lemma_undamaged_between(packet, row, row.end as int, x2);
                    assert(!lands(packet, &self.mirror, self.quant, x2, y as int, src as int));
                }
                return false;
            }
            proof {
                assert forall|x2: int| 0 <= x2 < self.mirror.width implies #[trigger] lands(packet, &self.mirror, self.quant, x2, y as int, src as int) by {
                    if x2 >= x {
                        lemma_undamaged_between(packet, row, row.end as int, x2);
                    }
                }
            }
            true
        } else {
            let b = self.undamaged_span_lands_on(y, src, 0, width);
            proof {
                assert forall|x2: int| 0 <= x2 < self.mirror.width implies !#[trigger] damaged(packet, x2, y as int) by {
                    if damaged(packet, x2, y as int) {
                        let j = choose|j: int| 0 <= j < packet.runs@.len() && #[trigger] covers(packet.runs@[j], x2, y as int);
                        assert(covers(packet.runs@[j], x2, y as int));
                    }
                }
                assert forall|x2: int| 0 <= x2 < self.mirror.width && b implies #[trigger] lands(packet, &self.mirror, self.quant, x2, y as int, src as int) by {
                    assert(!damaged(packet, x2, y as int));
                }
                if !b {
                    let x2 = choose|x2: int| 0 <= x2 < width && !(#[trigger] self.mirror.at(x2, y as int) != Cell::spec_unknown()
                        && self.mirror.at(x2, y as int) == self.mirror.at(x2, src as int));
                    assert(!damaged(packet, x2, y as int));
                    assert(!lands(packet, &self.mirror, self.quant, x2, y as int, src as int));
                }
            }
            b
        }
    }

    /// **Obligation 2.** Whether row `y` may be left for the terminal to erase: every column this
    /// frame does not repaint must be blank already. Asked per cell, not per row: the columns the
    /// frame repaints need not be known at all.
    fn exposed_row_is_clear(&self, packet: &Packet, y: u16) -> (b: bool)
        requires
            self.inv(),
            shaped(packet, packet.size.0, packet.size.1),
            packet.size == (self.mirror.width, self.mirror.height),
            y < self.mirror.height,
        ensures
            b == forall|x: int| 0 <= x < self.mirror.width && !#[trigger] damaged(packet, x, y as int)
                ==> self.mirror.at(x, y as int) == Cell::spec_blank(),
    {
        let ghost w = packet.size.0;
        let ghost h = packet.size.1;
        let width = self.mirror.width;
        let mut x: u16 = 0;
        match find_row(packet, y) {
            Some(row) => {
                let mut k = row.start;
                while k < row.end
                    invariant
                        self.inv(),
                        shaped(packet, w, h),
                        w == packet.size.0,
                        h == packet.size.1,
                        packet.size == (self.mirror.width, self.mirror.height),
                        width == self.mirror.width,
                        row.ok(packet),
                        row.y == y,
                        y < self.mirror.height,
                        row.start <= k <= row.end,
                        k == row.start ==> x == 0,
                        k > row.start ==> x == packet.runs@[k - 1].hi + 1,
                        x <= width,
                        forall|x2: int| 0 <= x2 < x && !#[trigger] damaged(packet, x2, y as int)
                            ==> self.mirror.at(x2, y as int) == Cell::spec_blank(),
                    decreases row.end - k,
                {
                    let r = packet.runs[k];
                    proof {
                        if k > row.start {
                            crate::rows::lemma_rows_ascend(packet.runs@, k - 1, k as int);
                        }
                    }
                    if !self.span_is_blank(y, x, r.lo) {
                        proof {
                            let x2 = choose|x2: int| x <= x2 < r.lo && #[trigger] self.mirror.at(x2, y as int) != Cell::spec_blank();
                            lemma_undamaged_between(packet, row, k as int, x2);
                            assert(!damaged(packet, x2, y as int));
                        }
                        return false;
                    }
                    proof {
                        assert forall|x2: int| 0 <= x2 <= r.hi && !#[trigger] damaged(packet, x2, y as int)
                            implies self.mirror.at(x2, y as int) == Cell::spec_blank() by {
                            if r.lo <= x2 {
                                assert(covers(packet.runs@[k as int], x2, y as int));
                            }
                        }
                    }
                    x = r.hi + 1;
                    k = k + 1;
                }
                let b = self.span_is_blank(y, x, width);
                proof {
                    if b {
                        assert forall|x2: int| 0 <= x2 < width && !#[trigger] damaged(packet, x2, y as int)
                            implies self.mirror.at(x2, y as int) == Cell::spec_blank() by {
                            if x2 >= x {
                                assert(self.mirror.at(x2, y as int) == Cell::spec_blank());
                            }
                        }
                    } else {
                        let x2 = choose|x2: int| x <= x2 < width && #[trigger] self.mirror.at(x2, y as int) != Cell::spec_blank();
                        lemma_undamaged_between(packet, row, row.end as int, x2);
                    }
                }
                b
            },
            None => {
                let b = self.span_is_blank(y, 0, width);
                proof {
                    assert forall|x2: int| 0 <= x2 < width implies !#[trigger] damaged(packet, x2, y as int) by {
                        if damaged(packet, x2, y as int) {
                            let j = choose|j: int| 0 <= j < packet.runs@.len() && #[trigger] covers(packet.runs@[j], x2, y as int);
                            assert(covers(packet.runs@[j], x2, y as int));
                        }
                    }
                    if !b {
                        let x2 = choose|x2: int| 0 <= x2 < width && #[trigger] self.mirror.at(x2, y as int) != Cell::spec_blank();
                        assert(!damaged(packet, x2, y as int));
                    }
                }
                b
            },
        }
    }

    /// Both obligations, in the order they fail: the handful of exposed rows first, then every row
    /// the scroll moves, walked with a cursor over the packet rather than a lookup per row.
    fn both_obligations_hold(&self, packet: &Packet, s: Scroll) -> (b: bool)
        requires
            self.inv(),
            shaped(packet, packet.size.0, packet.size.1),
            packet.size == (self.mirror.width, self.mirror.height),
            s.valid(self.mirror.height),
        ensures
            b == obligations(packet, &self.mirror, self.quant, s),
            b == ((forall|x: int, y: int| 0 <= x < self.mirror.width && s.spec_exposes(y) && !#[trigger] damaged(packet, x, y)
                ==> self.mirror.at(x, y) == Cell::spec_blank())
                && (forall|x: int, y: int| 0 <= x < self.mirror.width && s.spec_moves(y)
                ==> #[trigger] lands(packet, &self.mirror, self.quant, x, y, s.spec_source(y)))),
    {
        let (elo, ehi) = s.exposed();
        let mut y = elo;
        while y <= ehi
            invariant
                self.inv(),
                shaped(packet, packet.size.0, packet.size.1),
                packet.size == (self.mirror.width, self.mirror.height),
                s.valid(self.mirror.height),
                (elo, ehi) == s.spec_exposed(),
                elo <= y <= ehi + 1,
                forall|x: int, y2: int| 0 <= x < self.mirror.width && elo <= y2 < y && !#[trigger] damaged(packet, x, y2)
                    ==> self.mirror.at(x, y2) == Cell::spec_blank(),
            decreases ehi + 1 - y,
        {
            if !self.exposed_row_is_clear(packet, y) {
                proof {
                    let x = choose|x: int| 0 <= x < self.mirror.width && !#[trigger] damaged(packet, x, y as int)
                        && self.mirror.at(x, y as int) != Cell::spec_blank();
                    assert(s.spec_exposes(y as int));
                }
                return false;
            }
            y = y + 1;
        }
        let (lo, hi) = s.moved();
        let n = packet.runs.len();
        let mut i: usize = 0;
        let mut base: usize = 0;
        let mut y = lo;
        while y <= hi
            invariant
                self.inv(),
                shaped(packet, packet.size.0, packet.size.1),
                packet.size == (self.mirror.width, self.mirror.height),
                s.valid(self.mirror.height),
                (lo, hi) == s.spec_moved(),
                n == packet.runs@.len(),
                lo <= y <= hi + 1,
                i <= n,
                base == crate::rows::offset(packet.runs@, i as int),
                i == 0 || i == n || packet.runs@[i - 1].y != packet.runs@[i as int].y,
                forall|k: int| 0 <= k < i ==> (#[trigger] packet.runs@[k]).y < y,
                forall|x: int, y2: int| 0 <= x < self.mirror.width && lo <= y2 < y
                    ==> #[trigger] lands(packet, &self.mirror, self.quant, x, y2, s.spec_source(y2)),
            decreases hi + 1 - y,
        {
            while i < n && packet.runs[i].y < y
                invariant
                    shaped(packet, packet.size.0, packet.size.1),
                    n == packet.runs@.len(),
                    i <= n,
                    base == crate::rows::offset(packet.runs@, i as int),
                    i == 0 || i == n || packet.runs@[i - 1].y != packet.runs@[i as int].y,
                    forall|k: int| 0 <= k < i ==> (#[trigger] packet.runs@[k]).y < y,
                decreases n - i,
            {
                let r = next_row(packet, i, base);
                proof {
                    if r.end < n {
                        crate::rows::lemma_rows_ascend(packet.runs@, r.end - 1, r.end as int);
                    }
                }
                i = r.end;
                base = r.stop;
            }
            let row = if i < n && packet.runs[i].y == y {
                Some(next_row(packet, i, base))
            } else {
                proof {
                    assert forall|k: int| 0 <= k < packet.runs@.len() implies (#[trigger] packet.runs@[k]).y != y by {
                        if k >= i {
                            crate::rows::lemma_rows_ascend(packet.runs@, i as int, k);
                        }
                    }
                }
                None
            };
            if !self.row_lands_on(packet, row, y, s.source(y)) {
                proof {
                    let x = choose|x: int| 0 <= x < self.mirror.width
                        && !#[trigger] lands(packet, &self.mirror, self.quant, x, y as int, s.spec_source(y as int));
                    assert(s.spec_moves(y as int));
                }
                return false;
            }
            y = y + 1;
        }
        true
    }

    /// The first candidate scroll of the band `top..=bot`: both directions at every distance,
    /// smallest first, each asked obligation 1 of the one row at the band's edge it would fill.
    /// Exactly one candidate is ever verified, so this returns one or none.
    fn probe(&self, packet: &Packet, top: u16, bot: u16) -> (r: Option<Scroll>)
        requires
            self.inv(),
            shaped(packet, packet.size.0, packet.size.1),
            packet.size == (self.mirror.width, self.mirror.height),
            top < bot < self.mirror.height,
        ensures
            r matches Some(s) ==> s.valid(self.mirror.height) && s.band == (top, bot),
            r matches Some(s) ==> exists|k: int| 0 <= k < 2 * (bot - top) && s == candidate(top, bot, k)
                && edge_lands(packet, &self.mirror, self.quant, s)
                && forall|j: int| 0 <= j < k ==> !#[trigger] edge_lands(packet, &self.mirror, self.quant, candidate(top, bot, j)),
            r is None ==> forall|k: int| 0 <= k < 2 * (bot - top)
                ==> !#[trigger] edge_lands(packet, &self.mirror, self.quant, candidate(top, bot, k)),
    {
        let top_row = find_row(packet, top);
        let bot_row = find_row(packet, bot);
        let n: u32 = 2 * (bot - top) as u32;
        let mut k: u32 = 0;
        while k < n
            invariant
                self.inv(),
                shaped(packet, packet.size.0, packet.size.1),
                packet.size == (self.mirror.width, self.mirror.height),
                top < bot < self.mirror.height,
                n == 2 * (bot - top),
                row_found(packet, top_row, top as int),
                row_found(packet, bot_row, bot as int),
                k <= n,
                forall|j: int| 0 <= j < k ==> !#[trigger] edge_lands(packet, &self.mirror, self.quant, candidate(top, bot, j)),
            decreases n - k,
        {
            let s = Scroll { band: (top, bot), up: k % 2 == 0, by: (k / 2 + 1) as u16 };
            assert(s == candidate(top, bot, k as int));
            let edge = if s.up { top } else { bot };
            let row = if s.up { top_row } else { bot_row };
            if self.row_lands_on(packet, row, edge, s.source(edge)) {
                assert(edge as int == edge_row(s));
                assert(edge_lands(packet, &self.mirror, self.quant, s));
                return Some(s);
            }
            proof {
                let x = choose|x: int| 0 <= x < self.mirror.width
                    && !#[trigger] lands(packet, &self.mirror, self.quant, x, edge as int, s.spec_source(edge as int));
                assert(edge as int == edge_row(s));
                assert(!lands(packet, &self.mirror, self.quant, x, edge_row(s), s.spec_source(edge_row(s))));
            }
            k = k + 1;
        }
        None
    }
}

/// Whether a thing said is the scroll a frame chooses against what the terminal shows, `m`, with
/// both of its obligations met.
pub open spec fn the_scroll(e: Said, p: &Packet, m: &Mirror, q: Quantiser) -> bool {
    match e {
        Said::Scroll { s, height } => height == m.height && chosen(p, m, q, s) && obligations(p, m, q, s),
        _ => false,
    }
}

/// Both obligations of a scroll against mirror `m`: every column of an exposed row that the frame
/// does not repaint is blank already, and every column of a moved row lands from its source.
pub open spec fn obligations(p: &Packet, m: &Mirror, q: Quantiser, s: Scroll) -> bool {
    &&& forall|x: int, y: int| 0 <= x < m.width && s.spec_exposes(y) && !#[trigger] damaged(p, x, y)
        ==> m.at(x, y) == Cell::spec_blank()
    &&& forall|x: int, y: int| 0 <= x < m.width && s.spec_moves(y) ==> #[trigger] lands(p, m, q, x, y, s.spec_source(y))
}

/// The band of rows a frame changes: `top` and `bot` changed, `top < bot`, and no row outside
/// the band changed.
pub open spec fn band_is(p: &Packet, m: &Mirror, q: Quantiser, top: u16, bot: u16) -> bool {
    &&& top < bot < m.height
    &&& !quiet_row(p, m, q, top as int)
    &&& !quiet_row(p, m, q, bot as int)
    &&& forall|y: int| 0 <= y < m.height && (y < top || bot < y) ==> #[trigger] quiet_row(p, m, q, y)
}

/// The one scroll the pre-pass verifies: on the band the frame changes, the first candidate in the
/// probe's order whose edge row lands.
pub open spec fn chosen(p: &Packet, m: &Mirror, q: Quantiser, s: Scroll) -> bool {
    &&& band_is(p, m, q, s.band.0, s.band.1)
    &&& exists|k: int| 0 <= k < 2 * (s.band.1 - s.band.0) && s == candidate(s.band.0, s.band.1, k)
        && edge_lands(p, m, q, s)
        && forall|j: int| 0 <= j < k ==> !#[trigger] edge_lands(p, m, q, candidate(s.band.0, s.band.1, j))
}

/// A frame changes one band at most.
proof fn lemma_band_unique(p: &Packet, m: &Mirror, q: Quantiser, t1: u16, b1: u16, t2: u16, b2: u16)
    requires
        band_is(p, m, q, t1, b1),
        band_is(p, m, q, t2, b2),
    ensures
        t1 == t2 && b1 == b2,
{
    if t1 < t2 {
        assert(quiet_row(p, m, q, t1 as int));
    } else if t2 < t1 {
        assert(quiet_row(p, m, q, t2 as int));
    }
    if b1 < b2 {
        assert(quiet_row(p, m, q, b2 as int));
    } else if b2 < b1 {
        assert(quiet_row(p, m, q, b1 as int));
    }
}

/// The `k`th scroll the probe tries on the band `top..=bot`: up and down alternately, one row
/// further every second try.
pub open spec fn candidate(top: u16, bot: u16, k: int) -> Scroll {
    Scroll { band: (top, bot), up: k % 2 == 0, by: (k / 2 + 1) as u16 }
}

/// Obligation 1 at the one row a scroll fills at the edge of its band: the top row of a scroll
/// up, the bottom row of a scroll down.
pub open spec fn edge_lands(p: &Packet, m: &Mirror, q: Quantiser, s: Scroll) -> bool {
    row_lands(p, m, q, edge_row(s), s.spec_source(edge_row(s)))
}

/// The row at the edge of its band that a scroll fills.
pub open spec fn edge_row(s: Scroll) -> int {
    if s.up {
        s.band.0 as int
    } else {
        s.band.1 as int
    }
}

/// Obligation 1 on row `y`: every column of it lands right when row `src` moves onto it.
pub open spec fn row_lands(p: &Packet, m: &Mirror, q: Quantiser, y: int, src: int) -> bool {
    forall|x: int| 0 <= x < m.width ==> #[trigger] lands(p, m, q, x, y, src)
}

/// What the mirror held when a frame began: nothing known after a repaint.
pub open spec fn before(m: &Mirror, repaint: bool, x: int, y: int) -> Cell {
    if repaint {
        Cell::spec_unknown()
    } else {
        m.at(x, y)
    }
}

/// What a frame leaves the mirror holding at `(x, y)`: the packet's cell, narrowed, where the
/// frame damaged it, and what the terminal showed before where it did not.
pub open spec fn frame_target(m: &Mirror, repaint: bool, p: &Packet, q: Quantiser, x: int, y: int) -> Cell {
    if damaged(p, x, y) {
        narrowed(q, damaged_cell(p, x, y))
    } else {
        before(m, repaint, x, y)
    }
}

/// The SGR that moves the terminal from style word `from` to `to`.
#[verifier::opaque]
pub open spec fn style_bytes(from: Style, to: Style, packet: &Packet, caps: &Capabilities, q: Quantiser) -> Seq<u8> {
    wire::spec_sgr_delta(from, to, packet, caps, q)
}

/// The bytes a cluster goes out as: its own, or a space where the packet cannot spell it.
pub open spec fn emitted_text(g: GraphemeId, p: &Packet) -> Seq<u8> {
    match wire::spec_text_of(g, p) {
        Some(b) => b,
        None => seq![32u8],
    }
}

/// A cell a frame has to say something about: damaged, not the second column of a wide cluster,
/// and not, narrowed, what `m` shows.
pub open spec fn speaks(p: &Packet, m: &Mirror, q: Quantiser, x: int, y: int) -> bool {
    &&& damaged(p, x, y)
    &&& !(narrowed(q, damaged_cell(p, x, y)).grapheme is Continuation)
    &&& narrowed(q, damaged_cell(p, x, y)) != m.at(x, y)
}

/// A cell a frame has to say something about, against what the terminal showed when it began.
pub open spec fn frame_speaks(m: &Mirror, repaint: bool, p: &Packet, q: Quantiser, x: int, y: int) -> bool {
    &&& damaged(p, x, y)
    &&& !(narrowed(q, damaged_cell(p, x, y)).grapheme is Continuation)
    &&& narrowed(q, damaged_cell(p, x, y)) != before(m, repaint, x, y)
}

/// Where a frame leaves `(x, y)`, whatever the mirror held: a damaged cell holds the frame's cell,
/// narrowed, and any other holds what the terminal showed before, or that repainted narrowed.
pub open spec fn frame_settles(m: &Mirror, repaint: bool, p: &Packet, q: Quantiser, now: &Mirror, x: int, y: int) -> bool {
    if damaged(p, x, y) {
        now.at(x, y) == narrowed(q, damaged_cell(p, x, y))
    } else {
        now.at(x, y) == before(m, repaint, x, y) || now.at(x, y) == narrowed(q, before(m, repaint, x, y))
    }
}

/// A frame that changes nothing: every cell it damaged is, narrowed, what the terminal shows.
pub open spec fn quiet_frame(m: &Mirror, repaint: bool, p: &Packet, q: Quantiser) -> bool {
    forall|x: int, y: int| 0 <= x < m.width && 0 <= y < m.height && #[trigger] damaged(p, x, y)
        ==> narrowed(q, damaged_cell(p, x, y)) == before(m, repaint, x, y)
}

/// **A frame presented twice is sent once**: once a frame has been serialised, the mirror holds
/// every cell it damaged, narrowed, so the same packet against that mirror is a frame that changes
/// nothing, and [`Serializer::serialize`] sends nothing for it.
pub proof fn lemma_a_frame_sent_twice_is_sent_once(m0: Mirror, m1: Mirror, repaint: bool, p: Packet, q: Quantiser)
    requires
        m1.width == m0.width,
        m1.height == m0.height,
        forall|x: int, y: int| 0 <= x < m1.width && 0 <= y < m1.height
            ==> #[trigger] m1.at(x, y) == frame_target(&m0, repaint, &p, q, x, y),
    ensures
        quiet_frame(&m1, false, &p, q),
{
    assert forall|x: int, y: int| 0 <= x < m1.width && 0 <= y < m1.height && #[trigger] damaged(&p, x, y)
        implies narrowed(q, damaged_cell(&p, x, y)) == before(&m1, false, x, y) by {
        assert(m1.at(x, y) == frame_target(&m0, repaint, &p, q, x, y));
    }
}

impl Serializer {
    /// The scroll region: `DECSTBM` + `SU`/`SD`, **verified before a byte is emitted**. The filter
    /// behind it can only emit cells the packet carries, and `SU` moves every column of every row
    /// in the band, so the one candidate the probe finds is held to both obligations first. What
    /// comes back is the rows it settled: they already hold what the frame wants.
    fn scroll_prepass(&mut self, packet: &Packet, caps: &Capabilities) -> (settled: Option<(u16, u16)>)
        requires
            spoke_right(old(self).said@, packet, caps, old(self).quant),
            old(self).told(caps.sync),
            old(self).inv(),
            old(self).framed(caps.sync),
            shaped(packet, packet.size.0, packet.size.1),
            packet.size == (old(self).mirror.width, old(self).mirror.height),
        ensures
            spoke_right(final(self).said@, packet, caps, old(self).quant),
            final(self).told(caps.sync),
            final(self).filter == old(self).filter,
            final(self).lead == old(self).lead,
            final(self).base == old(self).base,
            final(self).inv(),
            final(self).framed(caps.sync),
            final(self).quant == old(self).quant,
            final(self).mirror.width == old(self).mirror.width,
            final(self).mirror.height == old(self).mirror.height,
            consistent(&old(self).mirror, old(self).quant) ==> consistent(&final(self).mirror, final(self).quant),
            forall|x: int, y: int| 0 <= x < old(self).mirror.width && 0 <= y < old(self).mirror.height
                && !#[trigger] damaged(packet, x, y) ==> final(self).mirror.at(x, y) == old(self).mirror.at(x, y),
            settled matches Some((lo, hi)) ==> lo <= hi < old(self).mirror.height,
            settled matches Some((lo, hi)) ==> forall|x: int, y: int| 0 <= x < old(self).mirror.width && lo <= y <= hi
                ==> #[trigger] final(self).mirror.at(x, y) == target(&old(self).mirror, packet, old(self).quant, x, y),
            settled is None ==> final(self).mirror == old(self).mirror && final(self).out == old(self).out
                && final(self).frame_open == old(self).frame_open,
            quiet(packet, &old(self).mirror, old(self).quant) ==> settled is None,
            (forall|y1: int, y2: int| 0 <= y1 < y2 < old(self).mirror.height
                ==> #[trigger] quiet_row(packet, &old(self).mirror, old(self).quant, y1)
                || #[trigger] quiet_row(packet, &old(self).mirror, old(self).quant, y2)) ==> settled is None,
            settled matches Some((lo, hi)) ==> exists|s: Scroll| #[trigger] chosen(packet, &old(self).mirror, old(self).quant, s)
                && obligations(packet, &old(self).mirror, old(self).quant, s) && s.spec_moved() == (lo, hi)
                && final(self).cursor is None,
            settled is None ==> forall|s: Scroll| #[trigger] chosen(packet, &old(self).mirror, old(self).quant, s)
                ==> !obligations(packet, &old(self).mirror, old(self).quant, s),
            settled is Some ==> final(self).frame_open,
            settled is None ==> final(self).said == old(self).said,
            settled is Some ==> final(self).said@ == old(self).said@.push(final(self).said@.last())
                && the_scroll(final(self).said@.last(), packet, &old(self).mirror, old(self).quant),
            grows(old(self).out@, final(self).out@),
            old(self).frame_open ==> final(self).frame_open,
    {
        proof {
            lemma_grows_append(self.out@, Seq::empty());
            assert(self.out@ + Seq::<u8>::empty() =~= self.out@);
        }
        let (top, bot) = match self.changed_band(packet) {
            Some(b) => b,
            None => {
                proof {
                    assert forall|s: Scroll| #[trigger] chosen(packet, &self.mirror, self.quant, s)
                        implies !obligations(packet, &self.mirror, self.quant, s) by {
                        assert(quiet_row(packet, &self.mirror, self.quant, s.band.0 as int)
                            || quiet_row(packet, &self.mirror, self.quant, s.band.1 as int));
                    }
                }
                return None;
            },
        };
        let s = match self.probe(packet, top, bot) {
            Some(s) => s,
            None => {
                proof {
                    assert forall|s2: Scroll| #[trigger] chosen(packet, &self.mirror, self.quant, s2)
                        implies !obligations(packet, &self.mirror, self.quant, s2) by {
                        lemma_band_unique(packet, &self.mirror, self.quant, s2.band.0, s2.band.1, top, bot);
                        let k = choose|k: int| 0 <= k < 2 * (s2.band.1 - s2.band.0) && s2 == candidate(s2.band.0, s2.band.1, k)
                            && edge_lands(packet, &self.mirror, self.quant, s2)
                            && forall|j: int| 0 <= j < k ==> !#[trigger] edge_lands(packet, &self.mirror, self.quant, candidate(s2.band.0, s2.band.1, j));
                        assert(!edge_lands(packet, &self.mirror, self.quant, candidate(top, bot, k)));
                    }
                }
                return None;
            },
        };
        proof {
            assert(chosen(packet, &self.mirror, self.quant, s));
            assert forall|s2: Scroll| #[trigger] chosen(packet, &self.mirror, self.quant, s2) implies s2 == s by {
                lemma_band_unique(packet, &self.mirror, self.quant, s2.band.0, s2.band.1, top, bot);
                let k = choose|k: int| 0 <= k < 2 * (bot - top) && s == candidate(top, bot, k)
                    && edge_lands(packet, &self.mirror, self.quant, s)
                    && forall|j: int| 0 <= j < k ==> !#[trigger] edge_lands(packet, &self.mirror, self.quant, candidate(top, bot, j));
                let k2 = choose|k2: int| 0 <= k2 < 2 * (s2.band.1 - s2.band.0) && s2 == candidate(s2.band.0, s2.band.1, k2)
                    && edge_lands(packet, &self.mirror, self.quant, s2)
                    && forall|j: int| 0 <= j < k2 ==> !#[trigger] edge_lands(packet, &self.mirror, self.quant, candidate(s2.band.0, s2.band.1, j));
                if k < k2 {
                    assert(!edge_lands(packet, &self.mirror, self.quant, candidate(top, bot, k)));
                } else if k2 < k {
                    assert(!edge_lands(packet, &self.mirror, self.quant, candidate(top, bot, k2)));
                }
            }
        }
        if !self.both_obligations_hold(packet, s) {
            return None;
        }
        let ghost m0 = self.mirror;
        let ghost q = self.quant;
        let ghost o0 = self.out@;
        self.emit_scroll(s, caps);
        proof {
            if old(self).frame_open {
                lemma_grows_append(o0, scroll_bytes(s, m0.height));
            } else {
                assert(self.out@.subrange(0, o0.len() as int) =~= o0);
            }
            lemma_blank_is_narrowed(q);
            if consistent(&m0, q) {
                assert forall|x: int, y: int| 0 <= x < m0.width && 0 <= y < m0.height && self.mirror.at(x, y)
                    != Cell::spec_unknown() implies #[trigger] narrowed(q, self.mirror.at(x, y)) == self.mirror.at(x, y) by {
                    assert(self.mirror.at(x, y) == scrolled_at(&m0, s, x, y));
                    if s.spec_moves(y) {
                        assert(narrowed(q, m0.at(x, s.spec_source(y))) == m0.at(x, s.spec_source(y)));
                    }
                }
            }
            assert forall|x: int, y: int| 0 <= x < m0.width && 0 <= y < m0.height && !#[trigger] damaged(packet, x, y)
                implies self.mirror.at(x, y) == m0.at(x, y) by {
                assert(self.mirror.at(x, y) == scrolled_at(&m0, s, x, y));
                if s.spec_moves(y) {
                    assert(lands(packet, &m0, q, x, y, s.spec_source(y)));
                }
            }
            assert forall|x: int, y: int| 0 <= x < m0.width && s.spec_moved().0 <= y <= s.spec_moved().1
                implies #[trigger] self.mirror.at(x, y) == target(&m0, packet, q, x, y) by {
                assert(self.mirror.at(x, y) == scrolled_at(&m0, s, x, y));
                assert(lands(packet, &m0, q, x, y, s.spec_source(y)));
            }
        }
        Some(s.moved())
    }

    /// Serialise a packet against what the terminal is showing, and return the bytes to send. The
    /// slice is valid until the next call.
    ///
    /// `caps` is what the terminal can parse: the two SGR forms, the underline-colour spelling,
    /// whether OSC 8 is worth emitting and whether the frame is wrapped in mode 2026 are all read
    /// from it and from nowhere else.
    ///
    /// The bytes are the mouse change, then, where the frame says anything of the picture, its
    /// opening, everything it said in order (the scroll, if one was chosen, then each cell in
    /// reading order, as its move, its style change and its own bytes), the OSC 8 that closes a
    /// hyperlink left open, the caret placed from where the last cell left the cursor, and the end
    /// of the synchronised update; where it says nothing, the caret alone.
    #[verifier::rlimit(60)]
    pub fn serialize(&mut self, packet: &Packet, caps: &Capabilities) -> (out: &[u8])
        requires
            old(self).wf(),
            packet.wf(),
            shaped(packet, packet.size.0, packet.size.1),
            packet.size == (old(self).spec_mirror().width, old(self).spec_mirror().height),
        ensures
            final(self).wf(),
            final(self).spec_link().id == 0,
            out@ == final(self).spec_out(),
            final(self).spec_mirror().width == old(self).spec_mirror().width,
            final(self).spec_mirror().height == old(self).spec_mirror().height,
            final(self).spec_quant().made_for(caps),
            final(self).spec_filter() == old(self).spec_filter(),
            forall|x: int, y: int| 0 <= x < final(self).spec_mirror().width && 0 <= y < final(self).spec_mirror().height
                ==> #[trigger] final(self).spec_base().at(x, y) == before(&old(self).spec_mirror(), packet.repaint, x, y),
            forall|x: int, y: int| 0 <= x < final(self).spec_mirror().width && 0 <= y < final(self).spec_mirror().height
                ==> #[trigger] final(self).spec_mirror().at(x, y) == shown(final(self).spec_said(), &final(self).spec_base(), x, y),
            forall|i: int| 0 <= i < final(self).spec_said().len()
                ==> #[trigger] put_lands(final(self).spec_said(), i, final(self).spec_mirror().width),
            spoke_right(final(self).spec_said(), packet, caps, final(self).spec_quant()),
            orderly(final(self).spec_said(), packet, &final(self).spec_base(), final(self).spec_mirror().height as int, 0),
            final(self).spec_said().len() > 0 && final(self).spec_said()[0] is Scroll ==> the_scroll(
                final(self).spec_said()[0], packet, &final(self).spec_base(), final(self).spec_quant()),
            (exists|s: Scroll| #[trigger] chosen(packet, &final(self).spec_base(), final(self).spec_quant(), s)
                && obligations(packet, &final(self).spec_base(), final(self).spec_quant(), s))
                ==> final(self).spec_said().len() > 0 && the_scroll(final(self).spec_said()[0], packet,
                &final(self).spec_base(), final(self).spec_quant()),
            !final(self).spec_frame_open() ==> out@ == packet.actuation.mouse@ + caret_bytes(&packet.actuation, false, None, false)
                && flatten(final(self).spec_said()) == Seq::<u8>::empty(),
            final(self).spec_frame_open() ==> out@ == packet.actuation.mouse@ + frame_prefix(caps.sync)
                + flatten(final(self).spec_said()) + link_close(link_after(final(self).spec_said()))
                + caret_bytes(&packet.actuation, true, cursor_after(final(self).spec_said(), final(self).spec_mirror().width),
                na_after(final(self).spec_said())) + frame_suffix(caps.sync),
            packet.runs@.len() == 0 ==> !final(self).spec_frame_open(),
            forall|x: int, y: int| 0 <= x < final(self).spec_mirror().width && 0 <= y < final(self).spec_mirror().height
                ==> #[trigger] frame_settles(&old(self).spec_mirror(), packet.repaint, packet, final(self).spec_quant(),
                &final(self).spec_mirror(), x, y),
            (exists|x: int, y: int| 0 <= x < old(self).spec_mirror().width && 0 <= y < old(self).spec_mirror().height
                && #[trigger] frame_speaks(&old(self).spec_mirror(), packet.repaint, packet, final(self).spec_quant(), x, y))
                ==> final(self).spec_frame_open(),
            packet.repaint || consistent(&old(self).spec_mirror(), final(self).spec_quant()) ==> {
                &&& consistent(&final(self).spec_mirror(), final(self).spec_quant())
                &&& forall|x: int, y: int| 0 <= x < final(self).spec_mirror().width && 0 <= y < final(self).spec_mirror().height
                    ==> #[trigger] final(self).spec_mirror().at(x, y) == frame_target(&old(self).spec_mirror(),
                    packet.repaint, packet, final(self).spec_quant(), x, y)
            },
            old(self).spec_filter() != Filter::Off && quiet_frame(&old(self).spec_mirror(), packet.repaint, packet,
                final(self).spec_quant()) ==> !final(self).spec_frame_open(),
            old(self).spec_filter() != Filter::Off && quiet_frame(&old(self).spec_mirror(), packet.repaint, packet,
                final(self).spec_quant()) ==> forall|x: int, y: int| 0 <= x < final(self).spec_mirror().width
                && 0 <= y < final(self).spec_mirror().height
                ==> #[trigger] final(self).spec_mirror().at(x, y) == before(&old(self).spec_mirror(), packet.repaint, x, y),
    {
        let ghost m_old = self.mirror;
        self.out.clear();
        append_bytes(&mut self.out, packet.actuation.mouse.as_slice());
        self.lead = Ghost(self.out@);
        self.frame_open = false;
        self.quant = Quantiser::for_terminal(caps);
        self.memo = None;
        let ghost q = self.quant;
        let sync = caps.sync_output();
        if packet.repaint() {
            self.mirror.forget();
        }
        let ghost start = self.mirror;
        self.said = Ghost(Seq::empty());
        self.base = Ghost(start);
        proof {
            reveal(Serializer::told);
            assert(flatten(self.said@) =~= Seq::<u8>::empty());
            assert(self.told(caps.sync));
            assert(spoke_right(self.said@, packet, caps, self.quant));
            assert forall|x: int, y: int| 0 <= x < start.width && 0 <= y < start.height implies #[trigger] start.at(x, y)
                == before(&m_old, packet.repaint, x, y) by {}
            assert(self.out@ == self.lead@);
        }
        if packet.is_empty() {
            proof {
                assert forall|x: int, y: int| 0 <= x < start.width && 0 <= y < start.height implies #[trigger] self.mirror.at(x, y)
                    == frame_target(&m_old, packet.repaint, packet, q, x, y) by {
                    if damaged(packet, x, y) {
                        let k = choose|k: int| 0 <= k < packet.runs@.len() && #[trigger] covers(packet.runs@[k], x, y);
                    }
                }
                assert forall|x: int, y: int| 0 <= x < start.width && 0 <= y < start.height implies
                    #[trigger] frame_settles(&m_old, packet.repaint, packet, q, &self.mirror, x, y) by {
                    if damaged(packet, x, y) {
                        let k = choose|k: int| 0 <= k < packet.runs@.len() && #[trigger] covers(packet.runs@[k], x, y);
                    }
                }
                assert forall|x: int, y: int| 0 <= x < start.width && 0 <= y < start.height implies
                    !#[trigger] frame_speaks(&m_old, packet.repaint, packet, q, x, y) by {
                    if damaged(packet, x, y) {
                        let k = choose|k: int| 0 <= k < packet.runs@.len() && #[trigger] covers(packet.runs@[k], x, y);
                    }
                }
            }
            proof {
                reveal(Serializer::told);
                lemma_orderly_start(self.said@, packet, &start, start.height as int, 0);
                if exists|s: Scroll| #[trigger] chosen(packet, &start, q, s) && obligations(packet, &start, q, s) {
                    let s = choose|s: Scroll| #[trigger] chosen(packet, &start, q, s) && obligations(packet, &start, q, s);
                    assert(!quiet_row(packet, &start, q, s.band.0 as int));
                    let x = choose|x: int| 0 <= x < start.width && #[trigger] damaged(packet, x, s.band.0 as int)
                        && narrowed(q, damaged_cell(packet, x, s.band.0 as int)) != start.at(x, s.band.0 as int);
                    let k = choose|k: int| 0 <= k < packet.runs@.len() && #[trigger] covers(packet.runs@[k], x, s.band.0 as int);
                }
            }
            self.emit_caret(packet.actuation());
            return self.out.as_slice();
        }
        proof {
            if packet.repaint || consistent(&m_old, q) {
                assert forall|x: int, y: int| 0 <= x < start.width && 0 <= y < start.height && start.at(x, y)
                    != Cell::spec_unknown() implies #[trigger] narrowed(q, start.at(x, y)) == start.at(x, y) by {
                    assert(start.at(x, y) == before(&m_old, packet.repaint, x, y));
                }
            }
            if quiet_frame(&m_old, packet.repaint, packet, q) {
                assert forall|y: int| 0 <= y < start.height implies #[trigger] quiet_row(packet, &start, q, y) by {
                    assert forall|x: int| 0 <= x < start.width && #[trigger] damaged(packet, x, y)
                        implies narrowed(q, damaged_cell(packet, x, y)) == start.at(x, y) by {
                        assert(start.at(x, y) == before(&m_old, packet.repaint, x, y));
                    }
                }
            }
        }
        let ghost exact = consistent(&start, q);
        let settled = self.scroll_prepass(packet, caps);
        let ghost said1 = self.said@;
        proof {
            if settled is Some {
                assert(said1.len() == 1);
                assert(said1[0] == said1.last());
            }
            lemma_orderly_start(said1, packet, &start, frontier(packet, 0, start.height as int), 0);
        }
        let ghost m1 = self.mirror;
        let n = packet.runs.len();
        let mut i: usize = 0;
        let mut base: usize = 0;
        while i < n
            invariant
                self.inv(),
                self.framed(caps.sync),
                self.quant == q,
                q.made_for(caps),
                packet.wf(),
                shaped(packet, packet.size.0, packet.size.1),
                packet.size == (self.mirror.width, self.mirror.height),
                self.mirror.width == start.width,
                self.mirror.height == start.height,
                m1.width == start.width,
                m1.height == start.height,
                n == packet.runs@.len(),
                n > 0,
                i <= n,
                base == crate::rows::offset(packet.runs@, i as int),
                i == 0 || i == n || packet.runs@[i - 1].y != packet.runs@[i as int].y,
                i == 0 ==> self.mirror == m1,
                exact ==> consistent(&self.mirror, q),
                forall|x: int, y: int| 0 <= x < start.width && 0 <= y < start.height
                    && !#[trigger] damaged(packet, x, y) ==> m1.at(x, y) == start.at(x, y),
                settled matches Some((lo, hi)) ==> forall|x: int, y: int| 0 <= x < start.width && lo <= y <= hi
                    ==> #[trigger] m1.at(x, y) == target(&start, packet, q, x, y),
                forall|x: int, y: int| 0 <= x < start.width && 0 <= y < start.height
                    && (i == n || y < packet.runs@[i as int].y) ==> #[trigger] settles(&start, packet, q, &self.mirror, x, y),
                settled matches Some((lo, hi)) ==> lo <= hi < start.height,
                exact ==> forall|x: int, y: int| 0 <= x < start.width && 0 <= y < start.height
                    && (i == n || y < packet.runs@[i as int].y) ==> #[trigger] self.mirror.at(x, y) == target(&start, packet, q, x, y),
                forall|x: int, y: int| 0 <= x < start.width && 0 <= y < start.height
                    && i < n && y >= packet.runs@[i as int].y ==> #[trigger] self.mirror.at(x, y) == m1.at(x, y),
                self.filter == old(self).filter,
                self.lead@ == packet.actuation.mouse@,
                self.told(caps.sync),
                spoke_right(self.said@, packet, caps, q),
                self.base@ == start,
                orderly(self.said@, packet, &start, frontier(packet, i as int, start.height as int), 0),
                heads(said1, self.said@),
                settled is None ==> said1.len() == 0,
                settled is Some ==> said1.len() == 1 && the_scroll(said1[0], packet, &start, q),
                settled is Some ==> self.frame_open,
                settled is None ==> m1 == start,
                (exists|x: int, y: int| 0 <= x < start.width && 0 <= y < start.height && (i == n || y < packet.runs@[i as int].y)
                    && #[trigger] speaks(packet, &start, q, x, y)) ==> self.frame_open,
                quiet(packet, &start, q) ==> m1 == start,
                self.filter != Filter::Off && quiet(packet, &start, q) ==> self.out@ == self.lead@ && !self.frame_open,
                self.filter != Filter::Off && quiet(packet, &start, q) ==> forall|x: int, y: int| 0 <= x < start.width
                    && 0 <= y < start.height ==> #[trigger] self.mirror.at(x, y) == start.at(x, y),
            decreases n - i,
        {
            let row = next_row(packet, i, base);
            proof {
                assert(packet.runs@[row.start as int].y < start.height);
            }
            let skip = match settled {
                Some((lo, hi)) => lo <= row.y && row.y <= hi,
                None => false,
            };
            let ghost m2 = self.mirror;
            proof {
                assert forall|x: int| 0 <= x < self.mirror.width && !#[trigger] damaged(packet, x, row.y as int)
                    implies self.mirror.at(x, row.y as int) == start.at(x, row.y as int) by {
                    assert(self.mirror.at(x, row.y as int) == m1.at(x, row.y as int));
                }
            }
            if !skip {
                proof {
                    if exact {
                        assert forall|x: int| 0 <= x < self.mirror.width && !#[trigger] damaged(packet, x, row.y as int)
                            implies self.mirror.at(x, row.y as int) == target(&start, packet, q, x, row.y as int) by {
                            assert(self.mirror.at(x, row.y as int) == m1.at(x, row.y as int));
                        }
                    }
                    if self.filter != Filter::Off && quiet(packet, &start, q) {
                        assert(quiet_row(packet, &start, q, row.y as int));
                        assert forall|x: int| 0 <= x < self.mirror.width && #[trigger] damaged(packet, x, row.y as int)
                            implies narrowed(q, damaged_cell(packet, x, row.y as int)) == self.mirror.at(x, row.y as int) by {
                            assert(self.mirror.at(x, row.y as int) == m1.at(x, row.y as int));
                        }
                    }
                }
                proof {
                    if settled is None {
                        assert forall|x: int| 0 <= x < start.width && #[trigger] speaks(packet, &start, q, x, row.y as int)
                            implies speaks(packet, &self.mirror, q, x, row.y as int) by {
                            assert(self.mirror.at(x, row.y as int) == m1.at(x, row.y as int));
                        }
                    }
                }
                self.emit_row(&row, packet, caps, Ghost(start), Ghost(exact));
            } else {
                proof {
                    assert forall|x: int| 0 <= x < start.width implies #[trigger] settles(&start, packet, q, &self.mirror, x, row.y as int) by {
                        assert(self.mirror.at(x, row.y as int) == m1.at(x, row.y as int));
                        assert(m1.at(x, row.y as int) == target(&start, packet, q, x, row.y as int));
                    }
                }
            }
            proof {
                if row.end < n {
                    crate::rows::lemma_rows_ascend(packet.runs@, row.end - 1, row.end as int);
                }
                assert forall|x: int, y: int| 0 <= x < start.width && 0 <= y < start.height && row.y < y
                    && (row.end == n || y < packet.runs@[row.end as int].y) implies !#[trigger] damaged(packet, x, y) by {
                    if damaged(packet, x, y) {
                        let k = choose|k: int| 0 <= k < packet.runs@.len() && #[trigger] covers(packet.runs@[k], x, y);
                        assert(covers(packet.runs@[k], x, y));
                        if k < row.end {
                            crate::rows::lemma_rows_ascend(packet.runs@, k, row.end - 1);
                        } else {
                            crate::rows::lemma_rows_ascend(packet.runs@, row.end as int, k);
                        }
                    }
                }
                if exists|x: int, y: int| 0 <= x < start.width && 0 <= y < start.height
                    && (row.end == n || y < packet.runs@[row.end as int].y) && #[trigger] speaks(packet, &start, q, x, y) {
                    let (x, y) = choose|x: int, y: int| 0 <= x < start.width && 0 <= y < start.height
                        && (row.end == n || y < packet.runs@[row.end as int].y) && #[trigger] speaks(packet, &start, q, x, y);
                    if y > row.y {
                        assert(!damaged(packet, x, y));
                    } else if y == row.y && !skip && settled is None {
                        assert(speaks(packet, &m2, q, x, y));
                    }
                }
                assert forall|x: int, y: int| 0 <= x < start.width && 0 <= y < start.height
                    && (row.end == n || y < packet.runs@[row.end as int].y)
                    implies #[trigger] settles(&start, packet, q, &self.mirror, x, y) by {
                    if y < row.y {
                        assert(settles(&start, packet, q, &m2, x, y));
                        assert(self.mirror.at(x, y) == m2.at(x, y));
                    } else if y > row.y {
                        assert(!damaged(packet, x, y));
                        assert(self.mirror.at(x, y) == m2.at(x, y));
                        assert(m2.at(x, y) == m1.at(x, y));
                    }
                }
            }
            proof {
                assert(frontier(packet, i as int, start.height as int) == row.y);
                if row.end < n {
                    assert(packet.runs@[row.end as int].y > row.y);
                }
                if skip {
                    lemma_orderly_later(self.said@, packet, &start, row.y as int, 0,
                        frontier(packet, row.end as int, start.height as int), 0);
                } else {
                    lemma_orderly_later(self.said@, packet, &start, row.y + 1, 0,
                        frontier(packet, row.end as int, start.height as int), 0);
                }
            }
            i = row.end;
            base = row.stop;
        }
        proof {
            assert forall|x: int, y: int| 0 <= x < start.width && 0 <= y < start.height implies
                #[trigger] frame_settles(&m_old, packet.repaint, packet, q, &self.mirror, x, y) by {
                assert(settles(&start, packet, q, &self.mirror, x, y));
                assert(start.at(x, y) == before(&m_old, packet.repaint, x, y));
            }
            if exists|x: int, y: int| 0 <= x < start.width && 0 <= y < start.height
                && #[trigger] frame_speaks(&m_old, packet.repaint, packet, q, x, y) {
                let (x, y) = choose|x: int, y: int| 0 <= x < start.width && 0 <= y < start.height
                    && #[trigger] frame_speaks(&m_old, packet.repaint, packet, q, x, y);
                assert(start.at(x, y) == before(&m_old, packet.repaint, x, y));
                assert(speaks(packet, &start, q, x, y));
                assert(self.frame_open);
            }
        }
        proof {
            reveal(Serializer::told);
        }
        if self.frame_open {
            let ghost o0 = self.out@;
            let ghost said = self.said@;
            if !self.link.is_none() {
                wire::emit_osc8(&mut self.out, None);
                self.link = LinkId::none();
            }
            let ghost o1 = self.out@;
            proof {
                assert(o0 == self.lead@ + frame_prefix(caps.sync) + flatten(said));
                assert(o1 =~= o0 + link_close(link_after(said)));
            }
            let ghost c1 = self.cursor;
            let ghost na1 = self.non_ascii_on_row;
            self.emit_caret(packet.actuation());
            let ghost o2 = self.out@;
            if sync {
                push_sync(&mut self.out, true);
            }
            proof {
                assert(self.out@ =~= o2 + frame_suffix(caps.sync));
                assert(self.out@ =~= self.lead@ + frame_prefix(caps.sync) + flatten(said) + link_close(link_after(said))
                    + caret_bytes(&packet.actuation, true, c1, na1) + frame_suffix(caps.sync));
                assert(self.out@.subrange(0, (self.lead@ + frame_prefix(caps.sync)).len() as int)
                    =~= self.lead@ + frame_prefix(caps.sync));
            }
        } else {
            self.link = LinkId::none();
            self.emit_caret(packet.actuation());
            proof {
                assert(self.out@ =~= self.lead@ + caret_bytes(&packet.actuation, false, None, false));
            }
        }
        self.out.as_slice()
    }

    /// The caret: shape, then position, then visibility. A frame that never opened never reset the
    /// cursor, so what it knows of the cursor is nothing. The caret is placed where it went
    /// somewhere, where it has just been shown, or where this frame wrote a cell, and only then.
    fn emit_caret(&mut self, a: &Actuation)
        ensures
            final(self).out@ == old(self).out@ + caret_bytes(a, old(self).frame_open, old(self).cursor,
                old(self).non_ascii_on_row),
            final(self).filter == old(self).filter,
            final(self).lead == old(self).lead,
            final(self).said == old(self).said,
            final(self).base == old(self).base,
            final(self).mirror == old(self).mirror,
            final(self).quant == old(self).quant,
            final(self).memo == old(self).memo,
            final(self).frame_open == old(self).frame_open,
            final(self).link == old(self).link,
            final(self).style == old(self).style,
            caret_goes(a, old(self).frame_open) ==> final(self).cursor == a.caret,
            !caret_goes(a, old(self).frame_open) ==> final(self).cursor == (if old(self).frame_open { old(self).cursor } else { None }),
    {
        if !self.frame_open {
            self.cursor = None;
        }
        let ghost o0 = self.out@;
        append_bytes(&mut self.out, a.shape.as_slice());
        let ghost o1 = self.out@;
        if let Some((x, y)) = a.caret {
            let shown = match a.show {
                Some(true) => true,
                _ => false,
            };
            if a.moved || shown || self.frame_open {
                self.move_to(x, y, false);
            }
        }
        let ghost o2 = self.out@;
        append_bytes(&mut self.out, a.visibility.as_slice());
        proof {
            let c0 = if old(self).frame_open { old(self).cursor } else { None };
            let mv = o2.subrange(o1.len() as int, o2.len() as int);
            assert(o2 =~= o1 + mv);
            assert(self.out@ =~= old(self).out@ + (a.shape@ + mv + a.visibility@));
            assert(a.shape@ + mv + a.visibility@ =~= caret_bytes(a, old(self).frame_open, old(self).cursor, old(self).non_ascii_on_row));
        }
    }
}

/// Whether a frame places the caret: it has somewhere to go, and it went there, has just been shown,
/// or the frame wrote a cell and so moved the terminal's cursor away from it.
pub open spec fn caret_goes(a: &Actuation, open: bool) -> bool {
    a.caret is Some && (a.moved || a.show == Some(true) || open)
}

/// What the caret costs on the wire: its shape, a move to it where it is placed and the cursor is
/// not already there, then its visibility. A frame that never opened knows nothing of the cursor.
pub open spec fn caret_bytes(a: &Actuation, open: bool, cursor: Option<(u16, u16)>, non_ascii: bool) -> Seq<u8> {
    let c0 = if open { cursor } else { None };
    let mv = match a.caret {
        Some((x, y)) => if caret_goes(a, open) && c0 != Some((x, y)) {
            move_bytes(spec_price_move(c0, non_ascii, x, y).0, c0, x, y)
        } else {
            Seq::empty()
        },
        None => Seq::empty(),
    };
    a.shape@ + mv + a.visibility@
}

/// What the terminal's hyperlink does when the style word becomes `style` while `l0` is open:
/// the OSC 8 that retargets it, and the link open afterwards. A terminal without OSC 8 is sent
/// none and keeps what it had; the same link is left alone; a link whose URI the packet does not
/// carry closes the one open.
pub open spec fn link_step(style: Style, packet: &Packet, caps: &Capabilities, q: Quantiser, l0: LinkId) -> (Seq<u8>, LinkId) {
    let want = wire::spec_channels_of(style, packet, q).link;
    if !caps.hyperlinks || want == l0 {
        (Seq::empty(), l0)
    } else {
        match packet.spec_link(want) {
            Some(u) => (wire::spec_osc8(Some(u)), want),
            None => (wire::spec_osc8(None), LinkId { id: 0 }),
        }
    }
}

/// One thing said went out right: a cell as its own bytes, after exactly the SGR that changes the
/// style word and the OSC 8 that retargets the hyperlink where the word changed, and nothing
/// where it did not.
pub open spec fn put_right(e: Said, packet: &Packet, caps: &Capabilities, q: Quantiser) -> bool {
    match e {
        Said::Put { c, s0, l0, l1, st, text, .. } => {
            &&& text == emitted_text(c.grapheme, packet)
            &&& c.style == s0 ==> st.len() == 0 && l1 == l0
            &&& c.style != s0 ==> st == style_bytes(s0, c.style, packet, caps, q)
                + link_step(c.style, packet, caps, q, l0).0
            &&& c.style != s0 ==> l1 == link_step(c.style, packet, caps, q, l0).1
        },
        _ => true,
    }
}

/// Every cell said so far went out right.
pub open spec fn spoke_right(said: Seq<Said>, packet: &Packet, caps: &Capabilities, q: Quantiser) -> bool {
    forall|i: int| 0 <= i < said.len() ==> #[trigger] put_right(said[i], packet, caps, q)
}

/// Saying one more thing that was said right keeps everything said right.
proof fn lemma_spoke_right_push(said: Seq<Said>, e: Said, packet: &Packet, caps: &Capabilities, q: Quantiser)
    requires
        spoke_right(said, packet, caps, q),
        put_right(e, packet, caps, q),
    ensures
        spoke_right(said.push(e), packet, caps, q),
{
    assert forall|i: int| 0 <= i < said.push(e).len() implies #[trigger] put_right(said.push(e)[i], packet, caps, q) by {
        if i < said.len() {
            assert(said.push(e)[i] == said[i]);
        }
    }
}

/// A thing said that changed the style word went out as the SGR that changes it and nothing more.
pub open spec fn sgr_alone(e: Said, packet: &Packet, caps: &Capabilities, q: Quantiser) -> bool {
    match e {
        Said::Put { c, s0, st, .. } => c.style != s0 ==> st == style_bytes(s0, c.style, packet, caps, q),
        _ => true,
    }
}

/// A terminal without OSC 8 is never sent a hyperlink: every style change that went out is the
/// SGR alone, and no link is open when the frame ends, so the frame closes none.
pub proof fn lemma_no_hyperlinks_without_osc8(said: Seq<Said>, packet: &Packet, caps: &Capabilities, q: Quantiser,
    width: u16)
    requires
        !caps.hyperlinks,
        spoke_right(said, packet, caps, q),
        forall|i: int| 0 <= i < said.len() ==> #[trigger] put_lands(said, i, width),
    ensures
        link_after(said) == (LinkId { id: 0 }),
        link_close(link_after(said)) == Seq::<u8>::empty(),
        forall|i: int| 0 <= i < said.len() ==> #[trigger] sgr_alone(said[i], packet, caps, q),
    decreases said.len(),
{
    if said.len() > 0 {
        let d = said.drop_last();
        assert forall|i: int| 0 <= i < d.len() implies #[trigger] put_lands(d, i, width) by {
            assert(put_lands(said, i, width));
            assert(d.take(i) =~= said.take(i));
            assert(d[i] == said[i]);
        }
        assert forall|i: int| 0 <= i < d.len() implies #[trigger] put_right(d[i], packet, caps, q) by {
            assert(put_right(said[i], packet, caps, q));
            assert(d[i] == said[i]);
        }
        lemma_no_hyperlinks_without_osc8(d, packet, caps, q, width);
        let n = said.len() - 1;
        assert(put_lands(said, n, width));
        assert(put_right(said[n], packet, caps, q));
        assert(said.take(n) =~= d);
        assert forall|i: int| 0 <= i < said.len() implies #[trigger] sgr_alone(said[i], packet, caps, q) by {
            assert(put_right(said[i], packet, caps, q));
            if let Said::Put { c, s0, l0, st, .. } = said[i] {
                if c.style != s0 {
                    assert(st =~= style_bytes(s0, c.style, packet, caps, q) + link_step(c.style, packet, caps, q, l0).0);
                }
            }
        }
    }
}

/// What closes the hyperlink `l` at the end of a frame: nothing where none is open.
pub open spec fn link_close(l: LinkId) -> Seq<u8> {
    if l.id == 0 {
        Seq::empty()
    } else {
        wire::spec_osc8(None)
    }
}

/// What a frame ends with: the end of the synchronised update where it began with one.
pub open spec fn frame_suffix(sync: bool) -> Seq<u8> {
    if sync {
        sync_end()
    } else {
        Seq::empty()
    }
}

} // verus!
