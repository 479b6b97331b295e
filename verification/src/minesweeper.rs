//! The Minesweeper game-state engine.
//!
//! A board is a `width x height` grid of cells. Three boolean layers record,
//! for every cell, whether it is opened, whether it holds a mine, and whether
//! the player has flagged it. The layers are stored row-major: cell `(x, y)`
//! lives at index `y * width + x`.

use crate::counting::count_true;
use crate::counting::lemma_count_true_all_false;
use crate::counting::lemma_count_true_bounds;
use crate::counting::lemma_count_true_lt;
use crate::counting::lemma_count_true_update;
use vstd::prelude::*;
use vstd::string::StringExecFns;

verus! {

/// A cell coordinate: zero-based `(x, y)` with `x` counting columns and `y`
/// counting rows.
pub type Position = (usize, usize);

/// The game state: fixed dimensions and the three cell layers.
#[derive(Debug)]
pub struct Minesweeper {
    pub width: usize,
    pub height: usize,
    pub opened: Vec<bool>,
    pub mines: Vec<bool>,
    pub flagged: Vec<bool>,
}

/// 1 when `(x, y)` lies on a `w x h` grid and the layer `s` is set there,
/// 0 otherwise.
pub open spec fn layer_ind(s: Seq<bool>, w: int, h: int, x: int, y: int) -> int {
    if 0 <= x < w && 0 <= y < h && s[y * w + x] {
        1
    } else {
        0
    }
}

/// How many of the up-to-8 cells adjacent to `(x, y)` are set in layer `s`.
pub open spec fn adjacent_true(s: Seq<bool>, w: int, h: int, x: int, y: int) -> int {
    layer_ind(s, w, h, x - 1, y - 1) + layer_ind(s, w, h, x, y - 1) + layer_ind(
        s,
        w,
        h,
        x + 1,
        y - 1,
    ) + layer_ind(s, w, h, x - 1, y) + layer_ind(s, w, h, x + 1, y) + layer_ind(
        s,
        w,
        h,
        x - 1,
        y + 1,
    ) + layer_ind(s, w, h, x, y + 1) + layer_ind(s, w, h, x + 1, y + 1)
}

/// Nothing adjacent to `(x, y)` is set in layer `s` when the adjacent count
/// is zero.
pub proof fn lemma_adjacent_none(s: Seq<bool>, w: int, h: int, x: int, y: int)
    requires
        adjacent_true(s, w, h, x, y) == 0,
    ensures
        forall|qx: int, qy: int|
            -1 <= qx - x <= 1 && -1 <= qy - y <= 1 && !(qx == x && qy == y) && 0 <= qx < w && 0
                <= qy < h ==> !s[#[trigger] (qy * w + qx)],
{
    assert forall|qx: int, qy: int|
        -1 <= qx - x <= 1 && -1 <= qy - y <= 1 && !(qx == x && qy == y) && 0 <= qx < w && 0 <= qy
            < h implies !s[#[trigger] (qy * w + qx)] by {
        assert(layer_ind(s, w, h, qx, qy) == 0);
    }
}

/// Row-major cell indices stay below the grid area.
pub proof fn lemma_cell_index_bounds(w: int, h: int, x: int, y: int)
    requires
        0 <= x < w,
        0 <= y < h,
    ensures
        0 <= y * w + x < w * h,
{
    assert(0 <= y * w + x < w * h) by (nonlinear_arith)
        requires
            0 <= x < w,
            0 <= y < h,
    ;
}

/// Row-major indexing is injective on in-bounds coordinates.
pub proof fn lemma_cell_index_injective(w: int, h: int, x1: int, y1: int, x2: int, y2: int)
    requires
        0 <= x1 < w,
        0 <= y1 < h,
        0 <= x2 < w,
        0 <= y2 < h,
        y1 * w + x1 == y2 * w + x2,
    ensures
        x1 == x2,
        y1 == y2,
{
    assert(x1 == x2 && y1 == y2) by (nonlinear_arith)
        requires
            0 <= x1 < w,
            0 <= y1 < h,
            0 <= x2 < w,
            0 <= y2 < h,
            y1 * w + x1 == y2 * w + x2,
    ;
}

/// A cell opened in `a` stays opened in `b` when the opened layers relate
/// pointwise.
proof fn lemma_opened_at_monotone(a: Minesweeper, b: Minesweeper, p: Position)
    requires
        a.width == b.width,
        a.height == b.height,
        a.opened@.len() == a.width * a.height,
        b.opened@.len() == a.opened@.len(),
        forall|i: int| 0 <= i < a.opened@.len() && a.opened@[i] ==> b.opened@[i],
        a.in_bounds(p),
        a.opened_at(p),
    ensures
        b.opened_at(p),
{
    lemma_cell_index_bounds(a.width as int, a.height as int, p.0 as int, p.1 as int);
}

/// Read layer `s` at the in-bounds cell `(x, y)`.
fn layer_at(width: usize, height: usize, s: &Vec<bool>, x: usize, y: usize) -> (r: bool)
    requires
        width >= 1,
        height >= 1,
        width * height <= usize::MAX,
        s@.len() == width * height,
        x < width,
        y < height,
    ensures
        r == s@[y * width + x],
{
    proof {
        lemma_cell_index_bounds(width as int, height as int, x as int, y as int);
    }
    s[y * width + x]
}

/// Count how many of the up-to-8 cells adjacent to `(x, y)` are set in
/// layer `s`.
fn count_adjacent(width: usize, height: usize, s: &Vec<bool>, x: usize, y: usize) -> (c: usize)
    requires
        width >= 1,
        height >= 1,
        width * height <= usize::MAX,
        s@.len() == width * height,
        x < width,
        y < height,
    ensures
        c == adjacent_true(s@, width as int, height as int, x as int, y as int),
        c <= 8,
{
    let mut c: usize = 0;
    if x > 0 && y > 0 && layer_at(width, height, s, x - 1, y - 1) {
        c = c + 1;
    }
    if y > 0 && layer_at(width, height, s, x, y - 1) {
        c = c + 1;
    }
    if x + 1 < width && y > 0 && layer_at(width, height, s, x + 1, y - 1) {
        c = c + 1;
    }
    if x > 0 && layer_at(width, height, s, x - 1, y) {
        c = c + 1;
    }
    if x + 1 < width && layer_at(width, height, s, x + 1, y) {
        c = c + 1;
    }
    if x > 0 && y + 1 < height && layer_at(width, height, s, x - 1, y + 1) {
        c = c + 1;
    }
    if y + 1 < height && layer_at(width, height, s, x, y + 1) {
        c = c + 1;
    }
    if x + 1 < width && y + 1 < height && layer_at(width, height, s, x + 1, y + 1) {
        c = c + 1;
    }
    c
}

/// The single glyph for a neighboring-mine count, which is at most 8.
pub open spec fn digit_char(n: int) -> char {
    if n == 0 {
        '0'
    } else if n == 1 {
        '1'
    } else if n == 2 {
        '2'
    } else if n == 3 {
        '3'
    } else if n == 4 {
        '4'
    } else if n == 5 {
        '5'
    } else if n == 6 {
        '6'
    } else if n == 7 {
        '7'
    } else {
        '8'
    }
}

/// Row-major index of a position on a grid of the given width.
pub open spec fn pos_index(p: Position, w: int) -> int {
    p.1 * w + p.0
}

/// Count the `true` entries of a boolean vector.
#[verifier::loop_isolation(false)]
fn count_set(v: &Vec<bool>) -> (c: usize)
    ensures
        c == count_true(v@),
{
    let mut c: usize = 0;
    let mut i: usize = 0;
    while i < v.len()
        invariant
            0 <= i <= v@.len(),
            c <= i,
            c == count_true(v@.take(i as int)),
        decreases v@.len() - i,
    {
        proof {
            assert(v@.take(i as int + 1).drop_last() =~= v@.take(i as int));
            assert(v@.take(i as int + 1).last() == v@[i as int]);
        }
        if v[i] {
            c = c + 1;
        }
        i = i + 1;
    }
    proof {
        assert(v@.take(v@.len() as int) =~= v@);
    }
    c
}

impl Minesweeper {
    /// Number of cells on the board.
    pub open spec fn total(self) -> int {
        self.width * self.height
    }

    /// Row-major index of a position.
    pub open spec fn idx_of(self, p: Position) -> int {
        p.1 * self.width + p.0
    }

    /// The position lies on the board.
    pub open spec fn in_bounds(self, p: Position) -> bool {
        p.0 < self.width && p.1 < self.height
    }

    pub open spec fn opened_at(self, p: Position) -> bool {
        self.opened@[self.idx_of(p)]
    }

    pub open spec fn mine_at(self, p: Position) -> bool {
        self.mines@[self.idx_of(p)]
    }

    pub open spec fn flagged_at(self, p: Position) -> bool {
        self.flagged@[self.idx_of(p)]
    }

    /// Well-formedness: positive dimensions, an index for every cell fits in
    /// `usize`, the three layers cover the grid exactly, and a flag sits on
    /// an opened cell only if that cell is a mine (a losing open reveals
    /// mines whether or not they were flagged; nothing else opens a flagged
    /// cell).
    pub open spec fn wf(self) -> bool {
        &&& self.width >= 1
        &&& self.height >= 1
        &&& self.width * self.height <= usize::MAX
        &&& self.opened@.len() == self.total()
        &&& self.mines@.len() == self.total()
        &&& self.flagged@.len() == self.total()
        &&& forall|i: int|
            0 <= i < self.total() && self.opened@[i] && self.flagged@[i] ==> self.mines@[i]
    }

    /// The game is lost: some mine has been opened.
    pub open spec fn is_lost_spec(self) -> bool {
        exists|i: int| 0 <= i < self.total() && self.opened@[i] && self.mines@[i]
    }

    /// The game is won: not lost, and the opened cells and the mines
    /// together cover the whole board.
    pub open spec fn is_won_spec(self) -> bool {
        !self.is_lost_spec() && count_true(self.opened@) + count_true(self.mines@) == self.total()
    }

    /// `q` is one of the up-to-8 cells adjacent to `p`, on the board and
    /// distinct from `p`.
    pub open spec fn is_neighbor(self, p: Position, q: Position) -> bool {
        &&& q.0 < self.width
        &&& q.1 < self.height
        &&& q != p
        &&& -1 <= q.0 - p.0 <= 1
        &&& -1 <= q.1 - p.1 <= 1
    }

    /// How many neighbors `p` has: the cells of the 3x3 box around `p`
    /// clipped to the grid, minus `p` itself - 8 for an interior cell, 5 on
    /// an edge, 3 in a corner.
    pub open spec fn neighbor_count_spec(self, p: Position) -> int {
        let xlo: int = if p.0 > 0 {
            p.0 - 1
        } else {
            0
        };
        let xhi: int = if p.0 + 1 < self.width {
            p.0 + 1
        } else {
            self.width - 1
        };
        let ylo: int = if p.1 > 0 {
            p.1 - 1
        } else {
            0
        };
        let yhi: int = if p.1 + 1 < self.height {
            p.1 + 1
        } else {
            self.height - 1
        };
        (xhi - xlo + 1) * (yhi - ylo + 1) - 1
    }

    /// How many neighbors of `p` hold a mine.
    pub open spec fn neighboring_mines_spec(self, p: Position) -> int {
        adjacent_true(self.mines@, self.width as int, self.height as int, p.0 as int, p.1 as int)
    }

    /// How many neighbors of `p` are flagged.
    pub open spec fn neighboring_flags_spec(self, p: Position) -> int {
        adjacent_true(self.flagged@, self.width as int, self.height as int, p.0 as int, p.1 as int)
    }

    /// `q` holds a mine that an open reaching `q` would set off: on the
    /// board, mined, not flagged and not yet opened.
    pub open spec fn pending_mine(self, q: Position) -> bool {
        self.in_bounds(q) && self.mine_at(q) && !self.flagged_at(q) && !self.opened_at(q)
    }

    /// Some neighbor of `p` holds a mine that a chorded re-open of `p`
    /// would set off.
    pub open spec fn chord_hits_mine(self, p: Position) -> bool {
        exists|q: Position| self.is_neighbor(p, q) && self.pending_mine(q)
    }

    /// The game is not lost and `p` carries no flag, so `open(p)` acts.
    pub open spec fn can_act(self, p: Position) -> bool {
        !self.is_lost_spec() && !self.flagged_at(p)
    }

    /// Seen from the earlier state `from`, the cell `j` of `self` is a
    /// freshly revealed cell without neighboring mines - the kind of cell a
    /// cascade expands through.
    pub open spec fn newly_opened_zero(self, from: Self, j: Position) -> bool {
        &&& from.in_bounds(j)
        &&& self.opened_at(j)
        &&& !from.opened_at(j)
        &&& from.neighboring_mines_spec(j) == 0
    }

    fn cell_index(&self, p: Position) -> (i: usize)
        requires
            self.wf(),
            self.in_bounds(p),
        ensures
            i == self.idx_of(p),
            0 <= i < self.total(),
    {
        proof {
            lemma_cell_index_bounds(
                self.width as int,
                self.height as int,
                p.0 as int,
                p.1 as int,
            );
        }
        p.1 * self.width + p.0
    }

    /// Whether `p` has been revealed.
    pub fn is_opened(&self, p: Position) -> (r: bool)
        requires
            self.wf(),
            self.in_bounds(p),
        ensures
            r == self.opened_at(p),
    {
        let i = self.cell_index(p);
        self.opened[i]
    }

    /// Whether `p` currently carries a flag.
    pub fn is_flagged(&self, p: Position) -> (r: bool)
        requires
            self.wf(),
            self.in_bounds(p),
        ensures
            r == self.flagged_at(p),
    {
        let i = self.cell_index(p);
        self.flagged[i]
    }

    /// The grid width the game was created with.
    pub fn width(&self) -> (r: usize)
        ensures
            r == self.width,
    {
        self.width
    }

    /// The grid height the game was created with.
    pub fn height(&self) -> (r: usize)
        ensures
            r == self.height,
    {
        self.height
    }

    /// True iff some mine is currently open.
    pub fn is_lost(&self) -> (r: bool)
        requires
            self.wf(),
        ensures
            r == self.is_lost_spec(),
    {
        let n = self.opened.len();
        let mut i: usize = 0;
        while i < n
            invariant
                self.wf(),
                n == self.total(),
                0 <= i <= n,
                forall|j: int| 0 <= j < i ==> !(self.opened@[j] && self.mines@[j]),
            decreases n - i,
        {
            if self.opened[i] && self.mines[i] {
                return true;
            }
            i = i + 1;
        }
        false
    }

    /// Toggle the flag on `p`: a no-op once the game is lost or once `p` is
    /// opened; otherwise the flag on `p` is added if absent and removed if
    /// present, and nothing else changes.
    pub fn toggle_flag(&mut self, p: Position)
        requires
            old(self).wf(),
            old(self).in_bounds(p),
        ensures
            final(self).wf(),
            final(self).width == old(self).width,
            final(self).height == old(self).height,
            final(self).mines@ == old(self).mines@,
            final(self).opened@ == old(self).opened@,
            old(self).is_lost_spec() || old(self).opened_at(p) ==> final(self).flagged@ == old(self).flagged@,
            !old(self).is_lost_spec() && !old(self).opened_at(p) ==> final(self).flagged@ == old(self).flagged@.update(old(self).idx_of(p), !old(self).flagged_at(p)),
    {
        if self.is_lost() {
            return ;
        }
        let i = self.cell_index(p);
        if !self.opened[i] {
            let was = self.flagged[i];
            self.flagged[i] = !was;
        }
    }

    /// Count of `p`'s neighbors that hold a mine. Pure and recomputed on
    /// demand; at most 8.
    pub fn neightboring_mines(&self, p: Position) -> (c: usize)
        requires
            self.wf(),
            self.in_bounds(p),
        ensures
            c == self.neighboring_mines_spec(p),
            c <= 8,
    {
        count_adjacent(self.width, self.height, &self.mines, p.0, p.1)
    }

    /// Count of `p`'s neighbors that carry a flag; at most 8.
    fn neightboring_flags(&self, p: Position) -> (c: usize)
        requires
            self.wf(),
            self.in_bounds(p),
        ensures
            c == self.neighboring_flags_spec(p),
            c <= 8,
    {
        count_adjacent(self.width, self.height, &self.flagged, p.0, p.1)
    }

    /// The up-to-8 cells adjacent to `p`, clipped to the grid, without `p`
    /// itself: the returned vector holds exactly the neighbors of `p`, each
    /// once.
    #[verifier::loop_isolation(false)]
    pub fn neightbors(&self, p: Position) -> (r: Vec<Position>)
        requires
            self.wf(),
            self.in_bounds(p),
        ensures
            forall|q: Position| #[trigger] r@.contains(q) <==> self.is_neighbor(p, q),
            r@.no_duplicates(),
            r@.len() == self.neighbor_count_spec(p),
            r@.len() <= 8,
    {
        let xlo: usize = if p.0 > 0 {
            p.0 - 1
        } else {
            0
        };
        let xhi: usize = if p.0 + 1 < self.width {
            p.0 + 1
        } else {
            self.width - 1
        };
        let ylo: usize = if p.1 > 0 {
            p.1 - 1
        } else {
            0
        };
        let yhi: usize = if p.1 + 1 < self.height {
            p.1 + 1
        } else {
            self.height - 1
        };
        let mut r: Vec<Position> = Vec::new();
        let mut j: usize = ylo;
        while j <= yhi
            invariant
                ylo <= j <= yhi + 1,
                r@.no_duplicates(),
                r@.len() + (if p.1 < j {
                    1int
                } else {
                    0int
                }) == (j - ylo) * (xhi - xlo + 1),
                forall|q: Position| #[trigger]
                    r@.contains(q) <==> (self.is_neighbor(p, q) && q.1 < j),
            decreases yhi + 1 - j,
        {
            let mut i: usize = xlo;
            while i <= xhi
                invariant
                    ylo <= j <= yhi,
                    xlo <= i <= xhi + 1,
                    r@.no_duplicates(),
                    r@.len() + (if p.1 < j || (p.1 == j && p.0 < i) {
                        1int
                    } else {
                        0int
                    }) == (j - ylo) * (xhi - xlo + 1) + (i - xlo),
                    forall|q: Position| #[trigger]
                        r@.contains(q) <==> (self.is_neighbor(p, q) && (q.1 < j || (q.1 == j
                            && q.0 < i))),
                decreases xhi + 1 - i,
            {
                if !(i == p.0 && j == p.1) {
                    proof {
                        assert(!r@.contains((i, j)));
                    }
                    let ghost r0 = r@;
                    r.push((i, j));
                    proof {
                        assert(r@ =~= r0.push((i, j)));
                        assert forall|q: Position| #[trigger] r@.contains(q) implies (
                        r0.contains(q) || q == (i, j)) by {
                            let k = choose|k: int| 0 <= k < r@.len() && r@[k] == q;
                            if k < r0.len() {
                                assert(r0[k] == q);
                            }
                        }
                        assert forall|q: Position| r0.contains(q) implies #[trigger] r@.contains(
                            q,
                        ) by {
                            let k = choose|k: int| 0 <= k < r0.len() && r0[k] == q;
                            assert(r@[k] == q);
                        }
                        assert(r@.contains((i, j))) by {
                            assert(r@[r@.len() - 1] == (i, j));
                        }
                        assert(self.is_neighbor(p, (i, j)));
                        assert(r@.no_duplicates()) by {
                            assert forall|k1: int, k2: int|
                                0 <= k1 < k2 < r@.len() implies r@[k1] != r@[k2] by {
                                if k2 == r@.len() - 1 {
                                    assert(r0[k1] == r@[k1]);
                                    if r@[k1] == (i, j) {
                                        assert(r0.contains((i, j)));
                                    }
                                } else {
                                    assert(r0[k1] == r@[k1] && r0[k2] == r@[k2]);
                                }
                            }
                        }
                    }
                }
                i = i + 1;
            }
            proof {
                assert((j + 1 - ylo) * (xhi - xlo + 1) == (j - ylo) * (xhi - xlo + 1) + (xhi
                    - xlo + 1)) by (nonlinear_arith);
            }
            j = j + 1;
        }
        proof {
            assert(r@.len() + 1 == (yhi + 1 - ylo) * (xhi - xlo + 1));
            assert((yhi + 1 - ylo) * (xhi - xlo + 1) == (xhi - xlo + 1) * (yhi - ylo + 1))
                by (nonlinear_arith);
            assert(r@.len() <= 8) by (nonlinear_arith)
                requires
                    r@.len() + 1 == (yhi + 1 - ylo) * (xhi - xlo + 1),
                    yhi + 1 - ylo <= 3,
                    xhi - xlo + 1 <= 3,
                    yhi + 1 - ylo >= 1,
                    xhi - xlo + 1 >= 1,
            ;
        }
        r
    }

    /// The losing transition: every mine is inserted into the opened set at
    /// once; nothing else changes.
    #[verifier::loop_isolation(false)]
    fn open_all_mines(&mut self)
        requires
            old(self).wf(),
        ensures
            final(self).wf(),
            final(self).width == old(self).width,
            final(self).height == old(self).height,
            final(self).mines@ == old(self).mines@,
            final(self).flagged@ == old(self).flagged@,
            forall|i: int|
                0 <= i < old(self).total() ==> final(self).opened@[i] == (old(self).opened@[i]
                    || old(self).mines@[i]),
    {
        let n = self.opened.len();
        let mut i: usize = 0;
        while i < n
            invariant
                0 <= i <= n,
                self.width == old(self).width,
                self.height == old(self).height,
                self.mines@ == old(self).mines@,
                self.flagged@ == old(self).flagged@,
                self.opened@.len() == n,
                forall|j: int|
                    0 <= j < i ==> self.opened@[j] == (old(self).opened@[j] || old(self).mines@[j]),
                forall|j: int| i <= j < n ==> self.opened@[j] == old(self).opened@[j],
            decreases n - i,
        {
            if self.mines[i] && !self.opened[i] {
                self.opened[i] = true;
            }
            i = i + 1;
        }
    }

    /// Work-list flood fill: processes every queued cell exactly as a
    /// recursive `open` would, never re-entering an opened cell. A queued
    /// pending mine loses the game; otherwise every unflagged queued cell is
    /// opened, and cells with no neighboring mine queue their own neighbors
    /// in turn.
    #[verifier::loop_isolation(false)]
    fn run_cascade(&mut self, work: Vec<Position>)
        requires
            old(self).wf(),
            !old(self).is_lost_spec(),
            forall|k: int| 0 <= k < work@.len() ==> old(self).in_bounds(#[trigger] work@[k]),
        ensures
            final(self).wf(),
            final(self).width == old(self).width,
            final(self).height == old(self).height,
            final(self).mines@ == old(self).mines@,
            final(self).flagged@ == old(self).flagged@,
            forall|i: int|
                0 <= i < old(self).total() && old(self).opened@[i] ==> final(self).opened@[i],
            final(self).is_lost_spec() <==> (exists|k: int|
                0 <= k < work@.len() && old(self).pending_mine(#[trigger] work@[k])),
            final(self).is_lost_spec() ==> (forall|i: int|
                0 <= i < old(self).total() && old(self).mines@[i] ==> final(self).opened@[i]),
            !final(self).is_lost_spec() ==> (forall|i: int|
                0 <= i < old(self).total() && final(self).opened@[i] && !old(self).opened@[i]
                    ==> !old(self).mines@[i]),
            !final(self).is_lost_spec() ==> (forall|k: int|
                0 <= k < work@.len() && !old(self).flagged_at(#[trigger] work@[k]) ==> final(self).opened_at(work@[k])),
            !final(self).is_lost_spec() ==> (forall|j: Position, n: Position|
                old(self).in_bounds(j) && final(self).opened_at(j) && !old(self).opened_at(j)
                    && old(self).neighboring_mines_spec(j) == 0 && #[trigger] old(
                    self,
                ).is_neighbor(j, n) && !old(self).flagged_at(n) ==> final(self).opened_at(n)),
            !final(self).is_lost_spec() ==> (forall|i: Position|
                old(self).in_bounds(i) && #[trigger] final(self).opened_at(i) && !old(
                    self,
                ).opened_at(i) ==> work@.contains(i) || (exists|j: Position|
                    final(self).newly_opened_zero(*old(self), j) && old(self).is_neighbor(
                        j,
                        i,
                    ))),
    {
        let mut work = work;
        let ghost init = work@;
        proof {
            lemma_count_true_bounds(self.opened@);
            assert forall|k: int| 0 <= k < work@.len() implies init.contains(
                #[trigger] work@[k],
            ) by {
                assert(init[k] == work@[k]);
            }
        }
        while work.len() > 0
            invariant
                self.wf(),
                self.width == old(self).width,
                self.height == old(self).height,
                self.mines@ == old(self).mines@,
                self.flagged@ == old(self).flagged@,
                0 <= count_true(self.opened@) <= old(self).total(),
                forall|i: int|
                    0 <= i < old(self).total() && old(self).opened@[i] ==> self.opened@[i],
                forall|k: int| 0 <= k < work@.len() ==> old(self).in_bounds(#[trigger] work@[k]),
                forall|k: int| 0 <= k < init.len() ==> old(self).in_bounds(#[trigger] init[k]),
                forall|k: int|
                    0 <= k < work@.len() && old(self).mine_at(#[trigger] work@[k])
                        ==> init.contains(work@[k]),
                self.is_lost_spec() ==> (exists|k: int|
                    0 <= k < init.len() && old(self).pending_mine(#[trigger] init[k])),
                self.is_lost_spec() ==> (forall|i: int|
                    0 <= i < old(self).total() && old(self).mines@[i] ==> self.opened@[i]),
                !self.is_lost_spec() ==> (forall|i: int|
                    0 <= i < old(self).total() && self.opened@[i] && !old(self).opened@[i]
                        ==> !old(self).mines@[i]),
                !self.is_lost_spec() ==> (forall|k: int|
                    0 <= k < init.len() && old(self).pending_mine(#[trigger] init[k])
                        ==> work@.contains(init[k])),
                !self.is_lost_spec() ==> (forall|k: int|
                    0 <= k < init.len() && !old(self).flagged_at(#[trigger] init[k])
                        ==> self.opened_at(init[k]) || work@.contains(init[k])),
                !self.is_lost_spec() ==> (forall|j: Position, n: Position|
                    old(self).in_bounds(j) && self.opened_at(j) && !old(self).opened_at(j)
                        && old(self).neighboring_mines_spec(j) == 0 && #[trigger] old(
                        self,
                    ).is_neighbor(j, n) && !old(self).flagged_at(n) ==> self.opened_at(n)
                        || work@.contains(n)),
                !self.is_lost_spec() ==> (forall|k: int|
                    0 <= k < work@.len() ==> init.contains(#[trigger] work@[k]) || (exists|
                        j: Position,
                    |
                        self.newly_opened_zero(*old(self), j) && old(self).is_neighbor(
                            j,
                            work@[k],
                        ))),
                !self.is_lost_spec() ==> (forall|i: Position|
                    old(self).in_bounds(i) && #[trigger] self.opened_at(i) && !old(
                        self,
                    ).opened_at(i) ==> init.contains(i) || (exists|j: Position|
                        self.newly_opened_zero(*old(self), j) && old(self).is_neighbor(j, i))),
            decreases 10 * (old(self).total() - count_true(self.opened@)) + work@.len(),
        {
            let ghost work_before = work@;
            let ghost st0 = *self;
            let q = work.pop().unwrap();
            proof {
                assert(work_before[work_before.len() - 1] == q);
                assert(old(self).in_bounds(q));
                assert forall|v: Position| work_before.contains(v) && v != q implies
                    work@.contains(v) by {
                    let k = choose|k: int| 0 <= k < work_before.len() && work_before[k] == v;
                    assert(work@[k] == v);
                }
            }
            if self.is_lost() {
                continue ;
            }
            let qi = self.cell_index(q);
            if self.flagged[qi] {
                proof {
                    assert(st0.flagged_at(q));
                    assert forall|j: Position, n: Position|
                        old(self).in_bounds(j) && self.opened_at(j) && !old(self).opened_at(j)
                            && old(self).neighboring_mines_spec(j) == 0 && #[trigger] old(
                            self,
                        ).is_neighbor(j, n) && !old(self).flagged_at(n) && !self.opened_at(
                            n,
                        ) implies work@.contains(n) by {
                        assert(n != q);
                        assert(work_before.contains(n));
                    }
                    assert forall|k: int|
                        0 <= k < init.len() && !old(self).flagged_at(#[trigger] init[k]) && !self.opened_at(
                            init[k],
                        ) implies work@.contains(init[k]) by {
                        let v = init[k];
                        assert(work_before.contains(v));
                        assert(v != q);
                    }
                    assert forall|k: int|
                        0 <= k < init.len() && old(self).pending_mine(#[trigger] init[k]) implies
                        work@.contains(init[k]) by {
                        let v = init[k];
                        assert(work_before.contains(v));
                        assert(v != q);
                    }
                }
                continue ;
            }
            if self.opened[qi] {
                proof {
                    assert(self.opened_at(q));
                    assert forall|j: Position, n: Position|
                        old(self).in_bounds(j) && self.opened_at(j) && !old(self).opened_at(j)
                            && old(self).neighboring_mines_spec(j) == 0 && #[trigger] old(
                            self,
                        ).is_neighbor(j, n) && !old(self).flagged_at(n) && !self.opened_at(
                            n,
                        ) implies work@.contains(n) by {
                        assert(n != q);
                        assert(work_before.contains(n));
                    }
                    assert forall|k: int|
                        0 <= k < init.len() && !old(self).flagged_at(#[trigger] init[k]) && !self.opened_at(
                            init[k],
                        ) implies work@.contains(init[k]) by {
                        let v = init[k];
                        assert(work_before.contains(v));
                        assert(v != q);
                    }
                    assert forall|k: int|
                        0 <= k < init.len() && old(self).pending_mine(#[trigger] init[k]) implies
                        work@.contains(init[k]) by {
                        let v = init[k];
                        if v == q {
                            assert(self.mines@[qi as int]);
                            assert(0 <= qi < self.total() && self.opened@[qi as int]
                                && self.mines@[qi as int]);
                            assert(self.is_lost_spec());
                            assert(false);
                        }
                        assert(work_before.contains(v));
                    }
                }
                continue ;
            }
            if self.mines[qi] {
                proof {
                    assert(old(self).pending_mine(q));
                    assert(init.contains(q));
                    let k = choose|k: int| 0 <= k < init.len() && init[k] == q;
                    assert(old(self).pending_mine(init[k]));
                }
                let ghost opened_before = self.opened@;
                self.open_all_mines();
                proof {
                    assert(self.is_lost_spec()) by {
                        assert(self.opened@[qi as int] && self.mines@[qi as int]);
                    }
                    lemma_count_true_lt(opened_before, self.opened@, qi as int);
                    lemma_count_true_bounds(self.opened@);
                }
                continue ;
            }
            // q is a fresh safe cell: reveal it.
            let ghost opened_before = self.opened@;
            let ghost lost_before = self.is_lost_spec();
            self.opened[qi] = true;
            proof {
                lemma_count_true_update(opened_before, qi as int, true);
                lemma_count_true_bounds(self.opened@);
                assert(!self.is_lost_spec()) by {
                    if self.is_lost_spec() {
                        let w = choose|i: int|
                            0 <= i < self.total() && self.opened@[i] && self.mines@[i];
                        assert(opened_before[w] && self.mines@[w]);
                        assert(lost_before);
                    }
                }
                assert(!old(self).opened_at(q));
                assert forall|k: int| 0 <= k < work@.len() implies init.contains(
                    #[trigger] work@[k],
                ) || (exists|j: Position|
                    self.newly_opened_zero(*old(self), j) && old(self).is_neighbor(
                        j,
                        work@[k],
                    )) by {
                    if !init.contains(work@[k]) {
                        assert(work_before[k] == work@[k]);
                        assert(!init.contains(work_before[k]));
                        assert(exists|j: Position|
                            st0.newly_opened_zero(*old(self), j) && old(self).is_neighbor(
                                j,
                                work_before[k],
                            ));
                        let j = choose|j: Position|
                            st0.newly_opened_zero(*old(self), j) && old(self).is_neighbor(
                                j,
                                work_before[k],
                            );
                        lemma_opened_at_monotone(st0, *self, j);
                        assert(self.newly_opened_zero(*old(self), j) && old(self).is_neighbor(
                            j,
                            work@[k],
                        ));
                    }
                }
                assert forall|i: Position|
                    old(self).in_bounds(i) && #[trigger] self.opened_at(i) && !old(
                        self,
                    ).opened_at(i) implies init.contains(i) || (exists|j: Position|
                    self.newly_opened_zero(*old(self), j) && old(self).is_neighbor(j, i)) by {
                    lemma_cell_index_bounds(
                        self.width as int,
                        self.height as int,
                        i.0 as int,
                        i.1 as int,
                    );
                    if i == q {
                        if !init.contains(q) {
                            let j = choose|j: Position|
                                st0.newly_opened_zero(*old(self), j) && old(self).is_neighbor(
                                    j,
                                    q,
                                );
                            lemma_opened_at_monotone(st0, *self, j);
                        }
                    } else {
                        if i.1 * self.width + i.0 == qi as int {
                            lemma_cell_index_injective(
                                self.width as int,
                                self.height as int,
                                i.0 as int,
                                i.1 as int,
                                q.0 as int,
                                q.1 as int,
                            );
                            assert(false);
                        }
                        assert(st0.opened_at(i));
                        if !init.contains(i) {
                            let j = choose|j: Position|
                                st0.newly_opened_zero(*old(self), j) && old(self).is_neighbor(
                                    j,
                                    i,
                                );
                            lemma_opened_at_monotone(st0, *self, j);
                        }
                    }
                }
            }
            let nm = self.neightboring_mines(q);
            if nm == 0 {
                let ns = self.neightbors(q);
                proof {
                    lemma_adjacent_none(
                        self.mines@,
                        self.width as int,
                        self.height as int,
                        q.0 as int,
                        q.1 as int,
                    );
                    assert forall|k: int| 0 <= k < ns@.len() implies !old(self).mine_at(
                        #[trigger] ns@[k],
                    ) && old(self).in_bounds(ns@[k]) by {
                        assert(ns@.contains(ns@[k]));
                        let n = ns@[k];
                        assert(self.is_neighbor(q, n));
                        lemma_cell_index_bounds(
                            self.width as int,
                            self.height as int,
                            n.0 as int,
                            n.1 as int,
                        );
                        assert(!self.mines@[n.1 * self.width + n.0]);
                    }
                }
                let ghost work_mid = work@;
                proof {
                    assert(old(self).neighboring_mines_spec(q) == self.neighboring_mines_spec(
                        q,
                    ));
                    assert(self.newly_opened_zero(*old(self), q));
                    assert forall|u: int| 0 <= u < ns@.len() implies old(self).is_neighbor(
                        q,
                        #[trigger] ns@[u],
                    ) by {
                        assert(ns@.contains(ns@[u]));
                        assert(self.is_neighbor(q, ns@[u]));
                    }
                }
                let mut t: usize = 0;
                while t < ns.len()
                    invariant
                        0 <= t <= ns@.len(),
                        work@.len() == work_mid.len() + t,
                        forall|v: Position| work_mid.contains(v) ==> #[trigger] work@.contains(v),
                        forall|u: int| 0 <= u < t ==> work@.contains(#[trigger] ns@[u]),
                        forall|k: int|
                            0 <= k < work@.len() ==> init.contains(#[trigger] work@[k]) || (
                            exists|j: Position|
                                self.newly_opened_zero(*old(self), j) && old(self).is_neighbor(
                                    j,
                                    work@[k],
                                )),
                        forall|k: int|
                            0 <= k < work@.len() ==> old(self).in_bounds(#[trigger] work@[k]),
                        forall|k: int|
                            0 <= k < work@.len() && old(self).mine_at(#[trigger] work@[k])
                                ==> init.contains(work@[k]),
                    decreases ns@.len() - t,
                {
                    let ghost w0 = work@;
                    let n = ns[t];
                    work.push(n);
                    proof {
                        assert forall|v: Position| w0.contains(v) implies #[trigger] work@.contains(
                            v,
                        ) by {
                            let k = choose|k: int| 0 <= k < w0.len() && w0[k] == v;
                            assert(work@[k] == v);
                        }
                        assert(work@[work@.len() - 1] == n);
                        assert(work@.contains(n));
                        assert(!old(self).mine_at(n));
                        assert(old(self).is_neighbor(q, n));
                        assert forall|k: int| 0 <= k < work@.len() implies init.contains(
                            #[trigger] work@[k],
                        ) || (exists|j: Position|
                            self.newly_opened_zero(*old(self), j) && old(self).is_neighbor(
                                j,
                                work@[k],
                            )) by {
                            if k == work@.len() - 1 {
                                assert(work@[k] == n);
                                assert(self.newly_opened_zero(*old(self), q) && old(
                                    self,
                                ).is_neighbor(q, n));
                            } else {
                                assert(work@[k] == w0[k]);
                            }
                        }
                    }
                    t = t + 1;
                }
                proof {
                    assert forall|n: Position|
                        old(self).is_neighbor(q, n) && !old(self).flagged_at(n) implies
                        work@.contains(n) by {
                        assert(self.is_neighbor(q, n));
                        assert(ns@.contains(n));
                        let u = choose|u: int| 0 <= u < ns@.len() && ns@[u] == n;
                        assert(work@.contains(ns@[u]));
                    }
                }
            }
            proof {
                assert forall|k: int|
                    0 <= k < init.len() && !old(self).flagged_at(#[trigger] init[k]) && !self.opened_at(
                        init[k],
                    ) implies work@.contains(init[k]) by {
                    let v = init[k];
                    assert(old(self).in_bounds(v));
                    lemma_cell_index_bounds(
                        self.width as int,
                        self.height as int,
                        v.0 as int,
                        v.1 as int,
                    );
                    assert(v != q);
                    assert(!st0.opened_at(v));
                    assert(work_before.contains(v));
                    assert(work@.contains(v));
                }
                assert forall|k: int|
                    0 <= k < init.len() && old(self).pending_mine(#[trigger] init[k]) implies
                    work@.contains(init[k]) by {
                    let v = init[k];
                    assert(v != q);
                    assert(work_before.contains(v));
                    assert(work@.contains(v));
                }
                assert forall|j: Position, n: Position|
                    old(self).in_bounds(j) && self.opened_at(j) && !old(self).opened_at(j)
                        && old(self).neighboring_mines_spec(j) == 0 && #[trigger] old(
                        self,
                    ).is_neighbor(j, n) && !old(self).flagged_at(n) && !self.opened_at(
                        n,
                    ) implies work@.contains(n) by {
                    assert(n != q);
                    lemma_cell_index_bounds(
                        self.width as int,
                        self.height as int,
                        j.0 as int,
                        j.1 as int,
                    );
                    lemma_cell_index_bounds(
                        self.width as int,
                        self.height as int,
                        n.0 as int,
                        n.1 as int,
                    );
                    if j == q {
                        assert(old(self).neighboring_mines_spec(q) == 0);
                    } else {
                        if j.1 * self.width + j.0 == qi {
                            lemma_cell_index_injective(
                                self.width as int,
                                self.height as int,
                                j.0 as int,
                                j.1 as int,
                                q.0 as int,
                                q.1 as int,
                            );
                            assert(false);
                        }
                        assert(st0.opened_at(j) && !old(self).opened_at(j));
                        if st0.opened_at(n) {
                            assert(self.opened_at(n));
                            assert(false);
                        }
                        assert(work_before.contains(n));
                        assert(work@.contains(n));
                    }
                }
            }
        }
        proof {
            assert(work@.len() == 0);
            if !self.is_lost_spec() {
                assert forall|k: int|
                    0 <= k < init.len() && !old(self).flagged_at(#[trigger] init[k]) implies
                    self.opened_at(init[k]) by {
                    assert(!work@.contains(init[k]));
                }
                assert(!(exists|k: int|
                    0 <= k < init.len() && old(self).pending_mine(#[trigger] init[k]))) by {
                    if exists|k: int|
                        0 <= k < init.len() && old(self).pending_mine(#[trigger] init[k]) {
                        let k = choose|k: int|
                            0 <= k < init.len() && old(self).pending_mine(#[trigger] init[k]);
                        assert(work@.contains(init[k]));
                    }
                }
            }
        }
    }

    /// Open `p`.
    ///
    /// A no-op when the game is already lost, when `p` is flagged, or when
    /// `p` is already opened and its flagged-neighbor count differs from its
    /// neighboring-mine count. Opening a fresh mine reveals every mine and
    /// loses the game. Opening a fresh safe cell reveals it, and when it has
    /// no neighboring mine the reveal cascades through its neighbors.
    /// Re-opening an opened cell whose flagged-neighbor count matches its
    /// neighboring-mine count cascades into its unflagged neighbors - by
    /// count alone, so a mine behind a wrong flag placement can be set off.
    pub fn open(&mut self, position: Position)
        requires
            old(self).wf(),
            old(self).in_bounds(position),
        ensures
            final(self).wf(),
            final(self).width == old(self).width,
            final(self).height == old(self).height,
            final(self).mines@ == old(self).mines@,
            final(self).flagged@ == old(self).flagged@,
            forall|i: int|
                0 <= i < old(self).total() && old(self).opened@[i] ==> final(self).opened@[i],
            old(self).is_lost_spec() ==> *final(self) == *old(self),
            !old(self).is_lost_spec() && old(self).flagged_at(position) ==> *final(self) == *old(self),
            old(self).can_act(position) && old(self).opened_at(position) && old(self).neighboring_flags_spec(position) != old(self).neighboring_mines_spec(position)
                ==> *final(self) == *old(self),
            old(self).can_act(position) && !old(self).opened_at(position) && old(self).mine_at(
                position,
            ) ==> (forall|i: int|
                0 <= i < old(self).total() ==> final(self).opened@[i] == (old(self).opened@[i]
                    || old(self).mines@[i])) && final(self).is_lost_spec(),
            old(self).can_act(position) && !old(self).opened_at(position) && !old(self).mine_at(
                position,
            ) ==> final(self).opened_at(position) && !final(self).is_lost_spec() && (forall|
                i: int,
            |
                0 <= i < old(self).total() && final(self).opened@[i] && !old(self).opened@[i]
                    ==> !old(self).mines@[i]),
            old(self).can_act(position) && !old(self).opened_at(position) && !old(self).mine_at(
                position,
            ) && old(self).neighboring_mines_spec(position) != 0 ==> final(self).opened@ == old(self).opened@.update(old(self).idx_of(position), true),
            old(self).can_act(position) && !old(self).opened_at(position) && !old(self).mine_at(
                position,
            ) && old(self).neighboring_mines_spec(position) == 0 ==> (forall|q: Position|
                old(self).is_neighbor(position, q) && !old(self).flagged_at(q) ==> final(self).opened_at(q)),
            old(self).can_act(position) && old(self).opened_at(position) && old(self).neighboring_flags_spec(position) == old(self).neighboring_mines_spec(position)
                && !old(self).chord_hits_mine(position) ==> !final(self).is_lost_spec() && (
            forall|q: Position|
                old(self).is_neighbor(position, q) && !old(self).flagged_at(q) ==> final(self).opened_at(q)),
            old(self).can_act(position) && old(self).opened_at(position) && old(self).neighboring_flags_spec(position) == old(self).neighboring_mines_spec(position)
                && old(self).chord_hits_mine(position) ==> final(self).is_lost_spec() && (forall|
                i: int,
            |
                0 <= i < old(self).total() && old(self).mines@[i] ==> final(self).opened@[i]),
            !final(self).is_lost_spec() ==> (forall|j: Position, n: Position|
                old(self).in_bounds(j) && final(self).opened_at(j) && !old(self).opened_at(j)
                    && old(self).neighboring_mines_spec(j) == 0 && #[trigger] old(
                    self,
                ).is_neighbor(j, n) && !old(self).flagged_at(n) ==> final(self).opened_at(n)),
            !final(self).is_lost_spec() ==> (forall|i: Position|
                old(self).in_bounds(i) && #[trigger] final(self).opened_at(i) && !old(
                    self,
                ).opened_at(i) ==> i == position || old(self).is_neighbor(position, i) || (
                exists|j: Position|
                    final(self).newly_opened_zero(*old(self), j) && old(self).is_neighbor(
                        j,
                        i,
                    ))),
    {
        if self.is_lost() {
            return ;
        }
        let pi = self.cell_index(position);
        if self.flagged[pi] {
            return ;
        }
        let nm = self.neightboring_mines(position);
        if self.opened[pi] {
            let nf = self.neightboring_flags(position);
            if nm == nf {
                let ns = self.neightbors(position);
                proof {
                    assert forall|k: int| 0 <= k < ns@.len() implies old(self).in_bounds(
                        #[trigger] ns@[k],
                    ) by {
                        assert(ns@.contains(ns@[k]));
                    }
                }
                let ghost nsv = ns@;
                self.run_cascade(ns);
                proof {
                    if self.is_lost_spec() {
                        let k = choose|k: int|
                            0 <= k < nsv.len() && old(self).pending_mine(#[trigger] nsv[k]);
                        assert(nsv.contains(nsv[k]));
                        assert(old(self).is_neighbor(position, nsv[k]));
                        assert(old(self).chord_hits_mine(position));
                    } else {
                        if old(self).chord_hits_mine(position) {
                            let q = choose|q: Position|
                                old(self).is_neighbor(position, q) && old(self).pending_mine(q);
                            assert(nsv.contains(q));
                            let k = choose|k: int| 0 <= k < nsv.len() && nsv[k] == q;
                            assert(old(self).pending_mine(nsv[k]));
                            assert(false);
                        }
                        assert forall|q: Position|
                            old(self).is_neighbor(position, q) && !old(self).flagged_at(q) implies
                            self.opened_at(q) by {
                            assert(nsv.contains(q));
                            let k = choose|k: int| 0 <= k < nsv.len() && nsv[k] == q;
                            assert(!old(self).flagged_at(nsv[k]));
                        }
                        assert forall|i: Position|
                            old(self).in_bounds(i) && #[trigger] self.opened_at(i) && !old(
                                self,
                            ).opened_at(i) && !(exists|j: Position|
                                self.newly_opened_zero(*old(self), j) && old(self).is_neighbor(
                                    j,
                                    i,
                                )) implies old(self).is_neighbor(position, i) by {
                            assert(nsv.contains(i));
                        }
                    }
                }
            }
        } else if self.mines[pi] {
            self.open_all_mines();
            proof {
                assert(self.is_lost_spec()) by {
                    assert(self.opened@[pi as int] && self.mines@[pi as int]);
                }
            }
        } else {
            let ghost opened_before = self.opened@;
            self.opened[pi] = true;
            proof {
                assert(!self.is_lost_spec()) by {
                    if self.is_lost_spec() {
                        let w = choose|i: int|
                            0 <= i < self.total() && self.opened@[i] && self.mines@[i];
                        assert(opened_before[w] && self.mines@[w]);
                        assert(old(self).is_lost_spec());
                    }
                }
            }
            if nm == 0 {
                let ns = self.neightbors(position);
                proof {
                    lemma_adjacent_none(
                        self.mines@,
                        self.width as int,
                        self.height as int,
                        position.0 as int,
                        position.1 as int,
                    );
                    assert forall|k: int| 0 <= k < ns@.len() implies old(self).in_bounds(
                        #[trigger] ns@[k],
                    ) && !old(self).mine_at(ns@[k]) by {
                        assert(ns@.contains(ns@[k]));
                        let n = ns@[k];
                        assert(self.is_neighbor(position, n));
                        assert(!self.mines@[n.1 * self.width + n.0]);
                    }
                }
                let ghost mid = *self;
                let ghost nsv = ns@;
                self.run_cascade(ns);
                proof {
                    assert(!self.is_lost_spec()) by {
                        if self.is_lost_spec() {
                            let k = choose|k: int|
                                0 <= k < nsv.len() && mid.pending_mine(#[trigger] nsv[k]);
                            assert(!old(self).mine_at(nsv[k]));
                        }
                    }
                    assert forall|q: Position|
                        old(self).is_neighbor(position, q) && !old(self).flagged_at(q) implies
                        self.opened_at(q) by {
                        assert(nsv.contains(q));
                        let k = choose|k: int| 0 <= k < nsv.len() && nsv[k] == q;
                        assert(!mid.flagged_at(nsv[k]));
                    }
                    assert forall|j: Position, n: Position|
                        old(self).in_bounds(j) && self.opened_at(j) && !old(self).opened_at(j)
                            && old(self).neighboring_mines_spec(j) == 0 && #[trigger] old(
                            self,
                        ).is_neighbor(j, n) && !old(self).flagged_at(n) implies self.opened_at(
                        n,
                    ) by {
                        lemma_cell_index_bounds(
                            self.width as int,
                            self.height as int,
                            j.0 as int,
                            j.1 as int,
                        );
                        if j != position {
                            if j.1 * self.width + j.0 == pi as int {
                                lemma_cell_index_injective(
                                    self.width as int,
                                    self.height as int,
                                    j.0 as int,
                                    j.1 as int,
                                    position.0 as int,
                                    position.1 as int,
                                );
                                assert(false);
                            }
                            assert(mid.opened_at(j) == old(self).opened_at(j));
                            assert(mid.is_neighbor(j, n) && !mid.flagged_at(n));
                            assert(mid.neighboring_mines_spec(j) == old(
                                self,
                            ).neighboring_mines_spec(j));
                        }
                    }
                    assert forall|i: Position|
                        old(self).in_bounds(i) && #[trigger] self.opened_at(i) && !old(
                            self,
                        ).opened_at(i) && i != position && !(exists|j: Position|
                            self.newly_opened_zero(*old(self), j) && old(self).is_neighbor(
                                j,
                                i,
                            )) implies old(self).is_neighbor(position, i) by {
                        lemma_cell_index_bounds(
                            self.width as int,
                            self.height as int,
                            i.0 as int,
                            i.1 as int,
                        );
                        if i.1 * self.width + i.0 == pi as int {
                            lemma_cell_index_injective(
                                self.width as int,
                                self.height as int,
                                i.0 as int,
                                i.1 as int,
                                position.0 as int,
                                position.1 as int,
                            );
                            assert(false);
                        }
                        assert(mid.opened_at(i) == old(self).opened_at(i));
                        if !nsv.contains(i) {
                            assert(exists|j: Position|
                                self.newly_opened_zero(mid, j) && mid.is_neighbor(j, i));
                            let j = choose|j: Position|
                                self.newly_opened_zero(mid, j) && mid.is_neighbor(j, i);
                            lemma_cell_index_bounds(
                                self.width as int,
                                self.height as int,
                                j.0 as int,
                                j.1 as int,
                            );
                            if j.1 * self.width + j.0 == pi as int {
                                assert(mid.opened_at(j));
                                assert(false);
                            }
                            assert(!old(self).opened_at(j));
                            assert(old(self).neighboring_mines_spec(j)
                                == mid.neighboring_mines_spec(j));
                            assert(self.newly_opened_zero(*old(self), j) && old(
                                self,
                            ).is_neighbor(j, i));
                            assert(false);
                        }
                    }
                }
            } else {
                proof {
                    assert forall|j: Position, n: Position|
                        old(self).in_bounds(j) && self.opened_at(j) && !old(self).opened_at(j)
                            && old(self).neighboring_mines_spec(j) == 0 && #[trigger] old(
                            self,
                        ).is_neighbor(j, n) && !old(self).flagged_at(n) implies self.opened_at(
                        n,
                    ) by {
                        lemma_cell_index_bounds(
                            self.width as int,
                            self.height as int,
                            j.0 as int,
                            j.1 as int,
                        );
                        if j.1 * self.width + j.0 == pi as int {
                            lemma_cell_index_injective(
                                self.width as int,
                                self.height as int,
                                j.0 as int,
                                j.1 as int,
                                position.0 as int,
                                position.1 as int,
                            );
                            assert(j == position);
                            assert(false);
                        } else {
                            assert(self.opened@[j.1 * self.width + j.0] == opened_before[j.1
                                * self.width + j.0]);
                            assert(false);
                        }
                    }
                    assert forall|i: Position|
                        old(self).in_bounds(i) && #[trigger] self.opened_at(i) && !old(
                            self,
                        ).opened_at(i) implies i == position by {
                        lemma_cell_index_bounds(
                            self.width as int,
                            self.height as int,
                            i.0 as int,
                            i.1 as int,
                        );
                        if i.1 * self.width + i.0 == pi as int {
                            lemma_cell_index_injective(
                                self.width as int,
                                self.height as int,
                                i.0 as int,
                                i.1 as int,
                                position.0 as int,
                                position.1 as int,
                            );
                        } else {
                            assert(self.opened@[i.1 * self.width + i.0] == opened_before[i.1
                                * self.width + i.0]);
                            assert(false);
                        }
                    }
                }
            }
        }
    }

    /// The glyphs rendered for cell `(x, y)`: a flag or hidden marker for
    /// an unopened cell, a mine marker for an opened mine, and the
    /// neighboring-mine count between spaces for an opened safe cell; each
    /// marker is followed by one space.
    pub open spec fn glyph_at(self, x: int, y: int) -> Seq<char> {
        if !self.opened@[y * self.width + x] {
            if self.flagged@[y * self.width + x] {
                seq!['\u{1F6A9}', ' ']
            } else {
                seq!['\u{2B1C}', ' ']
            }
        } else if self.mines@[y * self.width + x] {
            seq!['\u{1F4A3}', ' ']
        } else {
            seq![
                ' ',
                digit_char(
                    adjacent_true(
                        self.mines@,
                        self.width as int,
                        self.height as int,
                        x,
                        y,
                    ),
                ),
                ' ',
            ]
        }
    }

    /// The first `x` cell glyphs of row `y`.
    pub open spec fn row_prefix(self, y: int, x: int) -> Seq<char>
        decreases x,
    {
        if x <= 0 {
            Seq::empty()
        } else {
            self.row_prefix(y, x - 1) + self.glyph_at(x - 1, y)
        }
    }

    /// The first `y` rendered rows, each closed by a newline.
    pub open spec fn render_prefix(self, y: int) -> Seq<char>
        decreases y,
    {
        if y <= 0 {
            Seq::empty()
        } else {
            self.render_prefix(y - 1) + self.row_prefix(y - 1, self.width as int) + seq!['\n']
        }
    }

    /// The whole rendered grid, row-major.
    pub open spec fn render_spec(self) -> Seq<char> {
        self.render_prefix(self.height as int)
    }

    /// Render the grid as text: one glyph per cell, rows separated by
    /// newlines. A display-only projection with no effect on the state.
    #[verifier::loop_isolation(false)]
    pub fn render(&self) -> (r: String)
        requires
            self.wf(),
        ensures
            r@ == self.render_spec(),
    {
        let mut out = String::new();
        let mut y: usize = 0;
        while y < self.height
            invariant
                0 <= y <= self.height,
                out@ == self.render_prefix(y as int),
            decreases self.height - y,
        {
            let mut x: usize = 0;
            while x < self.width
                invariant
                    0 <= x <= self.width,
                    out@ == self.render_prefix(y as int) + self.row_prefix(y as int, x as int),
                decreases self.width - x,
            {
                let ghost out0 = out@;
                let i = self.cell_index((x, y));
                if !self.opened[i] {
                    if self.flagged[i] {
                        out.append("\u{1F6A9} ");
                        proof {
                            reveal_strlit("\u{1F6A9} ");
                            assert(out@ =~= out0 + self.glyph_at(x as int, y as int));
                        }
                    } else {
                        out.append("\u{2B1C} ");
                        proof {
                            reveal_strlit("\u{2B1C} ");
                            assert(out@ =~= out0 + self.glyph_at(x as int, y as int));
                        }
                    }
                } else if self.mines[i] {
                    out.append("\u{1F4A3} ");
                    proof {
                        reveal_strlit("\u{1F4A3} ");
                        assert(out@ =~= out0 + self.glyph_at(x as int, y as int));
                    }
                } else {
                    let nm = self.neightboring_mines((x, y));
                    let d: &str = if nm == 0 {
                        " 0 "
                    } else if nm == 1 {
                        " 1 "
                    } else if nm == 2 {
                        " 2 "
                    } else if nm == 3 {
                        " 3 "
                    } else if nm == 4 {
                        " 4 "
                    } else if nm == 5 {
                        " 5 "
                    } else if nm == 6 {
                        " 6 "
                    } else if nm == 7 {
                        " 7 "
                    } else {
                        " 8 "
                    };
                    out.append(d);
                    proof {
                        reveal_strlit(" 0 ");
                        reveal_strlit(" 1 ");
                        reveal_strlit(" 2 ");
                        reveal_strlit(" 3 ");
                        reveal_strlit(" 4 ");
                        reveal_strlit(" 5 ");
                        reveal_strlit(" 6 ");
                        reveal_strlit(" 7 ");
                        reveal_strlit(" 8 ");
                        assert(out@ =~= out0 + self.glyph_at(x as int, y as int));
                    }
                }
                proof {
                    assert(self.row_prefix(y as int, x as int + 1) == self.row_prefix(
                        y as int,
                        x as int,
                    ) + self.glyph_at(x as int, y as int));
                    assert(out@ =~= self.render_prefix(y as int) + self.row_prefix(
                        y as int,
                        x as int + 1,
                    ));
                }
                x = x + 1;
            }
            out.append("\n");
            proof {
                reveal_strlit("\n");
                assert(out@ =~= self.render_prefix(y as int + 1));
            }
            y = y + 1;
        }
        out
    }

    /// True iff the game is won: not lost, and every cell that is not a
    /// mine has been opened.
    pub fn is_won(&self) -> (r: bool)
        requires
            self.wf(),
        ensures
            r == self.is_won_spec(),
    {
        if self.is_lost() {
            return false;
        }
        let openc = count_set(&self.opened);
        let minec = count_set(&self.mines);
        let total = self.width * self.height;
        proof {
            lemma_count_true_bounds(self.opened@);
        }
        total - openc == minec
    }

    /// Deterministic constructor: an explicit list of mine positions, each
    /// on the grid; duplicates collapse. Nothing starts opened or flagged.
    #[verifier::loop_isolation(false)]
    pub fn new_with_mines(width: usize, height: usize, mines: Vec<Position>) -> (r: Minesweeper)
        requires
            width >= 1,
            height >= 1,
            width * height <= usize::MAX,
            forall|k: int|
                0 <= k < mines@.len() ==> (#[trigger] mines@[k]).0 < width && mines@[k].1
                    < height,
        ensures
            r.wf(),
            r.width == width,
            r.height == height,
            forall|i: int| 0 <= i < r.total() ==> !r.opened@[i] && !r.flagged@[i],
            forall|p: Position| r.in_bounds(p) ==> (r.mine_at(p) <==> mines@.contains(p)),
    {
        let total = width * height;
        let opened = vec![false; total];
        let flagged = vec![false; total];
        let mut mv = vec![false; total];
        let mut k: usize = 0;
        while k < mines.len()
            invariant
                0 <= k <= mines@.len(),
                mv@.len() == total,
                forall|i: int|
                    0 <= i < mv@.len() ==> (mv@[i] <==> exists|t: int|
                        0 <= t < k && pos_index(#[trigger] mines@[t], width as int) == i),
            decreases mines@.len() - k,
        {
            let p = mines[k];
            proof {
                lemma_cell_index_bounds(width as int, height as int, p.0 as int, p.1 as int);
            }
            let i = p.1 * width + p.0;
            let ghost mv0 = mv@;
            mv[i] = true;
            proof {
                assert forall|j: int| 0 <= j < mv@.len() implies (mv@[j] <==> exists|t: int|
                    0 <= t < k + 1 && pos_index(#[trigger] mines@[t], width as int) == j) by {
                    if j == i {
                        assert(pos_index(mines@[k as int], width as int) == j);
                    } else {
                        assert(mv@[j] == mv0[j]);
                        if exists|t: int|
                            0 <= t < k + 1 && pos_index(#[trigger] mines@[t], width as int)
                                == j {
                            let t = choose|t: int|
                                0 <= t < k + 1 && pos_index(
                                    #[trigger] mines@[t],
                                    width as int,
                                ) == j;
                            assert(t < k);
                        }
                    }
                }
            }
            k = k + 1;
        }
        let r = Minesweeper { width, height, opened, mines: mv, flagged };
        proof {
            assert forall|p: Position| r.in_bounds(p) implies (r.mine_at(p)
                <==> mines@.contains(p)) by {
                lemma_cell_index_bounds(width as int, height as int, p.0 as int, p.1 as int);
                let pi = p.1 * width as int + p.0;
                if r.mine_at(p) {
                    let t = choose|t: int|
                        0 <= t < mines@.len() && pos_index(#[trigger] mines@[t], width as int)
                            == pi;
                    lemma_cell_index_injective(
                        width as int,
                        height as int,
                        mines@[t].0 as int,
                        mines@[t].1 as int,
                        p.0 as int,
                        p.1 as int,
                    );
                    assert(mines@[t] == p);
                    assert(mines@.contains(p));
                }
                if mines@.contains(p) {
                    let t = choose|t: int| 0 <= t < mines@.len() && mines@[t] == p;
                    assert(pos_index(mines@[t], width as int) == pi);
                    assert(r.mines@[pi]);
                }
            }
        }
        r
    }

    /// Random constructor: places `mine_count` distinct mines drawn
    /// uniformly over the grid. Nothing starts opened or flagged.
    #[verifier::loop_isolation(false)]
    pub fn new(width: usize, height: usize, mine_count: usize) -> (r: Minesweeper)
        requires
            width >= 1,
            height >= 1,
            width * height <= usize::MAX,
            mine_count <= width * height,
        ensures
            r.wf(),
            r.width == width,
            r.height == height,
            forall|i: int| 0 <= i < r.total() ==> !r.opened@[i] && !r.flagged@[i],
            count_true(r.mines@) == mine_count,
    {
        let total = width * height;
        let mut cells: Vec<usize> = Vec::new();
        let mut i: usize = 0;
        while i < total
            invariant
                0 <= i <= total,
                cells@.len() == i,
                forall|t: int| 0 <= t < i ==> #[trigger] cells@[t] == t,
            decreases total - i,
        {
            cells.push(i);
            i = i + 1;
        }
        let mut mv = vec![false; total];
        let mut rng = crate::random::fresh_rng();
        let mut placed: usize = 0;
        proof {
            assert(cells@.no_duplicates());
            lemma_count_true_all_false(mv@);
        }
        while placed < mine_count
            invariant
                0 <= placed <= mine_count,
                mv@.len() == total,
                cells@.len() == total - placed,
                cells@.no_duplicates(),
                forall|t: int|
                    0 <= t < cells@.len() ==> #[trigger] cells@[t] < total && !mv@[cells@[t] as int],
                count_true(mv@) == placed,
            decreases mine_count - placed,
        {
            let j = crate::random::sample_below(&mut rng, cells.len());
            let ghost cells0 = cells@;
            let c = cells.swap_remove(j);
            proof {
                assert forall|t: int| 0 <= t < cells@.len() implies #[trigger] cells@[t] < total
                    && !mv@[cells@[t] as int] && cells@[t] != c by {
                    if t == j {
                        assert(cells@[t] == cells0[cells0.len() - 1]);
                    } else {
                        assert(cells@[t] == cells0[t]);
                    }
                }
                assert(cells@.no_duplicates()) by {
                    assert forall|t1: int, t2: int|
                        0 <= t1 < t2 < cells@.len() implies cells@[t1] != cells@[t2] by {
                        if t1 == j {
                            assert(cells@[t1] == cells0[cells0.len() - 1]);
                            assert(cells@[t2] == cells0[t2]);
                        } else if t2 == j {
                            assert(cells@[t2] == cells0[cells0.len() - 1]);
                            assert(cells@[t1] == cells0[t1]);
                        } else {
                            assert(cells@[t1] == cells0[t1] && cells@[t2] == cells0[t2]);
                        }
                    }
                }
            }
            let ghost mv0 = mv@;
            mv[c] = true;
            proof {
                lemma_count_true_update(mv0, c as int, true);
            }
            placed = placed + 1;
        }
        let opened = vec![false; total];
        let flagged = vec![false; total];
        Minesweeper { width, height, opened, mines: mv, flagged }
    }
}

} // verus!
