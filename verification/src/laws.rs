//! Engine-wide laws, each proved from the state model: neighbor shape,
//! flag/open exclusion, toggle involution, and the win characterization.

use crate::counting::count_true;
use crate::counting::lemma_count_true_disjoint;
use crate::minesweeper::lemma_cell_index_bounds;
use crate::minesweeper::Minesweeper;
use crate::minesweeper::Position;
use vstd::arithmetic::div_mod::lemma_fundamental_div_mod;
use vstd::arithmetic::div_mod::lemma_remainder;
use vstd::prelude::*;

verus! {

/// Law: an interior cell has exactly the eight surrounding cells as
/// neighbors - together with `neightbors`'s contract (membership exactly on
/// `is_neighbor`, length equal to `neighbor_count_spec`, no duplicates)
/// this pins the returned collection down to those eight cells.
pub proof fn lemma_interior_neighbors(m: Minesweeper, p: Position)
    requires
        m.wf(),
        0 < p.0 && p.0 + 1 < m.width,
        0 < p.1 && p.1 + 1 < m.height,
    ensures
        m.neighbor_count_spec(p) == 8,
        forall|q: Position| #[trigger]
            m.is_neighbor(p, q) <==> (q == ((p.0 - 1) as usize, (p.1 - 1) as usize) || q == (
            p.0,
            (p.1 - 1) as usize,
            ) || q == ((p.0 + 1) as usize, (p.1 - 1) as usize) || q == (
            (p.0 - 1) as usize,
            p.1,
            ) || q == ((p.0 + 1) as usize, p.1) || q == ((p.0 - 1) as usize, (p.1 + 1) as usize)
                || q == (p.0, (p.1 + 1) as usize) || q == ((p.0 + 1) as usize, (p.1 + 1) as usize)),
{
    assert(((p.0 + 1) - (p.0 - 1) + 1) * ((p.1 + 1) - (p.1 - 1) + 1) == 9) by (nonlinear_arith);
}

/// Law: in a state that is not lost, no cell is both opened and flagged -
/// the flag/open mutual exclusion of the non-terminal game.
pub proof fn lemma_nonterminal_disjoint(m: Minesweeper)
    requires
        m.wf(),
        !m.is_lost_spec(),
    ensures
        forall|p: Position| m.in_bounds(p) ==> !(#[trigger] m.opened_at(p) && m.flagged_at(p)),
{
    assert forall|p: Position| m.in_bounds(p) implies !(#[trigger] m.opened_at(p)
        && m.flagged_at(p)) by {
        lemma_cell_index_bounds(m.width as int, m.height as int, p.0 as int, p.1 as int);
        if m.opened_at(p) && m.flagged_at(p) {
            assert(m.mines@[m.idx_of(p)]);
            assert(m.is_lost_spec());
        }
    }
}

/// Law: toggling the flag of an untouched cell flags it and leaves it
/// unopened, with the game still not lost - so the following `open` of that
/// cell is the no-op that `open`'s contract states for a flagged cell.
/// `m2` is the state that `toggle_flag`'s contract describes.
pub proof fn lemma_flag_blocks_open(m: Minesweeper, m2: Minesweeper, p: Position)
    requires
        m.wf(),
        m.in_bounds(p),
        !m.is_lost_spec(),
        !m.opened_at(p),
        !m.flagged_at(p),
        m2.width == m.width,
        m2.height == m.height,
        m2.mines@ == m.mines@,
        m2.opened@ == m.opened@,
        m2.flagged@ == m.flagged@.update(m.idx_of(p), !m.flagged_at(p)),
    ensures
        m2.flagged_at(p),
        !m2.opened_at(p),
        !m2.is_lost_spec(),
{
    lemma_cell_index_bounds(m.width as int, m.height as int, p.0 as int, p.1 as int);
}

/// Law: toggling the flag of a cell twice restores the flag layer, whatever
/// the cell's state - a pair of toggles is the identity. `m2` and `m3` are
/// the states after one and two toggles, as `toggle_flag`'s contract
/// describes them.
pub proof fn lemma_toggle_flag_twice(m: Minesweeper, m2: Minesweeper, m3: Minesweeper, p: Position)
    requires
        m.wf(),
        m.in_bounds(p),
        m2.width == m.width,
        m2.height == m.height,
        m2.mines@ == m.mines@,
        m2.opened@ == m.opened@,
        m.is_lost_spec() || m.opened_at(p) ==> m2.flagged@ == m.flagged@,
        !m.is_lost_spec() && !m.opened_at(p) ==> m2.flagged@ == m.flagged@.update(
            m.idx_of(p),
            !m.flagged_at(p),
        ),
        m3.width == m2.width,
        m3.height == m2.height,
        m3.mines@ == m2.mines@,
        m3.opened@ == m2.opened@,
        m2.is_lost_spec() || m2.opened_at(p) ==> m3.flagged@ == m2.flagged@,
        !m2.is_lost_spec() && !m2.opened_at(p) ==> m3.flagged@ == m2.flagged@.update(
            m2.idx_of(p),
            !m2.flagged_at(p),
        ),
    ensures
        m3.flagged@ == m.flagged@,
{
    lemma_cell_index_bounds(m.width as int, m.height as int, p.0 as int, p.1 as int);
    assert(m2.is_lost_spec() == m.is_lost_spec());
    if m.is_lost_spec() || m.opened_at(p) {
    } else {
        assert(m3.flagged@ =~= m.flagged@);
    }
}

/// Law: the game is won exactly when it is not lost and every cell that is
/// not a mine has been opened.
pub proof fn lemma_win_characterization(m: Minesweeper)
    requires
        m.wf(),
    ensures
        m.is_won_spec() <==> (!m.is_lost_spec() && (forall|p: Position|
            m.in_bounds(p) && !m.mine_at(p) ==> #[trigger] m.opened_at(p))),
{
    if !m.is_lost_spec() {
        assert(forall|i: int| 0 <= i < m.total() ==> !(m.opened@[i] && m.mines@[i]));
        lemma_count_true_disjoint(m.opened@, m.mines@);
        if forall|i: int| 0 <= i < m.total() ==> m.opened@[i] || m.mines@[i] {
            assert forall|p: Position| m.in_bounds(p) && !m.mine_at(p) implies #[trigger]
            m.opened_at(p) by {
                lemma_cell_index_bounds(m.width as int, m.height as int, p.0 as int, p.1 as int);
                assert(m.opened@[m.idx_of(p)] || m.mines@[m.idx_of(p)]);
            }
        }
        if forall|p: Position| m.in_bounds(p) && !m.mine_at(p) ==> #[trigger] m.opened_at(p) {
            assert forall|i: int| 0 <= i < m.total() implies m.opened@[i] || m.mines@[i] by {
                let w = m.width as int;
                let h = m.height as int;
                lemma_fundamental_div_mod(i, w);
                lemma_remainder(i, w);
                let d = i / w;
                let r0 = i % w;
                assert(r0 == i - d * w);
                assert(0 <= r0 < w);
                assert(0 <= d < h) by (nonlinear_arith)
                    requires
                        d * w + r0 == i,
                        0 <= r0 < w,
                        0 <= i < w * h,
                        w >= 1,
                ;
                let p: Position = (r0 as usize, d as usize);
                assert(m.in_bounds(p));
                assert(m.idx_of(p) == i);
                if !m.mines@[i] {
                    assert(!m.mine_at(p));
                    assert(m.opened_at(p));
                }
            }
        }
    }
}

} // verus!
