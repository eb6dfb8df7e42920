//! The frame of a finished walk, and how many passages it holds.

use vstd::prelude::*;
use vstd::arithmetic::div_mod::lemma_fundamental_div_mod_converse;
use vstd::set_lib::{lemma_int_range, lemma_map_size, set_int_range};
use crate::frame::{
    Cell, WireFrame, carved, cell_place, create_wireframe, fits, frame_container, frame_of,
    frame_size, lemma_frame_size, opening_place, passages,
};
use crate::geometry::{
    Container, Direction, Path, index_of, lemma_index_decides, lemma_index_in_table, moved,
    scaled,
};
use crate::walk::{edges, grows_tree, lemma_recorded_events, perfect, reached, recorded};

verus! {

/// A grid has as many cells as its area.
pub proof fn lemma_cells_size(g: Container)
    requires
        g.width >= 1,
    ensures
        g.cells().finite(),
        g.cells().len() == g.area(),
{
    let w = g.width as int;
    let h = g.height as int;
    let range = set_int_range(0, w * h);
    let f = |i: int| (i % w, i / w);
    assert(0 <= w * h) by (nonlinear_arith)
        requires
            0 <= w,
            0 <= h,
    ;
    lemma_int_range(0, w * h);
    assert forall|i: int, j: int| range.contains(i) && range.contains(j) && #[trigger] f(i)
        == #[trigger] f(j) implies i == j by {
        assert(i == w * (i / w) + i % w && j == w * (j / w) + j % w) by (nonlinear_arith)
            requires
                w > 0,
        ;
    }
    assert forall|p: (int, int)| range.map(f).contains(p) == g.cells().contains(p) by {
        if g.cells().contains(p) {
            let i = index_of(p, w);
            lemma_index_in_table(g, p);
            lemma_fundamental_div_mod_converse(i, w, p.1, p.0);
            assert(range.contains(i) && f(i) == p);
        }
        if range.map(f).contains(p) {
            let i = choose|i: int| range.contains(i) && f(i) == p;
            assert(0 <= i % w < w && 0 <= i / w < h) by (nonlinear_arith)
                requires
                    0 <= i < w * h,
                    w > 0,
            ;
        }
    }
    assert(range.map(f) =~= g.cells());
    lemma_map_size(range, g.cells(), f);
}

/// Carving a position adds a passage unless the position is one already.
pub proof fn lemma_passages_update(s: Seq<Cell>, i: int)
    requires
        0 <= i < s.len(),
    ensures
        passages(s.update(i, Cell::Passage)) == if s[i] == Cell::Passage {
            passages(s)
        } else {
            passages(s) + 1
        },
    decreases s.len(),
{
    let u = s.update(i, Cell::Passage);
    if i == s.len() - 1 {
        assert(u.drop_last() =~= s.drop_last());
    } else {
        lemma_passages_update(s.drop_last(), i);
        assert(u.drop_last() =~= s.drop_last().update(i, Cell::Passage));
    }
}

/// Positions without a passage count none.
pub proof fn lemma_passages_none(s: Seq<Cell>)
    requires
        forall|i: int| 0 <= i < s.len() ==> s[i] != Cell::Passage,
    ensures
        passages(s) == 0,
    decreases s.len(),
{
    if s.len() > 0 {
        lemma_passages_none(s.drop_last());
    }
}

/// The event `k` of the trace stands at a cell of the grid, and the trace
/// has entered that cell and the cell that the event moves to.
pub open spec fn event_entered(g: Container, start: (int, int), t: Seq<Path>, k: int) -> bool {
    &&& g.holds(t[k].coordinate@)
    &&& reached(start, t).contains(t[k].coordinate@)
    &&& reached(start, t).contains(moved(t[k].coordinate@, t[k].direction))
}

/// The cells that a tree has entered are cells of the grid, and every event
/// lies between two of them.
pub proof fn lemma_events_entered(g: Container, start: (int, int), t: Seq<Path>)
    requires
        grows_tree(g, start, t),
    ensures
        forall|p: (int, int)| #[trigger] reached(start, t).contains(p) ==> g.holds(p),
        forall|k: int| 0 <= k < t.len() ==> #[trigger] event_entered(g, start, t, k),
    decreases t.len(),
{
    if t.len() > 0 {
        let before = t.drop_last();
        lemma_events_entered(g, start, before);
        assert forall|k: int| 0 <= k < t.len() implies #[trigger] event_entered(g, start, t, k) by {
            if k < before.len() {
                assert(event_entered(g, start, before, k));
                assert(before[k] == t[k]);
            }
        }
    }
}

/// The frame of a tree holds one passage for every cell with an event and
/// one for every movement.
pub proof fn lemma_carved_count(g: Container, start: (int, int), t: Seq<Path>)
    requires
        g.walkable(),
        grows_tree(g, start, t),
    ensures
        recorded(t).finite(),
        passages(frame_of(t, frame_size(g))) == recorded(t).len() + edges(t),
    decreases t.len(),
{
    let m = frame_size(g);
    let mw = m.width as int;
    lemma_frame_size(g);
    lemma_recorded_events(t);
    if t.len() == 0 {
        lemma_passages_none(frame_of(t, m));
    } else {
        let before = t.drop_last();
        let e = t.last();
        let c = e.coordinate@;
        let f0 = frame_of(before, m);
        let f1 = frame_of(t, m);
        let ci = index_of(cell_place(e), mw);
        let oi = index_of(opening_place(e), mw);
        lemma_carved_count(g, start, before);
        lemma_events_entered(g, start, before);
        lemma_recorded_events(before);
        assert(g.holds(c));
        lemma_index_in_table(m, cell_place(e));
        lemma_index_in_table(m, opening_place(e));
        let f_mid = f0.update(ci, Cell::Passage);
        assert(f1 =~= f_mid.update(oi, Cell::Passage)) by {
            assert forall|i: int| 0 <= i < f1.len() implies f1[i] == f_mid.update(
                oi,
                Cell::Passage,
            )[i] by {
                if carved(before, mw, i) {
                    let k = choose|k: int|
                        0 <= k < before.len() && (index_of(cell_place(#[trigger] before[k]), mw)
                            == i || index_of(opening_place(before[k]), mw) == i);
                    assert(t[k] == before[k]);
                }
                if carved(t, mw, i) {
                    let k = choose|k: int|
                        0 <= k < t.len() && (index_of(cell_place(#[trigger] t[k]), mw) == i
                            || index_of(opening_place(t[k]), mw) == i);
                    if k < before.len() {
                        assert(before[k] == t[k]);
                    }
                }
                if i == ci || i == oi {
                    assert(t[t.len() - 1] == e);
                }
            }
        }
        assert((f0[ci] == Cell::Passage) == recorded(before).contains(c)) by {
            if recorded(before).contains(c) {
                let k = choose|k: int| 0 <= k < before.len() && #[trigger] before[k].coordinate@ == c;
                assert(index_of(cell_place(before[k]), mw) == ci);
            }
            if carved(before, mw, ci) {
                let k = choose|k: int|
                    0 <= k < before.len() && (index_of(cell_place(#[trigger] before[k]), mw) == ci
                        || index_of(opening_place(before[k]), mw) == ci);
                assert(event_entered(g, start, before, k));
                if index_of(cell_place(before[k]), mw) == ci {
                    lemma_index_decides(cell_place(before[k]), cell_place(e), mw);
                } else {
                    lemma_index_decides(opening_place(before[k]), cell_place(e), mw);
                }
                assert(before[k].coordinate@ == c);
            }
        }
        lemma_passages_update(f0, ci);
        if e.direction != Direction::NONE {
            if oi == ci {
                lemma_index_decides(opening_place(e), cell_place(e), mw);
            }
            if carved(before, mw, oi) {
                let k = choose|k: int|
                    0 <= k < before.len() && (index_of(cell_place(#[trigger] before[k]), mw) == oi
                        || index_of(opening_place(before[k]), mw) == oi);
                assert(event_entered(g, start, before, k));
                if index_of(cell_place(before[k]), mw) == oi {
                    lemma_index_decides(cell_place(before[k]), opening_place(e), mw);
                } else {
                    lemma_index_decides(opening_place(before[k]), opening_place(e), mw);
                }
                assert(false);
            }
            lemma_passages_update(f_mid, oi);
        } else {
            assert(f_mid.update(oi, Cell::Passage) =~= f_mid);
        }
    }
}

/// The frame of a finished walk holds one passage for every cell of the
/// grid and one for every movement of the trace: one fewer than twice the
/// cells.
pub proof fn lemma_passage_count(g: Container, t: Seq<Path>)
    requires
        g.walkable(),
        perfect(g, t),
    ensures
        passages(frame_of(t, frame_size(g))) == g.area() + edges(t),
        passages(frame_of(t, frame_size(g))) == 2 * g.area() - 1,
{
    lemma_carved_count(g, t[0].coordinate@, t);
    lemma_cells_size(g);
}

/// The frame of a finished walk over `grid`: carved from its trace, with
/// one passage for every cell and one for every movement.
pub fn carve_maze(grid: Container, paths: &Vec<Path>) -> (frame: WireFrame)
    requires
        grid.walkable(),
        perfect(grid, paths@),
    ensures
        frame.width == scaled(grid.width as int),
        frame.data@.len() == scaled(grid.width as int) * scaled(grid.height as int),
        frame.data@ == frame_of(paths@, frame_size(grid)),
        passages(frame.data@) == grid.area() + edges(paths@),
{
    let maze = frame_container(grid);
    proof {
        lemma_events_entered(grid, paths@[0].coordinate@, paths@);
        assert forall|k: int| 0 <= k < paths@.len() implies fits(#[trigger] paths@[k], maze) by {
            assert(event_entered(grid, paths@[0].coordinate@, paths@, k));
        }
        lemma_passage_count(grid, paths@);
    }
    create_wireframe(paths, maze)
}

} // verus!
