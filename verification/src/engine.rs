//! The whole walk, from the draw of its first cell to its end, and what
//! holds of the trace that it leaves.

use vstd::prelude::*;
use rand::rngs::StdRng;
use crate::geometry::{Container, Coordinate, Direction, Path, moved};
use crate::moves::{lemma_moves_from, marked};
use crate::random::{draw_below, seeded};
use crate::walk::{
    Walk, count_marked, edges, lemma_count_marked, lemma_push_event, perfect, reached, recorded,
};

verus! {

/// The first cell of a trace is among the cells entered.
pub proof fn lemma_start_reached(start: (int, int), t: Seq<Path>)
    ensures
        reached(start, t).contains(start),
    decreases t.len(),
{
    if t.len() > 0 {
        lemma_start_reached(start, t.drop_last());
    }
}

/// A finished walk has entered the cell `p`: the cells entered hold the
/// start and, with a cell, its neighbours.
pub proof fn lemma_finished_enters(walk: Walk, p: (int, int))
    requires
        walk.finished(),
        walk.grid.holds(p),
    ensures
        reached(walk.start@, walk.paths@).contains(p),
    decreases
            (if p.0 < walk.start.x { walk.start.x - p.0 } else { p.0 - walk.start.x })
            + (if p.1 < walk.start.y { walk.start.y - p.1 } else { p.1 - walk.start.y }),
{
    let s = walk.start@;
    if p == s {
        lemma_start_reached(s, walk.paths@);
    } else if p.0 > s.0 {
        let q = (p.0 - 1, p.1);
        lemma_finished_enters(walk, q);
        assert(moved(q, Direction::EAST) == p);
    } else if p.0 < s.0 {
        let q = (p.0 + 1, p.1);
        lemma_finished_enters(walk, q);
        assert(moved(q, Direction::WEST) == p);
    } else if p.1 > s.1 {
        let q = (p.0, p.1 - 1);
        lemma_finished_enters(walk, q);
        assert(moved(q, Direction::SOUTH) == p);
    } else {
        let q = (p.0, p.1 + 1);
        lemma_finished_enters(walk, q);
        assert(moved(q, Direction::NORTH) == p);
    }
}

/// The trace of a finished walk is a tree over all cells of the grid: every
/// cell was entered, and entered once; the table marks every cell; and the
/// movements are one fewer than the cells.
pub proof fn lemma_finished_is_perfect(walk: Walk)
    requires
        walk.finished(),
    ensures
        perfect(walk.grid, walk.paths@),
        walk.paths@[0].coordinate == walk.start,
        forall|i: int| 0 <= i < walk.visited@.len() ==> walk.visited@[i],
        count_marked(walk.visited@) == walk.grid.area(),
{
    let g = walk.grid;
    let s = walk.start@;
    let t = walk.paths@;
    assert(t.len() > 0);
    assert forall|p: (int, int)| g.holds(p) implies reached(s, t).contains(p) && recorded(
        t,
    ).contains(p) by {
        lemma_finished_enters(walk, p);
    }
    assert(reached(s, t) =~= g.cells());
    assert(recorded(t) =~= g.cells());
    assert forall|i: int| 0 <= i < walk.visited@.len() implies walk.visited@[i] by {
        let w = g.width as int;
        let p = (i % w, i / w);
        assert(i == (i / w) * w + i % w && 0 <= i % w < w && 0 <= i / w < g.height)
            by (nonlinear_arith)
            requires
                0 <= i < w * g.height,
                w > 0,
        ;
        assert(g.holds(p));
        assert(marked(walk.visited@, g, p));
    }
    lemma_count_marked(walk.visited@);
}

/// A draw for one axis of the first cell: below `extent - 1` where that
/// leaves a choice, zero on an axis of one cell.
pub fn draw_start(rng: &mut StdRng, extent: u32) -> (at: u32)
    requires
        extent >= 1,
    ensures
        at < extent,
        extent > 1 ==> at < extent - 1,
{
    if extent > 1 {
        draw_below(rng, extent - 1)
    } else {
        0
    }
}

/// Walks the whole grid from a first cell drawn from `rng`, taking at each
/// cell one of its open moves by a draw, and going back where there is
/// none, until no cell is left to go back to.
pub fn backtrack(grid: Container, rng: &mut StdRng) -> (walk: Walk)
    requires
        grid.walkable(),
    ensures
        walk.finished(),
        walk.grid == grid,
        grid.width > 1 ==> walk.start.x < grid.width - 1,
        grid.height > 1 ==> walk.start.y < grid.height - 1,
        perfect(grid, walk.paths@),
        walk.paths@[0].coordinate == walk.start,
        forall|i: int| 0 <= i < walk.visited@.len() ==> walk.visited@[i],
        count_marked(walk.visited@) == grid.area(),
{
    let start = Coordinate { x: draw_start(rng, grid.width), y: draw_start(rng, grid.height) };
    let mut walk = Walk::begin(grid, start);
    while !walk.stack.is_empty()
        invariant
            walk.wf(),
            walk.grid == grid,
            walk.start == start,
        decreases grid.area() - edges(walk.paths@), walk.stack@.len(),
    {
        let ghost top = walk.stack@.last();
        let ghost before = walk.paths@;
        let next_set = walk.settle();
        proof {
            lemma_push_event(grid, start@, before, Path { coordinate: top, direction: Direction::NONE });
        }
        if next_set.len() > 0 {
            proof {
                lemma_moves_from(walk.stack@.last(), grid, walk.visited@);
            }
            let index = draw_below(rng, next_set.len() as u32) as usize;
            let next = next_set[index];
            assert(next_set@.contains(next));
            proof {
                lemma_push_event(
                    grid,
                    start@,
                    walk.paths@,
                    Path { coordinate: walk.stack@.last(), direction: next.1 },
                );
            }
            walk.advance(next);
            proof {
                lemma_count_marked(walk.visited@);
            }
        }
    }
    proof {
        lemma_finished_is_perfect(walk);
    }
    walk
}

/// The trace of a walk over `grid` whose draws are fixed by `seed`.
pub fn generate(grid: Container, seed: u64) -> (trace: Vec<Path>)
    requires
        grid.walkable(),
    ensures
        perfect(grid, trace@),
        grid.width > 1 ==> trace@[0].coordinate.x < grid.width - 1,
        grid.height > 1 ==> trace@[0].coordinate.y < grid.height - 1,
{
    let mut rng = seeded(seed);
    let walk = backtrack(grid, &mut rng);
    walk.paths
}

} // verus!
