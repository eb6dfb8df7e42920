//! The randomized depth-first walk that carves a maze, and what its trace
//! is known to be at every step.

use vstd::prelude::*;
use crate::geometry::{
    Container, Coordinate, Direction, Path, get_linear_coord, index_of, lemma_index_decides,
    lemma_index_in_table, lemma_walkable_area, moved,
};
use crate::moves::{
    get_set_from_stack, lemma_moves_from, marked, moves_from, neighbour, open_move,
    push_stack_end, update_state, update_visited, valid_moves,
};
use crate::stack::Stack;

verus! {

/// The cells that a trace from `start` has entered.
pub open spec fn reached(start: (int, int), t: Seq<Path>) -> Set<(int, int)>
    decreases t.len(),
{
    if t.len() == 0 {
        set![start]
    } else if t.last().direction == Direction::NONE {
        reached(start, t.drop_last())
    } else {
        reached(start, t.drop_last()).insert(moved(t.last().coordinate@, t.last().direction))
    }
}

/// The number of movements in a trace.
pub open spec fn edges(t: Seq<Path>) -> nat
    decreases t.len(),
{
    if t.len() == 0 {
        0
    } else if t.last().direction == Direction::NONE {
        edges(t.drop_last())
    } else {
        edges(t.drop_last()) + 1
    }
}

/// The cells at which a trace holds an event.
pub open spec fn recorded(t: Seq<Path>) -> Set<(int, int)>
    decreases t.len(),
{
    if t.len() == 0 {
        Set::empty()
    } else {
        recorded(t.drop_last()).insert(t.last().coordinate@)
    }
}

/// Every event of the trace stands at a cell entered before it, and every
/// movement enters a cell of the grid that no earlier event had entered:
/// the movements join the cells into a tree, one new leaf at a time.
pub open spec fn grows_tree(g: Container, start: (int, int), t: Seq<Path>) -> bool
    decreases t.len(),
{
    if t.len() == 0 {
        g.holds(start)
    } else {
        let before = t.drop_last();
        let target = moved(t.last().coordinate@, t.last().direction);
        &&& grows_tree(g, start, before)
        &&& reached(start, before).contains(t.last().coordinate@)
        &&& t.last().direction != Direction::NONE ==> g.holds(target) && !reached(
            start,
            before,
        ).contains(target)
    }
}

/// No other event stands at the cell of an event that ends a branch: the
/// walk ends a branch only at a cell that it never goes on from, and ends
/// it there once.
pub open spec fn ends_alone(t: Seq<Path>) -> bool {
    forall|j: int, k: int|
        0 <= j < t.len() && 0 <= k < t.len() && j != k && (#[trigger] t[j]).direction
            == Direction::NONE ==> (#[trigger] t[k]).coordinate@ != t[j].coordinate@
}

/// The trace of a finished walk: a tree over all cells of the grid, rooted
/// at the cell of its first event, with an event at every cell, and the
/// end of a branch at exactly the cells with no movement from them.
pub open spec fn perfect(g: Container, t: Seq<Path>) -> bool {
    &&& t.len() > 0
    &&& ends_alone(t)
    &&& grows_tree(g, t[0].coordinate@, t)
    &&& reached(t[0].coordinate@, t) == g.cells()
    &&& recorded(t) == g.cells()
    &&& edges(t) == g.area() - 1
}

/// The number of marks in a table.
pub open spec fn count_marked(v: Seq<bool>) -> nat
    decreases v.len(),
{
    if v.len() == 0 {
        0
    } else if v.last() {
        count_marked(v.drop_last()) + 1
    } else {
        count_marked(v.drop_last())
    }
}

/// Whether the cell `p` lies on the stack.
pub open spec fn on_stack(stack: Seq<Coordinate>, p: (int, int)) -> bool {
    exists|i: int| 0 <= i < stack.len() && #[trigger] stack[i]@ == p
}

/// What one more event does to the cells entered, the cells recorded, the
/// number of movements and the tree.
pub proof fn lemma_push_event(g: Container, start: (int, int), t: Seq<Path>, e: Path)
    ensures
        reached(start, t.push(e)) == if e.direction == Direction::NONE {
            reached(start, t)
        } else {
            reached(start, t).insert(moved(e.coordinate@, e.direction))
        },
        edges(t.push(e)) == if e.direction == Direction::NONE {
            edges(t)
        } else {
            edges(t) + 1
        },
        recorded(t.push(e)) == recorded(t).insert(e.coordinate@),
        grows_tree(g, start, t.push(e)) == {
            &&& grows_tree(g, start, t)
            &&& reached(start, t).contains(e.coordinate@)
            &&& e.direction != Direction::NONE ==> g.holds(moved(e.coordinate@, e.direction))
                && !reached(start, t).contains(moved(e.coordinate@, e.direction))
        },
{
    assert(t.push(e).drop_last() =~= t);
    assert(t.push(e).last() == e);
}

/// Marking an unmarked entry raises the number of marks by one.
pub proof fn lemma_count_update(v: Seq<bool>, i: int)
    requires
        0 <= i < v.len(),
        !v[i],
    ensures
        count_marked(v.update(i, true)) == count_marked(v) + 1,
    decreases v.len(),
{
    let u = v.update(i, true);
    if i == v.len() - 1 {
        assert(u.drop_last() =~= v.drop_last());
    } else {
        lemma_count_update(v.drop_last(), i);
        assert(u.drop_last() =~= v.drop_last().update(i, true));
    }
}

/// A table has no more marks than entries, and as many only if every entry
/// is marked; a table without a mark counts none.
pub proof fn lemma_count_marked(v: Seq<bool>)
    ensures
        count_marked(v) <= v.len(),
        (forall|i: int| 0 <= i < v.len() ==> v[i]) ==> count_marked(v) == v.len(),
        (forall|i: int| 0 <= i < v.len() ==> !v[i]) ==> count_marked(v) == 0,
    decreases v.len(),
{
    if v.len() > 0 {
        lemma_count_marked(v.drop_last());
    }
}

/// The cells recorded are the cells of the events, and finitely many.
pub proof fn lemma_recorded_events(t: Seq<Path>)
    ensures
        recorded(t).finite(),
        forall|k: int| 0 <= k < t.len() ==> recorded(t).contains(#[trigger] t[k].coordinate@),
        forall|p: (int, int)|
            recorded(t).contains(p) ==> exists|k: int|
                0 <= k < t.len() && #[trigger] t[k].coordinate@ == p,
    decreases t.len(),
{
    if t.len() > 0 {
        let before = t.drop_last();
        lemma_recorded_events(before);
        assert forall|k: int| 0 <= k < t.len() implies recorded(t).contains(
            #[trigger] t[k].coordinate@,
        ) by {
            if k < before.len() {
                assert(before[k] == t[k]);
            }
        }
        assert forall|p: (int, int)| recorded(t).contains(p) implies exists|k: int|
            0 <= k < t.len() && #[trigger] t[k].coordinate@ == p by {
            if recorded(before).contains(p) {
                let k = choose|k: int| 0 <= k < before.len() && #[trigger] before[k].coordinate@ == p;
                assert(t[k].coordinate@ == p);
            } else {
                assert(t[t.len() - 1].coordinate@ == p);
            }
        }
    }
}

/// A walk in progress.
pub struct Walk {
    /// The grid that is walked.
    pub grid: Container,
    /// The cell at which the walk began.
    pub start: Coordinate,
    /// For every cell of the grid, whether the walk has entered it.
    pub visited: Vec<bool>,
    /// The cells from the start to the cell where the walk stands.
    pub stack: Stack<Coordinate>,
    /// The events so far.
    pub paths: Vec<Path>,
}

impl Walk {
    /// The table marks exactly the cells that the trace has entered, and
    /// they are cells of the grid.
    pub open spec fn table_agrees(&self) -> bool {
        &&& self.visited@.len() == self.grid.area()
        &&& count_marked(self.visited@) == edges(self.paths@) + 1
        &&& forall|p: (int, int)|
            #![trigger self.grid.holds(p)]
            #![trigger reached(self.start@, self.paths@).contains(p)]
            self.grid.holds(p) ==> marked(self.visited@, self.grid, p) == reached(
                self.start@,
                self.paths@,
            ).contains(p)
        &&& forall|p: (int, int)| #[trigger]
            reached(self.start@, self.paths@).contains(p) ==> self.grid.holds(p)
    }

    /// Every cell on the stack has been entered.
    pub open spec fn stack_entered(&self) -> bool {
        forall|i: int|
            0 <= i < self.stack@.len() ==> reached(self.start@, self.paths@).contains(
                #[trigger] self.stack@[i]@,
            )
    }

    /// A cell that was entered and has left the stack has no neighbour in the
    /// grid that was not entered.
    pub open spec fn left_cells_closed(&self) -> bool {
        forall|p: (int, int), d: Direction|
            reached(self.start@, self.paths@).contains(p) && !on_stack(self.stack@, p)
                && self.grid.holds(#[trigger] moved(p, d)) ==> reached(
                self.start@,
                self.paths@,
            ).contains(moved(p, d))
    }

    /// The trace holds events only at entered cells, and one at every
    /// entered cell but for the cell on top of the stack.
    pub open spec fn events_cover(&self) -> bool {
        &&& forall|p: (int, int)| #[trigger]
            recorded(self.paths@).contains(p) ==> reached(self.start@, self.paths@).contains(p)
        &&& forall|p: (int, int)| #[trigger]
            reached(self.start@, self.paths@).contains(p) ==> recorded(self.paths@).contains(p)
                || (self.stack@.len() > 0 && self.stack@.last()@ == p)
        &&& self.paths@.len() > 0 ==> self.paths@[0].coordinate == self.start
        &&& self.paths@.len() == 0 ==> self.stack@ == seq![self.start]
    }

    /// No cell lies on the stack twice, and none at which a branch has
    /// ended; a branch ends only at a cell without another event; and the
    /// cell on top of the stack has an open move unless the walk has just
    /// entered it.
    pub open spec fn ends_settled(&self) -> bool {
        &&& ends_alone(self.paths@)
        &&& forall|i: int, j: int|
            0 <= i < j < self.stack@.len() ==> (#[trigger] self.stack@[i])@ != (
            #[trigger] self.stack@[j])@
        &&& forall|k: int|
            0 <= k < self.paths@.len() && (#[trigger] self.paths@[k]).direction == Direction::NONE
                ==> !on_stack(self.stack@, self.paths@[k].coordinate@)
        &&& self.stack@.len() > 0 ==> !recorded(self.paths@).contains(self.stack@.last()@)
            || moves_from(self.stack@.last(), self.grid, self.visited@).len() > 0
    }

    /// What holds of a walk at every step.
    pub open spec fn wf(&self) -> bool {
        &&& self.grid.walkable()
        &&& self.grid.holds(self.start@)
        &&& grows_tree(self.grid, self.start@, self.paths@)
        &&& self.table_agrees()
        &&& self.stack_entered()
        &&& self.left_cells_closed()
        &&& self.events_cover()
        &&& self.ends_settled()
    }

    /// A walk that has come to its end: no cell is left on the stack.
    pub open spec fn finished(&self) -> bool {
        self.wf() && self.stack@.len() == 0
    }

    /// A walk that stands at `start` and has entered no other cell.
    pub fn begin(grid: Container, start: Coordinate) -> (walk: Walk)
        requires
            grid.walkable(),
            grid.holds(start@),
        ensures
            walk.wf(),
            walk.grid == grid,
            walk.start == start,
            walk.stack@ == seq![start],
            walk.paths@.len() == 0,
            walk.visited@ == Seq::new(grid.area() as nat, |i: int| false).update(
                index_of(start@, grid.width as int),
                true,
            ),
    {
        proof {
            lemma_walkable_area(grid);
            lemma_index_in_table(grid, start@);
        }
        let area = grid.get_area();
        let mut visited: Vec<bool> = Vec::new();
        while visited.len() < area as usize
            invariant
                visited@.len() <= area,
                forall|i: int| 0 <= i < visited@.len() ==> !visited@[i],
            decreases area - visited@.len(),
        {
            visited.push(false);
        }
        let ghost blank = visited@;
        assert(blank =~= Seq::new(grid.area() as nat, |i: int| false));
        let mut stack: Stack<Coordinate> = Stack::new();
        stack.push(start);
        update_visited(get_linear_coord(stack.peek().unwrap(), grid.width), &mut visited);
        let walk = Walk { grid, start, visited, stack, paths: Vec::new() };
        proof {
            lemma_count_marked(blank);
            lemma_count_update(blank, index_of(start@, grid.width as int));
            assert(walk.stack@[0] == start);
            assert forall|p: (int, int)| grid.holds(p) implies marked(walk.visited@, grid, p) == (p
                == start@) by {
                lemma_index_in_table(grid, p);
                if index_of(p, grid.width as int) == index_of(start@, grid.width as int) {
                    lemma_index_decides(p, start@, grid.width as int);
                }
            }
            assert forall|p: (int, int), d: Direction|
                reached(start@, walk.paths@).contains(p) && !on_stack(walk.stack@, p)
                    && grid.holds(#[trigger] moved(p, d)) implies reached(
                start@,
                walk.paths@,
            ).contains(moved(p, d)) by {
                assert(walk.stack@[0]@ == p);
            }
        }
        walk
    }

    /// The open moves from the cell where the walk stands, after the walk
    /// has gone back from a cell without one: there the trace gets the end
    /// of a branch, and the stack loses every cell at its top that has no
    /// open move. No move is returned exactly if the stack is left empty.
    pub fn settle(&mut self) -> (next_set: Vec<(Coordinate, Direction)>)
        requires
            old(self).wf(),
            old(self).stack@.len() > 0,
        ensures
            final(self).wf(),
            final(self).grid == old(self).grid,
            final(self).start == old(self).start,
            final(self).visited == old(self).visited,
            final(self).stack@.len() <= old(self).stack@.len(),
            final(self).stack@ == old(self).stack@.take(final(self).stack@.len() as int),
            forall|i: int|
                final(self).stack@.len() <= i < old(self).stack@.len() ==> moves_from(
                    #[trigger] old(self).stack@[i],
                    old(self).grid,
                    old(self).visited@,
                ).len() == 0,
            final(self).stack@.len() > 0 ==> next_set@.len() > 0 && next_set@ == moves_from(
                final(self).stack@.last(),
                old(self).grid,
                old(self).visited@,
            ),
            final(self).stack@.len() == 0 ==> next_set@.len() == 0,
            final(self).paths@ == if final(self).stack@.len() == old(self).stack@.len() {
                old(self).paths@
            } else {
                old(self).paths@.push(
                    (Path { coordinate: old(self).stack@.last(), direction: Direction::NONE }),
                )
            },
    {
        proof {
            lemma_walkable_area(self.grid);
            assert(self.grid.holds(self.stack@[self.stack@.len() - 1]@));
        }
        let coord = *self.stack.peek().unwrap();
        let mut next_set = valid_moves(coord, self.grid, &self.visited);
        if next_set.len() == 0 {
            let ghost stack0 = self.stack@;
            let ghost paths0 = self.paths@;
            let ghost start = self.start@;
            push_stack_end(self.stack.pop().unwrap(), &mut self.paths);
            assert forall|i: int| 0 <= i < self.stack@.len() implies self.grid.holds(
                #[trigger] self.stack@[i]@,
            ) by {
                assert(self.stack@[i] == stack0[i]);
                assert(reached(start, paths0).contains(stack0[i]@));
            }
            let ghost stack1 = self.stack@;
            next_set = get_set_from_stack(self.grid, &self.visited, &mut self.stack);
            proof {
                let e = Path { coordinate: coord, direction: Direction::NONE };
                lemma_push_event(self.grid, start, paths0, e);
                assert(reached(start, paths0).contains(stack0[stack0.len() - 1]@));
                assert(self.stack@ =~= stack0.take(self.stack@.len() as int));
                assert forall|i: int| self.stack@.len() <= i < stack0.len() implies moves_from(
                    #[trigger] stack0[i],
                    self.grid,
                    self.visited@,
                ).len() == 0 by {
                    if i < stack1.len() {
                        assert(stack0[i] == stack1[i]);
                    }
                }
                assert(self.stack_entered()) by {
                    assert forall|i: int| 0 <= i < self.stack@.len() implies reached(
                        start,
                        self.paths@,
                    ).contains(#[trigger] self.stack@[i]@) by {
                        assert(self.stack@[i] == stack0[i]);
                    }
                }
                assert(self.left_cells_closed()) by {
                    assert forall|p: (int, int), d: Direction|
                        reached(start, self.paths@).contains(p) && !on_stack(self.stack@, p)
                            && self.grid.holds(#[trigger] moved(p, d)) implies reached(
                        start,
                        self.paths@,
                    ).contains(moved(p, d)) by {
                        if on_stack(stack0, p) {
                            let i = choose|i: int| 0 <= i < stack0.len() && #[trigger] stack0[i]@ == p;
                            if i < self.stack@.len() {
                                assert(self.stack@[i]@ == p);
                            }
                            lemma_moves_from(stack0[i], self.grid, self.visited@);
                            if d != Direction::NONE {
                                if open_move(p, d, self.grid, self.visited@) {
                                    assert(moves_from(stack0[i], self.grid, self.visited@).contains(
                                        (neighbour(stack0[i], d), d),
                                    ));
                                }
                            }
                        }
                    }
                }
                assert(self.events_cover()) by {
                    assert(self.paths@[0] == if paths0.len() == 0 {
                        e
                    } else {
                        paths0[0]
                    });
                    assert(paths0.len() == 0 ==> stack0[0] == self.start);
                }
                assert(self.ends_settled()) by {
                    let top = stack0.len() - 1;
                    lemma_recorded_events(paths0);
                    assert(stack0[top]@ == coord@);
                    assert(on_stack(stack0, coord@));
                    assert forall|j: int, k: int|
                        0 <= j < self.paths@.len() && 0 <= k < self.paths@.len() && j != k && (
                        #[trigger] self.paths@[j]).direction == Direction::NONE implies (
                    #[trigger] self.paths@[k]).coordinate@ != self.paths@[j].coordinate@ by {
                        if j < paths0.len() {
                            assert(self.paths@[j] == paths0[j]);
                        }
                        if k < paths0.len() {
                            assert(self.paths@[k] == paths0[k]);
                        }
                    }
                    assert forall|i: int, j: int| 0 <= i < j < self.stack@.len() implies (
                    #[trigger] self.stack@[i])@ != (#[trigger] self.stack@[j])@ by {
                        assert(self.stack@[i] == stack0[i] && self.stack@[j] == stack0[j]);
                    }
                    assert forall|k: int|
                        0 <= k < self.paths@.len() && (#[trigger] self.paths@[k]).direction
                            == Direction::NONE implies !on_stack(
                        self.stack@,
                        self.paths@[k].coordinate@,
                    ) by {
                        let p = self.paths@[k].coordinate@;
                        if on_stack(self.stack@, p) {
                            let i = choose|i: int|
                                0 <= i < self.stack@.len() && #[trigger] self.stack@[i]@ == p;
                            assert(stack0[i]@ == p);
                            if k < paths0.len() {
                                assert(self.paths@[k] == paths0[k]);
                            } else {
                                assert(stack0[i]@ != stack0[top]@);
                            }
                        }
                    }
                }
            }
        }
        next_set
    }

    /// Takes the open move `next` from the cell where the walk stands.
    pub fn advance(&mut self, next: (Coordinate, Direction))
        requires
            old(self).wf(),
            old(self).stack@.len() > 0,
            moves_from(old(self).stack@.last(), old(self).grid, old(self).visited@).contains(next),
        ensures
            final(self).wf(),
            final(self).grid == old(self).grid,
            final(self).start == old(self).start,
            final(self).stack@ == old(self).stack@.push(next.0),
            final(self).paths@ == old(self).paths@.push(
                (Path { coordinate: old(self).stack@.last(), direction: next.1 }),
            ),
            final(self).visited@ == old(self).visited@.update(
                index_of(next.0@, old(self).grid.width as int),
                true,
            ),
            next.1 != Direction::NONE,
    {
        let ghost top = self.stack@.last();
        let ghost stack0 = self.stack@;
        let ghost paths0 = self.paths@;
        let ghost table0 = self.visited@;
        let ghost start = self.start@;
        let ghost g = self.grid;
        let ghost e = Path { coordinate: top, direction: next.1 };
        proof {
            lemma_moves_from(top, g, table0);
            lemma_walkable_area(g);
            lemma_index_in_table(g, next.0@);
            assert(reached(start, paths0).contains(stack0[stack0.len() - 1]@));
            assert(g.holds(next.0@));
        }
        update_state(next, &mut self.stack, &mut self.paths);
        update_visited(
            get_linear_coord(self.stack.peek().unwrap(), self.grid.width),
            &mut self.visited,
        );
        proof {
            let at = index_of(next.0@, g.width as int);
            lemma_push_event(g, start, paths0, e);
            lemma_count_update(table0, at);
            assert(self.table_agrees()) by {
                assert forall|p: (int, int)| g.holds(p) implies marked(self.visited@, g, p)
                    == reached(start, self.paths@).contains(p) by {
                    lemma_index_in_table(g, p);
                    if index_of(p, g.width as int) == at {
                        lemma_index_decides(p, next.0@, g.width as int);
                    }
                }
            }
            assert(self.stack_entered()) by {
                assert forall|i: int| 0 <= i < self.stack@.len() implies reached(
                    start,
                    self.paths@,
                ).contains(#[trigger] self.stack@[i]@) by {
                    if i < stack0.len() {
                        assert(self.stack@[i] == stack0[i]);
                    }
                }
            }
            assert(self.left_cells_closed()) by {
                assert forall|p: (int, int), d: Direction|
                    reached(start, self.paths@).contains(p) && !on_stack(self.stack@, p)
                        && g.holds(#[trigger] moved(p, d)) implies reached(
                    start,
                    self.paths@,
                ).contains(moved(p, d)) by {
                    assert(self.stack@[stack0.len() as int]@ == next.0@);
                    if on_stack(stack0, p) {
                        let i = choose|i: int| 0 <= i < stack0.len() && #[trigger] stack0[i]@ == p;
                        assert(self.stack@[i]@ == p);
                    }
                }
            }
            assert(self.events_cover()) by {
                assert(self.paths@[0] == if paths0.len() == 0 {
                    e
                } else {
                    paths0[0]
                });
                assert(paths0.len() == 0 ==> stack0[0] == self.start);
            }
            assert(self.ends_settled()) by {
                let top_at = stack0.len() - 1;
                lemma_recorded_events(paths0);
                assert(on_stack(stack0, stack0[top_at]@));
                assert(self.stack@[stack0.len() as int] == next.0);
                assert forall|j: int, k: int|
                    0 <= j < self.paths@.len() && 0 <= k < self.paths@.len() && j != k && (
                    #[trigger] self.paths@[j]).direction == Direction::NONE implies (
                #[trigger] self.paths@[k]).coordinate@ != self.paths@[j].coordinate@ by {
                    assert(self.paths@[j] == paths0[j]);
                    if k < paths0.len() {
                        assert(self.paths@[k] == paths0[k]);
                    }
                }
                assert forall|i: int, j: int| 0 <= i < j < self.stack@.len() implies (
                #[trigger] self.stack@[i])@ != (#[trigger] self.stack@[j])@ by {
                    assert(self.stack@[i] == stack0[i]);
                    assert(reached(start, paths0).contains(stack0[i]@));
                    if j < stack0.len() {
                        assert(self.stack@[j] == stack0[j]);
                    }
                }
                assert forall|k: int|
                    0 <= k < self.paths@.len() && (#[trigger] self.paths@[k]).direction
                        == Direction::NONE implies !on_stack(
                    self.stack@,
                    self.paths@[k].coordinate@,
                ) by {
                    let p = self.paths@[k].coordinate@;
                    assert(self.paths@[k] == paths0[k]);
                    assert(recorded(paths0).contains(p));
                    if on_stack(self.stack@, p) {
                        let i = choose|i: int|
                            0 <= i < self.stack@.len() && #[trigger] self.stack@[i]@ == p;
                        if i < stack0.len() {
                            assert(stack0[i]@ == p);
                        }
                    }
                }
            }
        }
    }
}

} // verus!
