//! The table of entered cells, the moves that are open from a cell, and the
//! steps that change the stack and the trace of a walk.

use vstd::prelude::*;
use crate::geometry::{
    Container, Coordinate, Direction, Path, get_linear_coord, index_of, lemma_index_in_table,
    lemma_index_moved, moved, will_overflow,
};
use crate::stack::Stack;

verus! {

/// Whether the table marks the cell `p`.
pub open spec fn marked(visited: Seq<bool>, g: Container, p: (int, int)) -> bool {
    visited[index_of(p, g.width as int)]
}

/// Whether the walk may go from `p` in direction `d`: the neighbour is a
/// cell of the grid that has not been entered.
pub open spec fn open_move(p: (int, int), d: Direction, g: Container, visited: Seq<bool>) -> bool {
    d != Direction::NONE && g.holds(moved(p, d)) && !marked(visited, g, moved(p, d))
}

/// The neighbour of `c` in direction `d`, as a coordinate.
pub open spec fn neighbour(c: Coordinate, d: Direction) -> Coordinate {
    Coordinate { x: moved(c@, d).0 as u32, y: moved(c@, d).1 as u32 }
}

/// The move from `c` in direction `d` if it is open, else nothing.
pub open spec fn candidate(c: Coordinate, d: Direction, g: Container, visited: Seq<bool>) -> Seq<
    (Coordinate, Direction),
> {
    if open_move(c@, d, g, visited) {
        seq![(neighbour(c, d), d)]
    } else {
        Seq::empty()
    }
}

/// The open moves from `c`, in the order north, west, east, south.
pub open spec fn moves_from(c: Coordinate, g: Container, visited: Seq<bool>) -> Seq<
    (Coordinate, Direction),
> {
    candidate(c, Direction::NORTH, g, visited) + candidate(c, Direction::WEST, g, visited)
        + candidate(c, Direction::EAST, g, visited) + candidate(c, Direction::SOUTH, g, visited)
}

/// The list of open moves holds exactly the open moves.
pub proof fn lemma_moves_from(c: Coordinate, g: Container, visited: Seq<bool>)
    ensures
        forall|i: int|
            0 <= i < moves_from(c, g, visited).len() ==> {
                let m = #[trigger] moves_from(c, g, visited)[i];
                open_move(c@, m.1, g, visited) && m.0 == neighbour(c, m.1)
            },
        forall|d: Direction| #[trigger]
            open_move(c@, d, g, visited) ==> moves_from(c, g, visited).contains(
                (neighbour(c, d), d),
            ),
{
    let n = candidate(c, Direction::NORTH, g, visited);
    let w = candidate(c, Direction::WEST, g, visited);
    let e = candidate(c, Direction::EAST, g, visited);
    let s = candidate(c, Direction::SOUTH, g, visited);
    let all = moves_from(c, g, visited);
    assert(all =~= n + w + e + s);
    assert forall|d: Direction| #[trigger] open_move(c@, d, g, visited) implies all.contains(
        (neighbour(c, d), d),
    ) by {
        let at: int = match d {
            Direction::NORTH => 0,
            Direction::WEST => n.len() as int,
            Direction::EAST => (n.len() + w.len()) as int,
            _ => (n.len() + w.len() + e.len()) as int,
        };
        assert(all[at] == (neighbour(c, d), d));
    }
}

/// The open moves from `coord`: each with the cell it enters and its
/// direction, in the order north, west, east, south.
pub fn valid_moves(coord: Coordinate, backtrack: Container, visited: &Vec<bool>) -> (moves: Vec<
    (Coordinate, Direction),
>)
    requires
        backtrack.area() <= u32::MAX,
        backtrack.holds(coord@),
        visited@.len() == backtrack.area(),
    ensures
        moves@ == moves_from(coord, backtrack, visited@),
{
    let mut valid_moves: Vec<(Coordinate, Direction)> = Vec::new();
    proof {
        lemma_index_in_table(backtrack, coord@);
        lemma_index_moved(coord@, Direction::NORTH, backtrack.width as int);
        lemma_index_moved(coord@, Direction::WEST, backtrack.width as int);
        lemma_index_moved(coord@, Direction::EAST, backtrack.width as int);
        lemma_index_moved(coord@, Direction::SOUTH, backtrack.width as int);
    }
    let linear_index = get_linear_coord(&coord, backtrack.width);

    if !will_overflow(coord.y, 1) {
        proof {
            lemma_index_in_table(backtrack, moved(coord@, Direction::NORTH));
        }
        if !visited[linear_index - backtrack.width as usize] {
            valid_moves.push((Coordinate { x: coord.x, y: coord.y - 1 }, Direction::NORTH));
        }
    }
    assert(valid_moves@ =~= candidate(coord, Direction::NORTH, backtrack, visited@));
    let ghost north = valid_moves@;

    if !will_overflow(coord.x, 1) {
        proof {
            lemma_index_in_table(backtrack, moved(coord@, Direction::WEST));
        }
        if !visited[linear_index - 1] {
            valid_moves.push((Coordinate { x: coord.x - 1, y: coord.y }, Direction::WEST));
        }
    }
    assert(valid_moves@ =~= north + candidate(coord, Direction::WEST, backtrack, visited@));
    let ghost west = valid_moves@;

    if coord.x + 1 < backtrack.width {
        proof {
            lemma_index_in_table(backtrack, moved(coord@, Direction::EAST));
        }
        if !visited[linear_index + 1] {
            valid_moves.push((Coordinate { x: coord.x + 1, y: coord.y }, Direction::EAST));
        }
    }
    assert(valid_moves@ =~= west + candidate(coord, Direction::EAST, backtrack, visited@));
    let ghost east = valid_moves@;

    if coord.y + 1 < backtrack.height {
        proof {
            lemma_index_in_table(backtrack, moved(coord@, Direction::SOUTH));
        }
        if !visited[linear_index + backtrack.width as usize] {
            valid_moves.push((Coordinate { x: coord.x, y: coord.y + 1 }, Direction::SOUTH));
        }
    }
    assert(valid_moves@ =~= east + candidate(coord, Direction::SOUTH, backtrack, visited@));

    valid_moves
}

/// Marks the entry `coord` of the table.
pub fn update_visited(coord: usize, visited: &mut Vec<bool>)
    requires
        coord < old(visited)@.len(),
    ensures
        final(visited)@ == old(visited)@.update(coord as int, true),
{
    visited[coord] = true;
}

/// Records that a branch of the walk ends at `branch_end`.
pub fn push_stack_end(branch_end: Coordinate, paths: &mut Vec<Path>)
    ensures
        final(paths)@ == old(paths)@.push(
            (Path { coordinate: branch_end, direction: Direction::NONE }),
        ),
{
    paths.push(Path { coordinate: branch_end, direction: Direction::NONE });
}

/// Takes the move `next` from the cell on top of the stack: the trace gets
/// that cell with the direction taken, the stack gets the cell entered.
pub fn update_state(
    next: (Coordinate, Direction),
    stack: &mut Stack<Coordinate>,
    paths: &mut Vec<Path>,
)
    requires
        old(stack)@.len() > 0,
    ensures
        final(stack)@ == old(stack)@.push(next.0),
        final(paths)@ == old(paths)@.push(
            (Path { coordinate: old(stack)@.last(), direction: next.1 }),
        ),
{
    let coord = *stack.peek().unwrap();
    let path: Path = Path { coordinate: coord, direction: next.1 };
    let coord = next.0;
    stack.push(coord);
    paths.push(path);
}

/// Drops from the stack every cell at its top that has no open move, and
/// returns the open moves of the cell that then lies on top; nothing if no
/// cell is left.
pub fn get_set_from_stack(
    backtrack: Container,
    visited: &Vec<bool>,
    stack: &mut Stack<Coordinate>,
) -> (next_set: Vec<(Coordinate, Direction)>)
    requires
        backtrack.area() <= u32::MAX,
        visited@.len() == backtrack.area(),
        forall|i: int| 0 <= i < old(stack)@.len() ==> backtrack.holds(#[trigger] old(stack)@[i]@),
    ensures
        final(stack)@.len() <= old(stack)@.len(),
        final(stack)@ == old(stack)@.take(final(stack)@.len() as int),
        forall|i: int|
            final(stack)@.len() <= i < old(stack)@.len() ==> moves_from(
                #[trigger] old(stack)@[i],
                backtrack,
                visited@,
            ).len() == 0,
        final(stack)@.len() > 0 ==> next_set@.len() > 0 && next_set@ == moves_from(
            final(stack)@.last(),
            backtrack,
            visited@,
        ),
        final(stack)@.len() == 0 ==> next_set@.len() == 0,
{
    let mut next_set: Vec<(Coordinate, Direction)> = Vec::new();
    if !stack.is_empty() {
        let coord: &Coordinate = stack.peek().unwrap();
        next_set = valid_moves(*coord, backtrack, visited);
    }
    assert(stack@ == old(stack)@.take(stack@.len() as int));
    while next_set.is_empty() && !stack.is_empty()
        invariant
            backtrack.area() <= u32::MAX,
            visited@.len() == backtrack.area(),
            stack@.len() <= old(stack)@.len(),
            stack@ == old(stack)@.take(stack@.len() as int),
            forall|i: int| 0 <= i < old(stack)@.len() ==> backtrack.holds(#[trigger] old(stack)@[i]@),
            forall|i: int|
                stack@.len() <= i < old(stack)@.len() ==> moves_from(
                    #[trigger] old(stack)@[i],
                    backtrack,
                    visited@,
                ).len() == 0,
            stack@.len() > 0 ==> next_set@ == moves_from(stack@.last(), backtrack, visited@),
            stack@.len() == 0 ==> next_set@.len() == 0,
        decreases stack@.len(),
    {
        let ghost before = stack@;
        stack.pop();
        assert(stack@ == old(stack)@.take(stack@.len() as int));
        assert(before.last() == old(stack)@[before.len() - 1]);
        if !stack.is_empty() {
            let coord: &Coordinate = stack.peek().unwrap();
            assert(*coord == old(stack)@[stack@.len() - 1]);
            next_set = valid_moves(*coord, backtrack, visited);
        }
    }
    next_set
}

} // verus!
