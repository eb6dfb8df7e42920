//! The wall and passage frame that is carved from a trace.

use vstd::prelude::*;
use crate::geometry::{
    Container, Direction, Path, index_of, lemma_index_in_table, lemma_index_moved, moved, scaled,
    translate,
};

verus! {

/// What a position of the frame holds.
#[derive(Clone, Copy, Debug, PartialEq, Eq, Structural)]
pub enum Cell {
    Wall,
    Passage,
}

/// A frame of walls and passages, row after row.
#[derive(Clone, Debug, PartialEq, Eq)]
pub struct WireFrame {
    pub width: u32,
    pub data: Vec<Cell>,
}

/// The frame position of the cell at which the event `e` stands.
pub open spec fn cell_place(e: Path) -> (int, int) {
    (scaled(e.coordinate@.0), scaled(e.coordinate@.1))
}

/// The frame position that the event `e` opens towards the cell it enters;
/// for the end of a branch, the position of its own cell.
pub open spec fn opening_place(e: Path) -> (int, int) {
    moved(cell_place(e), e.direction)
}

/// Whether some event of the trace carves the position with index `i` of a
/// frame with rows `width` long.
pub open spec fn carved(t: Seq<Path>, width: int, i: int) -> bool {
    exists|k: int|
        0 <= k < t.len() && (index_of(cell_place(#[trigger] t[k]), width) == i || index_of(
            opening_place(t[k]),
            width,
        ) == i)
}

/// The frame of the size `maze` that the trace `t` carves: a passage at
/// every carved position, a wall at every other.
pub open spec fn frame_of(t: Seq<Path>, maze: Container) -> Seq<Cell> {
    Seq::new(
        maze.area() as nat,
        |i: int|
            if carved(t, maze.width as int, i) {
                Cell::Passage
            } else {
                Cell::Wall
            },
    )
}

/// Whether the cell of the event `e` lies inside the outer wall of a frame
/// of the size `maze`.
pub open spec fn fits(e: Path, maze: Container) -> bool {
    scaled(e.coordinate@.0) + 1 < maze.width && scaled(e.coordinate@.1) + 1 < maze.height
}

/// The size of the frame that is drawn for the grid `g`.
pub open spec fn frame_size(g: Container) -> Container {
    Container { width: scaled(g.width as int) as u32, height: scaled(g.height as int) as u32 }
}

/// The number of passages among the positions `s`.
pub open spec fn passages(s: Seq<Cell>) -> nat
    decreases s.len(),
{
    if s.len() == 0 {
        0
    } else if s.last() == Cell::Passage {
        passages(s.drop_last()) + 1
    } else {
        passages(s.drop_last())
    }
}

/// The size of the frame for a grid: a wall position on both sides of
/// every cell.
pub fn frame_container(backtrack: Container) -> (maze: Container)
    requires
        backtrack.walkable(),
    ensures
        maze == frame_size(backtrack),
        maze.width == scaled(backtrack.width as int),
        maze.height == scaled(backtrack.height as int),
        maze.area() <= u32::MAX,
{
    proof {
        lemma_frame_size(backtrack);
    }
    Container { width: translate(backtrack.width, 2, 1), height: translate(backtrack.height, 2, 1) }
}

/// The sides of the frame of a grid that can be walked fit in 32 bits, and
/// so does the number of its positions.
pub proof fn lemma_frame_size(g: Container)
    requires
        g.walkable(),
    ensures
        frame_size(g).width == scaled(g.width as int),
        frame_size(g).height == scaled(g.height as int),
        frame_size(g).area() <= u32::MAX,
{
    let w = scaled(g.width as int);
    let h = scaled(g.height as int);
    assert(w <= w * h && h <= w * h) by (nonlinear_arith)
        requires
            w >= 1,
            h >= 1,
    ;
}

/// Carves the frame of the size `maze` from a trace: all is wall but the
/// position of every event's cell and, for a movement, the position
/// between that cell and the cell entered.
pub fn create_wireframe(paths: &Vec<Path>, maze: Container) -> (frame: WireFrame)
    requires
        maze.area() <= u32::MAX,
        forall|k: int| 0 <= k < paths@.len() ==> fits(#[trigger] paths@[k], maze),
    ensures
        frame.width == maze.width,
        frame.data@ == frame_of(paths@, maze),
{
    let width = maze.width as usize;
    let height = maze.height as usize;
    assert(width * height == maze.area());
    let area: usize = width * height;
    let mut wireframe: Vec<Cell> = Vec::new();
    while wireframe.len() < area
        invariant
            wireframe@.len() <= area,
            forall|i: int| 0 <= i < wireframe@.len() ==> wireframe@[i] == Cell::Wall,
        decreases area - wireframe@.len(),
    {
        wireframe.push(Cell::Wall);
    }
    let mut n: usize = 0;
    while n < paths.len()
        invariant
            n <= paths@.len(),
            width == maze.width,
            maze.area() <= u32::MAX,
            wireframe@.len() == maze.area(),
            forall|k: int| 0 <= k < paths@.len() ==> fits(#[trigger] paths@[k], maze),
            forall|i: int|
                0 <= i < wireframe@.len() ==> (wireframe@[i] == Cell::Passage) == carved(
                    paths@.take(n as int),
                    width as int,
                    i,
                ),
            forall|i: int|
                0 <= i < wireframe@.len() ==> wireframe@[i] == Cell::Passage || wireframe@[i]
                    == Cell::Wall,
        decreases paths@.len() - n,
    {
        let path = paths[n];
        let ghost done = paths@.take(n as int);
        let ghost here = cell_place(path);
        proof {
            assert(fits(paths@[n as int], maze));
            lemma_index_in_table(maze, here);
            lemma_index_in_table(maze, opening_place(path));
            lemma_index_moved(here, path.direction, width as int);
            assert(here.1 * width >= 0) by (nonlinear_arith)
                requires
                    here.1 >= 0,
                    width >= 0,
            ;
        }
        let x = translate(path.coordinate.x, 2, 1) as usize;
        let y = translate(path.coordinate.y, 2, 1) as usize;
        let linear_index = y * width + x;
        let path_index = match path.direction {
            Direction::NORTH => linear_index - width,
            Direction::EAST => linear_index + 1,
            Direction::SOUTH => linear_index + width,
            Direction::WEST => linear_index - 1,
            Direction::NONE => linear_index,
        };
        let ghost before = wireframe@;
        wireframe[linear_index] = Cell::Passage;
        wireframe[path_index] = Cell::Passage;
        proof {
            let more = paths@.take(n + 1);
            assert(more =~= done.push(path));
            assert forall|i: int| 0 <= i < wireframe@.len() implies (wireframe@[i]
                == Cell::Passage) == carved(more, width as int, i) by {
                if carved(done, width as int, i) {
                    let k = choose|k: int|
                        0 <= k < done.len() && (index_of(cell_place(#[trigger] done[k]), width as int)
                            == i || index_of(opening_place(done[k]), width as int) == i);
                    assert(more[k] == done[k]);
                }
                if carved(more, width as int, i) {
                    let k = choose|k: int|
                        0 <= k < more.len() && (index_of(cell_place(#[trigger] more[k]), width as int)
                            == i || index_of(opening_place(more[k]), width as int) == i);
                    if k < n {
                        assert(done[k] == more[k]);
                    }
                }
                if i == linear_index || i == path_index {
                    assert(more[n as int] == path);
                }
            }
        }
        n += 1;
    }
    assert(paths@.take(n as int) =~= paths@);
    assert(wireframe@ =~= frame_of(paths@, maze));
    WireFrame { width: maze.width, data: wireframe }
}

/// Carving draws nothing by chance: two frames carved from one trace for
/// one size are the same frame.
pub proof fn lemma_frames_agree(a: WireFrame, b: WireFrame, t: Seq<Path>, maze: Container)
    requires
        a.width == maze.width,
        a.data@ == frame_of(t, maze),
        b.width == maze.width,
        b.data@ == frame_of(t, maze),
    ensures
        a.width == b.width,
        a.data@ == b.data@,
{
}

} // verus!
