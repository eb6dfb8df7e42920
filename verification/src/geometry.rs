//! Grid sizes, coordinates, directions and the arithmetic between the walked
//! grid and the denser frame that is drawn.

use vstd::prelude::*;

verus! {

/// The size of a rectangular grid.
#[derive(Clone, Copy, Debug, PartialEq, Eq, Structural)]
pub struct Container {
    pub width: u32,
    pub height: u32,
}

/// A cell of a grid, counted from the top left corner.
#[derive(Clone, Copy, Debug, PartialEq, Eq, Structural)]
pub struct Coordinate {
    pub x: u32,
    pub y: u32,
}

/// A compass direction, or `NONE` for the end of a branch.
#[allow(non_camel_case_types)]
#[derive(Clone, Copy, Debug, PartialEq, Eq, Structural)]
pub enum Direction {
    NORTH,
    EAST,
    SOUTH,
    WEST,
    NONE,
}

/// One event of a walk: standing at `coordinate`, the walk moved in
/// `direction`, or, with `NONE`, closed a branch there.
#[derive(Clone, Copy, Debug, PartialEq, Eq, Structural)]
pub struct Path {
    pub coordinate: Coordinate,
    pub direction: Direction,
}

impl View for Coordinate {
    type V = (int, int);

    open spec fn view(&self) -> (int, int) {
        (self.x as int, self.y as int)
    }
}

/// The cell one step from `p` in direction `d`; `p` itself for `NONE`.
pub open spec fn moved(p: (int, int), d: Direction) -> (int, int) {
    match d {
        Direction::NORTH => (p.0, p.1 - 1),
        Direction::EAST => (p.0 + 1, p.1),
        Direction::SOUTH => (p.0, p.1 + 1),
        Direction::WEST => (p.0 - 1, p.1),
        Direction::NONE => p,
    }
}

/// Row-major position of the cell `p` in a table of rows `width` long.
pub open spec fn index_of(p: (int, int), width: int) -> int {
    p.1 * width + p.0
}

/// The frame position of the grid position `i`: every cell of the grid has
/// a wall position on both sides.
pub open spec fn scaled(i: int) -> int {
    2 * i + 1
}

impl Direction {
    /// The letter of a direction in a written trace.
    pub open spec fn letter(self) -> char {
        match self {
            Direction::NORTH => 'N',
            Direction::EAST => 'E',
            Direction::SOUTH => 'S',
            Direction::WEST => 'W',
            Direction::NONE => ' ',
        }
    }

    /// The letter of a direction, as text.
    pub fn as_string(&self) -> (s: &'static str)
        ensures
            s@ == seq![self.letter()],
    {
        match self {
            Direction::NORTH => {
                proof { reveal_strlit("N"); }
                assert("N"@ =~= seq!['N']);
                "N"
            },
            Direction::EAST => {
                proof { reveal_strlit("E"); }
                assert("E"@ =~= seq!['E']);
                "E"
            },
            Direction::SOUTH => {
                proof { reveal_strlit("S"); }
                assert("S"@ =~= seq!['S']);
                "S"
            },
            Direction::WEST => {
                proof { reveal_strlit("W"); }
                assert("W"@ =~= seq!['W']);
                "W"
            },
            Direction::NONE => {
                proof { reveal_strlit(" "); }
                assert(" "@ =~= seq![' ']);
                " "
            },
        }
    }
}

impl Container {
    /// The number of cells.
    pub open spec fn area(&self) -> int {
        self.width * self.height
    }

    /// Whether `p` is a cell of this grid.
    pub open spec fn holds(&self, p: (int, int)) -> bool {
        0 <= p.0 < self.width && 0 <= p.1 < self.height
    }

    /// All cells of this grid.
    pub open spec fn cells(&self) -> Set<(int, int)> {
        Set::new(|p: (int, int)| self.holds(p))
    }

    /// A grid that can be walked and drawn: it has a cell, and the cells of
    /// its frame can be counted in 32 bits.
    pub open spec fn walkable(&self) -> bool {
        &&& self.width >= 1
        &&& self.height >= 1
        &&& scaled(self.width as int) * scaled(self.height as int) <= u32::MAX
    }

    /// The number of cells, where 32 bits hold it.
    pub fn get_area(&self) -> (a: u32)
        requires
            self.area() <= u32::MAX,
        ensures
            a == self.area(),
    {
        self.width * self.height
    }
}

/// `coefficient * value + offset`: with two and one, the frame position of
/// a grid position, and the side of a frame from the side of a grid.
pub fn translate(value: u32, coefficient: u32, offset: u32) -> (r: u32)
    requires
        coefficient * value + offset <= u32::MAX,
    ensures
        r == coefficient * value + offset,
{
    assert(coefficient * value >= 0) by (nonlinear_arith);
    coefficient * value + offset
}

/// Whether `value - offset` would fall below zero.
pub fn will_overflow(value: u32, offset: u32) -> (r: bool)
    ensures
        r == (value - offset < 0),
{
    value < offset
}

/// The index of a cell in a table of rows `width` long.
pub fn get_linear_coord(coord: &Coordinate, width: u32) -> (i: usize)
    requires
        index_of(coord@, width as int) <= u32::MAX,
    ensures
        i == index_of(coord@, width as int),
{
    assert(coord.y * width >= 0) by (nonlinear_arith);
    (coord.y * width + coord.x) as usize
}

/// A cell of a grid has its index inside the grid's table.
pub proof fn lemma_index_in_table(g: Container, p: (int, int))
    requires
        g.holds(p),
    ensures
        0 <= index_of(p, g.width as int) < g.area(),
{
    let w = g.width as int;
    let h = g.height as int;
    assert(0 <= p.1 * w && p.1 * w + w <= w * h) by (nonlinear_arith)
        requires
            0 <= p.1 < h,
            0 <= w,
    ;
}

/// Two cells in rows of one width share an index only if they are one cell.
pub proof fn lemma_index_decides(p: (int, int), q: (int, int), width: int)
    requires
        0 <= p.0 < width,
        0 <= q.0 < width,
        index_of(p, width) == index_of(q, width),
    ensures
        p == q,
{
    assert(p.1 == q.1) by (nonlinear_arith)
        requires
            0 <= p.0 < width,
            0 <= q.0 < width,
            p.1 * width + p.0 == q.1 * width + q.0,
    ;
}

/// The index of a neighbour lies one cell or one row away.
pub proof fn lemma_index_moved(p: (int, int), d: Direction, width: int)
    ensures
        index_of(moved(p, d), width) == match d {
            Direction::NORTH => index_of(p, width) - width,
            Direction::EAST => index_of(p, width) + 1,
            Direction::SOUTH => index_of(p, width) + width,
            Direction::WEST => index_of(p, width) - 1,
            Direction::NONE => index_of(p, width),
        },
{
    assert((p.1 - 1) * width == p.1 * width - width) by (nonlinear_arith);
    assert((p.1 + 1) * width == p.1 * width + width) by (nonlinear_arith);
}

/// A grid that can be walked has a table that 32 bits can index.
pub proof fn lemma_walkable_area(g: Container)
    requires
        g.walkable(),
    ensures
        1 <= g.area() <= u32::MAX,
        g.area() < scaled(g.width as int) * scaled(g.height as int),
{
    let w = g.width as int;
    let h = g.height as int;
    assert(1 <= w * h && w * h < (2 * w + 1) * (2 * h + 1)) by (nonlinear_arith)
        requires
            w >= 1,
            h >= 1,
    ;
}

} // verus!
