//! The picture of a frame: one filled square of pixels for every position.

use vstd::prelude::*;
use vstd::arithmetic::div_mod::lemma_mod_decreases;
use image::{Rgb, RgbImage};
use crate::frame::{Cell, WireFrame};
use crate::geometry::{Container, Coordinate, index_of, lemma_index_decides, lemma_index_in_table};

verus! {

/// A picture in three channels, held by an `image::RgbImage`. Its pixels
/// are read and written only through the functions of this file.
#[verifier::external_body]
pub struct Canvas {
    image: RgbImage,
}

/// The pixels of a picture: for every place inside it, counted from the
/// top left corner, the three channels of its colour.
pub uninterp spec fn pixels(image: Canvas) -> Map<(int, int), Seq<u8>>;

/// `ImageBuffer::new`: a picture of the given size whose channels are all
/// zero. The three channels times the width, and that times the height,
/// must not overflow.
#[verifier::external_body]
pub(crate) fn blank(width: u32, height: u32) -> (image: Canvas)
    requires
        3 * width <= usize::MAX,
        3 * width * height <= usize::MAX,
    ensures
        pixels(image).dom() == (Container { width, height }).cells(),
        forall|p: (int, int)| #[trigger]
            pixels(image).dom().contains(p) ==> pixels(image)[p] == seq![0u8, 0u8, 0u8],
{
    Canvas { image: RgbImage::new(width, height) }
}

/// `ImageBuffer::get_pixel_mut`, assigned through: the pixel at a place
/// inside the picture gets the colour, and no other pixel changes.
#[verifier::external_body]
pub(crate) fn put(image: &mut Canvas, x: u32, y: u32, colour: [u8; 3])
    requires
        pixels(*old(image)).dom().contains((x as int, y as int)),
    ensures
        pixels(*final(image)) == pixels(*old(image)).insert((x as int, y as int), colour@),
{
    *image.image.get_pixel_mut(x, y) = Rgb(colour);
}

/// `ImageBuffer::dimensions`: the picture holds exactly the places below
/// its width and height.
#[verifier::external_body]
pub(crate) fn extent(image: &Canvas) -> (size: (u32, u32))
    ensures
        pixels(*image).dom() == (Container { width: size.0, height: size.1 }).cells(),
{
    image.image.dimensions()
}

/// `ImageBuffer::get_pixel`: the channels of the pixel at a place inside
/// the picture.
#[verifier::external_body]
pub(crate) fn channels(image: &Canvas, x: u32, y: u32) -> (colour: [u8; 3])
    requires
        pixels(*image).dom().contains((x as int, y as int)),
    ensures
        colour@ == pixels(*image)[(x as int, y as int)],
{
    image.image.get_pixel(x, y).0
}

impl Canvas {
    /// The width and height of the picture.
    pub fn size(&self) -> (size: Container)
        ensures
            pixels(*self).dom() == size.cells(),
    {
        let (width, height) = extent(self);
        Container { width, height }
    }

    /// The colour of the pixel at `(x, y)`, if the picture has one there.
    pub fn get(&self, x: u32, y: u32) -> (colour: Option<[u8; 3]>)
        ensures
            match colour {
                Some(c) => pixels(*self).dom().contains((x as int, y as int)) && c@ == pixels(
                    *self,
                )[(x as int, y as int)],
                None => !pixels(*self).dom().contains((x as int, y as int)),
            },
    {
        let size = self.size();
        if x < size.width && y < size.height {
            assert(size.holds((x as int, y as int)));
            Some(channels(self, x, y))
        } else {
            assert(!size.holds((x as int, y as int)));
            None
        }
    }
}

/// A rectangle of pixels of one colour: the `start`-th rectangle of the
/// size `dimensions`, counted in both directions from the top left corner.
pub struct Square {
    pub start: Coordinate,
    pub dimensions: Container,
    pub colour: [u8; 3],
}

impl Square {
    /// Whether the pixel `p` lies in the rectangle.
    pub open spec fn covers(&self, p: (int, int)) -> bool {
        &&& self.dimensions.width * self.start.x <= p.0 < self.dimensions.width * self.start.x
            + self.dimensions.width
        &&& self.dimensions.height * self.start.y <= p.1 < self.dimensions.height * self.start.y
            + self.dimensions.height
    }
}

impl Cell {
    /// The colour of a position: passages are white, walls black.
    pub open spec fn palette(self) -> Seq<u8> {
        match self {
            Cell::Passage => seq![255u8, 255u8, 255u8],
            Cell::Wall => seq![0u8, 0u8, 0u8],
        }
    }

    /// The colour of a position.
    pub fn colour(&self) -> (c: [u8; 3])
        ensures
            c@ == self.palette(),
    {
        match self {
            Cell::Passage => {
                let c: [u8; 3] = [255, 255, 255];
                assert(c@ =~= seq![255u8, 255u8, 255u8]);
                c
            },
            Cell::Wall => {
                let c: [u8; 3] = [0, 0, 0];
                assert(c@ =~= seq![0u8, 0u8, 0u8]);
                c
            },
        }
    }
}

/// Fills the rectangle `square` of the picture with its colour.
pub fn paint_square(square: Square, image: &mut Canvas)
    requires
        square.dimensions.width * square.start.x + square.dimensions.width <= u32::MAX,
        square.dimensions.height * square.start.y + square.dimensions.height <= u32::MAX,
        forall|p: (int, int)| #[trigger] square.covers(p) ==> pixels(*old(image)).dom().contains(p),
    ensures
        pixels(*final(image)).dom() == pixels(*old(image)).dom(),
        forall|p: (int, int)| #[trigger]
            pixels(*final(image)).dom().contains(p) ==> pixels(*final(image))[p] == if square.covers(
                p,
            ) {
                square.colour@
            } else {
                pixels(*old(image))[p]
            },
{
    let ghost before = pixels(*image);
    assert(square.dimensions.width * square.start.x >= 0 && square.dimensions.height
        * square.start.y >= 0) by (nonlinear_arith);
    let left = square.dimensions.width * square.start.x;
    let top = square.dimensions.height * square.start.y;
    let mut y: u32 = 0;
    while y < square.dimensions.height
        invariant
            y <= square.dimensions.height,
            left == square.dimensions.width * square.start.x,
            top == square.dimensions.height * square.start.y,
            left + square.dimensions.width <= u32::MAX,
            top + square.dimensions.height <= u32::MAX,
            pixels(*image).dom() == before.dom(),
            forall|p: (int, int)| #[trigger] square.covers(p) ==> before.dom().contains(p),
            forall|p: (int, int)| #[trigger]
                before.dom().contains(p) ==> pixels(*image)[p] == if square.covers(p) && p.1 < top
                    + y {
                    square.colour@
                } else {
                    before[p]
                },
        decreases square.dimensions.height - y,
    {
        let mut x: u32 = 0;
        while x < square.dimensions.width
            invariant
                y < square.dimensions.height,
                x <= square.dimensions.width,
                left == square.dimensions.width * square.start.x,
                top == square.dimensions.height * square.start.y,
                left + square.dimensions.width <= u32::MAX,
                top + square.dimensions.height <= u32::MAX,
                pixels(*image).dom() == before.dom(),
                forall|p: (int, int)| #[trigger] square.covers(p) ==> before.dom().contains(p),
                forall|p: (int, int)| #[trigger]
                    before.dom().contains(p) ==> pixels(*image)[p] == if square.covers(p) && (p.1
                        < top + y || (p.1 == top + y && p.0 < left + x)) {
                        square.colour@
                    } else {
                        before[p]
                    },
            decreases square.dimensions.width - x,
        {
            assert(square.covers((left + x, top + y)));
            put(image, left + x, top + y, square.colour);
            assert(pixels(*image).dom() =~= before.dom());
            x += 1;
        }
        y += 1;
    }
}

/// The place of the frame that the pixel `p` belongs to, in squares of the
/// size `cell`.
pub open spec fn square_of(p: (int, int), cell: Container) -> (int, int) {
    (p.0 / (cell.width as int), p.1 / (cell.height as int))
}

/// The picture of a frame: every position is a square of the size `cell`,
/// white for a passage and black for a wall.
pub fn draw_png(frame: &WireFrame, cell: Container, maze: Container) -> (image: Canvas)
    requires
        frame.width == maze.width,
        maze.width > 0,
        frame.data@.len() == maze.area(),
        maze.area() <= u32::MAX,
        maze.width * cell.width <= u32::MAX,
        maze.height * cell.height <= u32::MAX,
        3 * (maze.width * cell.width) <= usize::MAX,
        3 * (maze.width * cell.width) * (maze.height * cell.height) <= usize::MAX,
    ensures
        pixels(image).dom() == (Container {
            width: (maze.width * cell.width) as u32,
            height: (maze.height * cell.height) as u32,
        }).cells(),
        forall|p: (int, int)| #[trigger]
            pixels(image).dom().contains(p) ==> maze.holds(square_of(p, cell)) && pixels(image)[p]
                == frame.data@[index_of(square_of(p, cell), maze.width as int)].palette(),
{
    let mw = maze.width;
    let cw = cell.width;
    let ch = cell.height;
    assert(mw * cw >= 0 && maze.height * ch >= 0) by (nonlinear_arith);
    let mut image: Canvas = blank(mw * cw, maze.height * ch);
    let ghost size = Container { width: (mw * cw) as u32, height: (maze.height * ch) as u32 };
    assert forall|p: (int, int)| size.holds(p) implies maze.holds(#[trigger] square_of(p, cell)) by {
        assert(0 <= p.0 / (cw as int) < mw && 0 <= p.1 / (ch as int) < maze.height)
            by (nonlinear_arith)
            requires
                0 <= p.0 < mw * cw,
                0 <= p.1 < maze.height * ch,
        ;
    }
    let count = frame.data.len();
    assert(maze.width * maze.height >= 0) by (nonlinear_arith);
    let mut i: u32 = 0;
    while i < count as u32
        invariant
            i <= count,
            count == frame.data@.len(),
            count == maze.area(),
            count <= u32::MAX,
            mw == maze.width,
            mw > 0,
            frame.width == mw,
            cw == cell.width,
            ch == cell.height,
            mw * cw <= u32::MAX,
            maze.height * ch <= u32::MAX,
            pixels(image).dom() == size.cells(),
            size.width == mw * cw,
            size.height == maze.height * ch,
            forall|p: (int, int)| size.holds(p) ==> maze.holds(#[trigger] square_of(p, cell)),
            forall|p: (int, int)| #[trigger]
                pixels(image).dom().contains(p) && index_of(square_of(p, cell), mw as int) < i
                    ==> pixels(image)[p] == frame.data@[index_of(
                    square_of(p, cell),
                    mw as int,
                )].palette(),
        decreases count - i,
    {
        let x: u32 = i % frame.width;
        assert(x <= i) by {
            lemma_mod_decreases(i as nat, mw as nat);
        }
        let y: u32 = (i - x) / frame.width;
        proof {
            assert(i == mw * ((i - x) / (mw as int)) + 0 + x && 0 <= y < maze.height)
                by (nonlinear_arith)
                requires
                    mw > 0,
                    x == i % mw,
                    y == (i - x) / (mw as int),
                    0 <= i < mw * maze.height,
            ;
            assert(index_of((x as int, y as int), mw as int) == i) by (nonlinear_arith)
                requires
                    i == mw * y + x,
            ;
            assert(cw * x + cw <= mw * cw && ch * y + ch <= maze.height * ch && cw * x >= 0 && ch
                * y >= 0) by (nonlinear_arith)
                requires
                    0 <= x < mw,
                    0 <= y < maze.height,
                    cw >= 0,
                    ch >= 0,
            ;
        }
        let square: Square = Square {
            start: Coordinate { x: x, y: y },
            dimensions: Container { width: cell.width, height: cell.height },
            colour: frame.data[i as usize].colour(),
        };
        let ghost before = pixels(image);
        assert forall|p: (int, int)| size.holds(p) implies (square.covers(p) <==> square_of(p, cell)
            == (x as int, y as int)) by {
            let a = p.0 / (cw as int);
            let b = p.1 / (ch as int);
            assert(cw > 0 && ch > 0) by (nonlinear_arith)
                requires
                    0 <= p.0 < mw * cw,
                    0 <= p.1 < maze.height * ch,
            ;
            assert(cw * a <= p.0 < cw * a + cw && ch * b <= p.1 < ch * b + ch) by (nonlinear_arith)
                requires
                    cw > 0,
                    ch > 0,
                    a == p.0 / (cw as int),
                    b == p.1 / (ch as int),
            ;
            if square.covers(p) {
                assert(a == x && b == y) by (nonlinear_arith)
                    requires
                        cw * a <= p.0 < cw * a + cw,
                        ch * b <= p.1 < ch * b + ch,
                        cw * x <= p.0 < cw * x + cw,
                        ch * y <= p.1 < ch * y + ch,
                ;
            }
        }
        paint_square(square, &mut image);
        proof {
            assert forall|p: (int, int)| #[trigger]
                pixels(image).dom().contains(p) && index_of(square_of(p, cell), mw as int) < i + 1
                implies pixels(image)[p] == frame.data@[index_of(
                square_of(p, cell),
                mw as int,
            )].palette() by {
                assert(size.holds(p));
                assert(maze.holds(square_of(p, cell)));
                assert(before.dom().contains(p));
                if index_of(square_of(p, cell), mw as int) == i {
                    lemma_index_decides(square_of(p, cell), (x as int, y as int), mw as int);
                } else if square.covers(p) {
                    assert(false);
                }
            }
        }
        i += 1;
    }
    proof {
        assert forall|p: (int, int)| #[trigger] pixels(image).dom().contains(p) implies maze.holds(
            square_of(p, cell),
        ) && index_of(square_of(p, cell), mw as int) < i by {
            assert(size.holds(p));
            lemma_index_in_table(maze, square_of(p, cell));
        }
    }
    image
}

} // verus!
