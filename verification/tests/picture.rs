use maze_creator::frame::{Cell, WireFrame};
use maze_creator::geometry::{Container, Coordinate};
use maze_creator::raster::{draw_png, paint_square, Square};

const BLACK: [u8; 3] = [0, 0, 0];
const WHITE: [u8; 3] = [255, 255, 255];

fn single_cell_frame() -> WireFrame {
    let mut data = vec![Cell::Wall; 9];
    data[4] = Cell::Passage;
    WireFrame { width: 3, data }
}

#[test]
fn picture_has_a_square_for_every_position() {
    let frame = single_cell_frame();
    let cell = Container { width: 2, height: 3 };
    let maze = Container { width: 3, height: 3 };
    let picture = draw_png(&frame, cell, maze);
    assert_eq!(picture.size(), Container { width: 6, height: 9 });
    for y in 0..9 {
        for x in 0..6 {
            let inside = (2..4).contains(&x) && (3..6).contains(&y);
            assert_eq!(picture.get(x, y), Some(if inside { WHITE } else { BLACK }));
        }
    }
    assert_eq!(picture.get(6, 0), None);
    assert_eq!(picture.get(0, 9), None);
}

#[test]
fn picture_follows_the_frame_row_by_row() {
    let frame = WireFrame {
        width: 3,
        data: vec![
            Cell::Passage, Cell::Wall, Cell::Wall,
            Cell::Wall, Cell::Wall, Cell::Passage,
        ],
    };
    let cell = Container { width: 1, height: 1 };
    let maze = Container { width: 3, height: 2 };
    let picture = draw_png(&frame, cell, maze);
    assert_eq!(picture.size(), Container { width: 3, height: 2 });
    assert_eq!(picture.get(0, 0), Some(WHITE));
    assert_eq!(picture.get(1, 0), Some(BLACK));
    assert_eq!(picture.get(2, 0), Some(BLACK));
    assert_eq!(picture.get(0, 1), Some(BLACK));
    assert_eq!(picture.get(1, 1), Some(BLACK));
    assert_eq!(picture.get(2, 1), Some(WHITE));
}

#[test]
fn picture_of_cells_without_size_is_empty() {
    let frame = single_cell_frame();
    let maze = Container { width: 3, height: 3 };
    let picture = draw_png(&frame, Container { width: 0, height: 4 }, maze);
    assert_eq!(picture.size(), Container { width: 0, height: 12 });
    assert_eq!(picture.get(0, 0), None);
}

#[test]
fn paint_square_fills_one_rectangle() {
    let frame = WireFrame { width: 3, data: vec![Cell::Wall; 9] };
    let cell = Container { width: 2, height: 2 };
    let maze = Container { width: 3, height: 3 };
    let mut picture = draw_png(&frame, cell, maze);
    let red = [200, 10, 20];
    let square = Square { start: Coordinate { x: 2, y: 1 }, dimensions: cell, colour: red };
    paint_square(square, &mut picture);
    for y in 0..6 {
        for x in 0..6 {
            let inside = (4..6).contains(&x) && (2..4).contains(&y);
            assert_eq!(picture.get(x, y), Some(if inside { red } else { BLACK }));
        }
    }
}

#[test]
fn cell_colours_and_glyphs() {
    assert_eq!(Cell::Passage.colour(), WHITE);
    assert_eq!(Cell::Wall.colour(), BLACK);
    assert_eq!(Cell::Passage.as_str(), " ");
    assert_eq!(Cell::Wall.as_str(), "#");
}
