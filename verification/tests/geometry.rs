use maze_creator::geometry::{
    get_linear_coord, translate, will_overflow, Container, Coordinate, Direction, Path,
};
use maze_creator::moves::{
    get_set_from_stack, push_stack_end, update_state, update_visited, valid_moves,
};
use maze_creator::stack::Stack;

fn at(x: u32, y: u32) -> Coordinate {
    Coordinate { x, y }
}

#[test]
fn area_is_width_times_height() {
    assert_eq!(Container { width: 8, height: 5 }.get_area(), 40);
    assert_eq!(Container { width: 1, height: 1 }.get_area(), 1);
    assert_eq!(Container { width: 0, height: 9 }.get_area(), 0);
}

#[test]
fn translate_scales_and_shifts() {
    assert_eq!(translate(0, 2, 1), 1);
    assert_eq!(translate(3, 2, 1), 7);
    assert_eq!(translate(8, 2, 1), 17);
    assert_eq!(translate(5, 3, 4), 19);
}

#[test]
fn will_overflow_tells_when_subtraction_falls_below_zero() {
    assert!(will_overflow(0, 1));
    assert!(!will_overflow(1, 1));
    assert!(!will_overflow(7, 1));
    assert!(will_overflow(3, 4));
    assert!(!will_overflow(0, 0));
}

#[test]
fn linear_index_is_row_major() {
    assert_eq!(get_linear_coord(&at(0, 0), 8), 0);
    assert_eq!(get_linear_coord(&at(3, 0), 8), 3);
    assert_eq!(get_linear_coord(&at(3, 2), 8), 19);
    assert_eq!(get_linear_coord(&at(7, 7), 8), 63);
}

#[test]
fn direction_letters() {
    assert_eq!(Direction::NORTH.as_string(), "N");
    assert_eq!(Direction::EAST.as_string(), "E");
    assert_eq!(Direction::SOUTH.as_string(), "S");
    assert_eq!(Direction::WEST.as_string(), "W");
    assert_eq!(Direction::NONE.as_string(), " ");
}

#[test]
fn stack_is_last_in_first_out() {
    let mut s: Stack<u32> = Stack::new();
    assert!(s.is_empty());
    assert_eq!(s.peek(), None);
    assert_eq!(s.pop(), None);
    s.push(4);
    s.push(9);
    assert!(!s.is_empty());
    assert_eq!(s.len(), 2);
    assert_eq!(s.peek(), Some(&9));
    assert_eq!(s.pop(), Some(9));
    assert_eq!(s.peek(), Some(&4));
    assert_eq!(s.pop(), Some(4));
    assert!(s.is_empty());
}

#[test]
fn valid_moves_in_the_middle_come_north_west_east_south() {
    let grid = Container { width: 3, height: 3 };
    let visited = vec![false; 9];
    let moves = valid_moves(at(1, 1), grid, &visited);
    assert_eq!(
        moves,
        vec![
            (at(1, 0), Direction::NORTH),
            (at(0, 1), Direction::WEST),
            (at(2, 1), Direction::EAST),
            (at(1, 2), Direction::SOUTH),
        ]
    );
}

#[test]
fn valid_moves_stay_inside_the_grid() {
    let grid = Container { width: 3, height: 2 };
    let visited = vec![false; 6];
    assert_eq!(
        valid_moves(at(0, 0), grid, &visited),
        vec![(at(1, 0), Direction::EAST), (at(0, 1), Direction::SOUTH)]
    );
    assert_eq!(
        valid_moves(at(2, 1), grid, &visited),
        vec![(at(2, 0), Direction::NORTH), (at(1, 1), Direction::WEST)]
    );
}

#[test]
fn valid_moves_skip_entered_cells() {
    let grid = Container { width: 3, height: 3 };
    let mut visited = vec![false; 9];
    visited[1] = true;
    visited[5] = true;
    assert_eq!(
        valid_moves(at(1, 1), grid, &visited),
        vec![(at(0, 1), Direction::WEST), (at(1, 2), Direction::SOUTH)]
    );
    let all = vec![true; 9];
    assert_eq!(valid_moves(at(1, 1), grid, &all), vec![]);
}

#[test]
fn valid_moves_of_a_single_cell_are_none() {
    let grid = Container { width: 1, height: 1 };
    assert_eq!(valid_moves(at(0, 0), grid, &vec![true]), vec![]);
    assert_eq!(valid_moves(at(0, 0), grid, &vec![false]), vec![]);
}

#[test]
fn update_visited_marks_one_entry() {
    let mut visited = vec![false; 4];
    update_visited(2, &mut visited);
    assert_eq!(visited, vec![false, false, true, false]);
    update_visited(2, &mut visited);
    assert_eq!(visited, vec![false, false, true, false]);
}

#[test]
fn push_stack_end_records_a_branch_end() {
    let mut paths: Vec<Path> = Vec::new();
    push_stack_end(at(3, 4), &mut paths);
    assert_eq!(paths, vec![Path { coordinate: at(3, 4), direction: Direction::NONE }]);
}

#[test]
fn update_state_records_the_cell_left_and_pushes_the_cell_entered() {
    let mut stack: Stack<Coordinate> = Stack::new();
    stack.push(at(1, 1));
    let mut paths: Vec<Path> = Vec::new();
    update_state((at(2, 1), Direction::EAST), &mut stack, &mut paths);
    assert_eq!(paths, vec![Path { coordinate: at(1, 1), direction: Direction::EAST }]);
    assert_eq!(stack.len(), 2);
    assert_eq!(stack.peek(), Some(&at(2, 1)));
}

#[test]
fn get_set_from_stack_pops_to_the_first_cell_with_a_move() {
    // A 3 x 2 grid in which only the cell (0, 1) is not entered.
    let grid = Container { width: 3, height: 2 };
    let visited = vec![true, true, true, false, true, true];
    let mut stack: Stack<Coordinate> = Stack::new();
    stack.push(at(0, 0));
    stack.push(at(1, 0));
    stack.push(at(2, 0));
    stack.push(at(2, 1));
    stack.push(at(1, 1));
    let moves = get_set_from_stack(grid, &visited, &mut stack);
    assert_eq!(moves, vec![(at(0, 1), Direction::WEST)]);
    assert_eq!(stack.len(), 5);

    let mut stack: Stack<Coordinate> = Stack::new();
    stack.push(at(0, 0));
    stack.push(at(1, 0));
    stack.push(at(2, 0));
    let moves = get_set_from_stack(grid, &visited, &mut stack);
    assert_eq!(moves, vec![(at(0, 1), Direction::SOUTH)]);
    assert_eq!(stack.len(), 1);
    assert_eq!(stack.peek(), Some(&at(0, 0)));
}

#[test]
fn get_set_from_stack_empties_the_stack_when_no_move_is_left() {
    let grid = Container { width: 2, height: 1 };
    let visited = vec![true, true];
    let mut stack: Stack<Coordinate> = Stack::new();
    stack.push(at(0, 0));
    stack.push(at(1, 0));
    let moves = get_set_from_stack(grid, &visited, &mut stack);
    assert_eq!(moves, vec![]);
    assert!(stack.is_empty());
    let moves = get_set_from_stack(grid, &visited, &mut stack);
    assert_eq!(moves, vec![]);
    assert!(stack.is_empty());
}
