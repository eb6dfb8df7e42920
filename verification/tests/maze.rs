use maze_creator::count::carve_maze;
use maze_creator::engine::{backtrack, draw_start, generate};
use maze_creator::frame::{create_wireframe, frame_container, Cell, WireFrame};
use maze_creator::geometry::{translate, Container, Coordinate, Direction, Path};
use maze_creator::render::{output_ascii, output_path};
use maze_creator::walk::Walk;
use rand::rngs::StdRng;
use rand::SeedableRng;

fn at(x: u32, y: u32) -> Coordinate {
    Coordinate { x, y }
}

fn frame_size(grid: Container) -> Container {
    Container { width: translate(grid.width, 2, 1), height: translate(grid.height, 2, 1) }
}

fn target(p: &Path) -> Coordinate {
    match p.direction {
        Direction::NORTH => at(p.coordinate.x, p.coordinate.y - 1),
        Direction::EAST => at(p.coordinate.x + 1, p.coordinate.y),
        Direction::SOUTH => at(p.coordinate.x, p.coordinate.y + 1),
        Direction::WEST => at(p.coordinate.x - 1, p.coordinate.y),
        Direction::NONE => p.coordinate,
    }
}

fn passages(frame: &WireFrame) -> usize {
    frame.data.iter().filter(|c| **c == Cell::Passage).count()
}

fn check_tree(grid: Container, trace: &Vec<Path>) {
    let area = (grid.width * grid.height) as usize;
    let mut entered = vec![false; area];
    let start = trace[0].coordinate;
    entered[(start.y * grid.width + start.x) as usize] = true;
    let mut edges = 0;
    for p in trace {
        assert!(p.coordinate.x < grid.width && p.coordinate.y < grid.height);
        assert!(entered[(p.coordinate.y * grid.width + p.coordinate.x) as usize]);
        if p.direction != Direction::NONE {
            let t = target(p);
            assert!(t.x < grid.width && t.y < grid.height);
            let i = (t.y * grid.width + t.x) as usize;
            assert!(!entered[i]);
            entered[i] = true;
            edges += 1;
        }
    }
    assert!(entered.iter().all(|e| *e));
    assert_eq!(edges, area - 1);
    for y in 0..grid.height {
        for x in 0..grid.width {
            let here: Vec<&Path> = trace.iter().filter(|p| p.coordinate == at(x, y)).collect();
            assert!(!here.is_empty());
            let ends = here.iter().filter(|p| p.direction == Direction::NONE).count();
            assert_eq!(ends, if here.len() == ends { 1 } else { 0 });
        }
    }
}

#[test]
fn single_cell_maze() {
    let grid = Container { width: 1, height: 1 };
    let trace = generate(grid, 7);
    assert_eq!(trace, vec![Path { coordinate: at(0, 0), direction: Direction::NONE }]);
    let frame = create_wireframe(&trace, frame_size(grid));
    assert_eq!(frame.width, 3);
    assert_eq!(frame.data.len(), 9);
    for i in 0..9 {
        assert_eq!(frame.data[i], if i == 4 { Cell::Passage } else { Cell::Wall });
    }
    assert_eq!(output_ascii(&frame), "###\n# #\n###\n");
    assert_eq!(output_path(&trace), "0,0- \n");
}

#[test]
fn two_cell_maze() {
    let grid = Container { width: 2, height: 1 };
    for seed in 0..20 {
        let trace = generate(grid, seed);
        assert_eq!(
            trace,
            vec![
                Path { coordinate: at(0, 0), direction: Direction::EAST },
                Path { coordinate: at(1, 0), direction: Direction::NONE },
            ]
        );
        let frame = create_wireframe(&trace, frame_size(grid));
        assert_eq!(frame.width, 5);
        assert_eq!(frame.data.len(), 15);
        assert_eq!(passages(&frame), 3);
        assert_eq!(frame.data[6], Cell::Passage);
        assert_eq!(frame.data[7], Cell::Passage);
        assert_eq!(frame.data[8], Cell::Passage);
        assert_eq!(output_ascii(&frame), "#####\n#   #\n#####\n");
        assert_eq!(output_path(&trace), "0,0-E\n1,0- \n");
    }
}

#[test]
fn same_seed_gives_the_same_trace() {
    let grid = Container { width: 8, height: 8 };
    let a = generate(grid, 2024);
    let b = generate(grid, 2024);
    assert_eq!(a, b);
    assert_eq!(output_path(&a).into_bytes(), output_path(&b).into_bytes());
}

#[test]
fn seeds_give_different_traces() {
    let grid = Container { width: 8, height: 8 };
    let first = generate(grid, 0);
    let mut differs = false;
    for seed in 1..10 {
        if generate(grid, seed) != first {
            differs = true;
        }
    }
    assert!(differs);
}

#[test]
fn trace_is_a_spanning_tree() {
    for (w, h) in [(1, 1), (1, 5), (5, 1), (2, 2), (3, 7), (8, 8), (20, 13)] {
        for seed in 0..5 {
            let grid = Container { width: w, height: h };
            let trace = generate(grid, seed);
            check_tree(grid, &trace);
        }
    }
}

#[test]
fn start_leaves_out_the_last_row_and_column() {
    for seed in 0..50 {
        let grid = Container { width: 3, height: 2 };
        let trace = generate(grid, seed);
        assert!(trace[0].coordinate.x < 2);
        assert_eq!(trace[0].coordinate.y, 0);
    }
}

#[test]
fn every_cell_ends_marked() {
    let grid = Container { width: 4, height: 3 };
    let mut walk = Walk::begin(grid, at(1, 1));
    assert_eq!(walk.visited.iter().filter(|v| **v).count(), 1);
    assert!(walk.visited[5]);
    while !walk.stack.is_empty() {
        let next = walk.settle();
        if next.len() > 0 {
            walk.advance(next[next.len() - 1]);
        }
    }
    assert_eq!(walk.visited, vec![true; 12]);
    check_tree(grid, &walk.paths);
    assert_eq!(walk.paths[0].coordinate, at(1, 1));
}

#[test]
fn a_branch_end_is_recorded_once_for_a_run_of_steps_back() {
    // A 1 x 3 corridor walked from the top: two movements, one end.
    let grid = Container { width: 1, height: 3 };
    let mut walk = Walk::begin(grid, at(0, 0));
    while !walk.stack.is_empty() {
        let next = walk.settle();
        if next.len() > 0 {
            walk.advance(next[0]);
        }
    }
    assert_eq!(
        walk.paths,
        vec![
            Path { coordinate: at(0, 0), direction: Direction::SOUTH },
            Path { coordinate: at(0, 1), direction: Direction::SOUTH },
            Path { coordinate: at(0, 2), direction: Direction::NONE },
        ]
    );
}

#[test]
fn passages_are_cells_plus_movements() {
    for (w, h) in [(1, 1), (2, 1), (4, 4), (8, 8), (9, 3)] {
        let grid = Container { width: w, height: h };
        let trace = generate(grid, 11);
        let movements = trace.iter().filter(|p| p.direction != Direction::NONE).count();
        let frame = create_wireframe(&trace, frame_size(grid));
        assert_eq!(passages(&frame), (w * h) as usize + movements);
        assert_eq!(passages(&frame), (2 * w * h - 1) as usize);
    }
}

#[test]
fn wireframe_carves_cells_and_openings() {
    let trace = vec![
        Path { coordinate: at(1, 1), direction: Direction::NORTH },
        Path { coordinate: at(1, 0), direction: Direction::WEST },
        Path { coordinate: at(0, 0), direction: Direction::SOUTH },
        Path { coordinate: at(0, 1), direction: Direction::NONE },
    ];
    let frame = create_wireframe(&trace, Container { width: 5, height: 5 });
    assert_eq!(output_ascii(&frame), "#####\n#   #\n# # #\n# # #\n#####\n");
    let east = vec![Path { coordinate: at(0, 0), direction: Direction::EAST }];
    let frame = create_wireframe(&east, Container { width: 5, height: 3 });
    assert_eq!(output_ascii(&frame), "#####\n#  ##\n#####\n");
}

#[test]
fn wireframe_of_no_event_is_all_wall() {
    let frame = create_wireframe(&Vec::new(), Container { width: 3, height: 3 });
    assert_eq!(frame.data, vec![Cell::Wall; 9]);
    assert_eq!(frame.width, 3);
}

#[test]
fn wireframe_is_the_same_each_time() {
    let grid = Container { width: 6, height: 5 };
    let trace = generate(grid, 3);
    let a = create_wireframe(&trace, frame_size(grid));
    let b = create_wireframe(&trace, frame_size(grid));
    assert_eq!(a, b);
}

#[test]
fn ascii_has_one_line_for_each_row() {
    let grid = Container { width: 7, height: 4 };
    let trace = generate(grid, 5);
    let size = frame_size(grid);
    let frame = create_wireframe(&trace, size);
    let text = output_ascii(&frame);
    assert_eq!(text.chars().filter(|c| *c != '\n').count(), (size.width * size.height) as usize);
    assert_eq!(text.chars().filter(|c| *c == '\n').count(), size.height as usize);
    assert!(text.ends_with('\n'));
    let lines: Vec<&str> = text.lines().collect();
    assert_eq!(lines.len(), size.height as usize);
    for line in lines {
        assert_eq!(line.len(), size.width as usize);
    }
}

#[test]
fn ascii_breaks_only_full_rows() {
    let frame = WireFrame { width: 2, data: vec![Cell::Wall, Cell::Passage, Cell::Wall] };
    assert_eq!(output_ascii(&frame), "# \n#");
    let empty = WireFrame { width: 2, data: Vec::new() };
    assert_eq!(output_ascii(&empty), "");
}

#[test]
fn path_lines_write_numbers_in_decimal() {
    let trace = vec![
        Path { coordinate: at(12, 345), direction: Direction::NORTH },
        Path { coordinate: at(0, 4000000000), direction: Direction::WEST },
        Path { coordinate: at(10, 9), direction: Direction::SOUTH },
        Path { coordinate: at(7, 100), direction: Direction::NONE },
    ];
    assert_eq!(output_path(&trace), "12,345-N\n0,4000000000-W\n10,9-S\n7,100- \n");
    assert_eq!(output_path(&Vec::new()), "");
}

#[test]
fn frame_is_twice_the_grid_and_one() {
    assert_eq!(
        frame_container(Container { width: 1, height: 1 }),
        Container { width: 3, height: 3 }
    );
    assert_eq!(
        frame_container(Container { width: 8, height: 5 }),
        Container { width: 17, height: 11 }
    );
}

#[test]
fn backtrack_finishes_with_an_empty_stack_and_a_full_table() {
    let grid = Container { width: 6, height: 4 };
    let mut rng = StdRng::seed_from_u64(99);
    let walk = backtrack(grid, &mut rng);
    assert!(walk.stack.is_empty());
    assert_eq!(walk.grid, grid);
    assert_eq!(walk.visited, vec![true; 24]);
    assert_eq!(walk.paths[0].coordinate, walk.start);
    check_tree(grid, &walk.paths);
    let mut again = StdRng::seed_from_u64(99);
    assert_eq!(backtrack(grid, &mut again).paths, walk.paths);
    assert_eq!(generate(grid, 99), walk.paths);
}

#[test]
fn draw_start_stays_below_the_last_place() {
    let mut rng = StdRng::seed_from_u64(1);
    let mut seen = [false; 4];
    for _ in 0..200 {
        let at = draw_start(&mut rng, 5);
        assert!(at < 4);
        seen[at as usize] = true;
        assert_eq!(draw_start(&mut rng, 1), 0);
        assert_eq!(draw_start(&mut rng, 2), 0);
    }
    assert_eq!(seen, [true; 4]);
}

#[test]
fn settle_keeps_a_cell_with_an_open_move() {
    let grid = Container { width: 2, height: 2 };
    let mut walk = Walk::begin(grid, at(0, 0));
    let moves = walk.settle();
    assert_eq!(moves, vec![(at(1, 0), Direction::EAST), (at(0, 1), Direction::SOUTH)]);
    assert_eq!(walk.paths, vec![]);
    assert_eq!(walk.stack.len(), 1);
    walk.advance(moves[1]);
    assert_eq!(walk.paths, vec![Path { coordinate: at(0, 0), direction: Direction::SOUTH }]);
    assert_eq!(walk.stack.peek(), Some(&at(0, 1)));
    assert_eq!(walk.visited, vec![true, false, true, false]);
}

#[test]
fn directions_are_all_taken() {
    let grid = Container { width: 8, height: 8 };
    let mut counts = [0usize; 4];
    for seed in 0..40 {
        for p in generate(grid, seed) {
            match p.direction {
                Direction::NORTH => counts[0] += 1,
                Direction::EAST => counts[1] += 1,
                Direction::SOUTH => counts[2] += 1,
                Direction::WEST => counts[3] += 1,
                Direction::NONE => {}
            }
        }
    }
    assert_eq!(counts.iter().sum::<usize>(), 40 * 63);
    for c in counts {
        assert!(c > 40 * 63 / 8);
    }
}

#[test]
fn carve_maze_builds_the_frame_of_the_grid() {
    let grid = Container { width: 5, height: 4 };
    let trace = generate(grid, 8);
    let frame = carve_maze(grid, &trace);
    assert_eq!(frame, create_wireframe(&trace, frame_size(grid)));
    assert_eq!(frame.width, 11);
    assert_eq!(frame.data.len(), 99);
    assert_eq!(passages(&frame), 39);
    let single = carve_maze(Container { width: 1, height: 1 }, &generate(Container { width: 1, height: 1 }, 0));
    assert_eq!(output_ascii(&single), "###\n# #\n###\n");
}
