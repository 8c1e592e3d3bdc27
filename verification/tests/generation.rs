use mazegen::{constrain_dimension, CellSet, CellType, ExitLocation, Maze, Pos};

fn generated(width: usize, height: usize, room_size: usize, exit: ExitLocation) -> Maze {
    assert!(Maze::dimensions_fit(width, height));
    let mut maze = Maze::new(width, height, room_size, exit);
    assert!(maze.room_fits());
    maze.generate();
    maze
}

fn adjacent(a: Pos, b: Pos) -> bool {
    let dx = if a.x > b.x { a.x - b.x } else { b.x - a.x };
    let dy = if a.y > b.y { a.y - b.y } else { b.y - a.y };
    dx + dy == 1
}

fn count_cells(maze: &Maze, label: CellType) -> usize {
    let (width, height) = maze.get_size();
    let mut n = 0;
    for y in 0..height {
        for x in 0..width {
            if maze.get(x, y) == label {
                n += 1;
            }
        }
    }
    n
}

#[test]
fn dimensions_are_rounded_up_to_valid_ones() {
    assert_eq!(constrain_dimension(0), 7);
    assert_eq!(constrain_dimension(6), 7);
    assert_eq!(constrain_dimension(7), 7);
    assert_eq!(constrain_dimension(8), 11);
    assert_eq!(constrain_dimension(9), 11);
    assert_eq!(constrain_dimension(10), 11);
    assert_eq!(constrain_dimension(11), 11);
    assert_eq!(constrain_dimension(12), 15);
    assert_eq!(constrain_dimension(60), 63);
    assert_eq!(constrain_dimension(30), 31);
    assert_eq!(constrain_dimension(61), 63);
    for dim in 0..200usize {
        let c = constrain_dimension(dim);
        assert!(c >= 7);
        assert_eq!((c - 7) % 4, 0);
        assert!(c >= dim);
        assert!(c < dim + 4 || dim < 7);
    }
}

#[test]
fn new_maze_is_all_wall_with_rounded_size() {
    let maze = Maze::new(60, 30, 3, ExitLocation::Right);
    assert_eq!(maze.get_size(), (63, 31));
    assert_eq!(maze.room_size(), 3);
    assert_eq!(maze.exit_type(), ExitLocation::Right);
    assert_eq!(count_cells(&maze, CellType::Wall), 63 * 31);
    let small = Maze::new(1, 2, 3, ExitLocation::Left);
    assert_eq!(small.get_size(), (7, 7));
}

#[test]
fn dimensions_that_do_not_fit_are_told_apart() {
    assert!(Maze::dimensions_fit(60, 30));
    assert!(!Maze::dimensions_fit(usize::MAX, 7));
    assert!(!Maze::dimensions_fit(usize::MAX / 2, usize::MAX / 2));
    assert!(!Maze::dimensions_fit(7, usize::MAX - 1));
}

#[test]
fn set_overwrites_one_cell() {
    let mut maze = Maze::new(7, 7, 3, ExitLocation::Right);
    maze.set(2, 5, CellType::Witch);
    assert_eq!(maze.get(2, 5), CellType::Witch);
    assert_eq!(maze.get(5, 2), CellType::Wall);
    assert_eq!(count_cells(&maze, CellType::Wall), 48);
    maze.set(2, 5, CellType::Wall);
    assert_eq!(count_cells(&maze, CellType::Wall), 49);
}

#[test]
fn small_maze_has_exit_on_the_right_and_a_carved_room() {
    for _ in 0..20 {
        let maze = generated(7, 7, 3, ExitLocation::Right);
        assert_eq!(maze.get(6, 3), CellType::Exit);
        for y in 2..=4 {
            for x in 2..=4 {
                assert_eq!(maze.get(x, y), CellType::Path);
            }
        }
        assert_eq!(count_cells(&maze, CellType::Exit), 1);
    }
}

#[test]
fn exit_sits_in_the_middle_of_the_configured_side() {
    let left = generated(11, 7, 1, ExitLocation::Left);
    assert_eq!(left.get(0, 3), CellType::Exit);
    let right = generated(11, 7, 1, ExitLocation::Right);
    assert_eq!(right.get(10, 3), CellType::Exit);
    let top = generated(11, 7, 1, ExitLocation::Top);
    assert_eq!(top.get(5, 0), CellType::Exit);
    let bottom = generated(11, 7, 1, ExitLocation::Bottom);
    assert_eq!(bottom.get(5, 6), CellType::Exit);
}

#[test]
fn random_exit_is_one_of_the_four_and_varies() {
    let mut seen = [false; 4];
    for _ in 0..200 {
        let maze = generated(11, 11, 3, ExitLocation::Random);
        let at = [
            maze.get(0, 5) == CellType::Exit,
            maze.get(10, 5) == CellType::Exit,
            maze.get(5, 0) == CellType::Exit,
            maze.get(5, 10) == CellType::Exit,
        ];
        assert_eq!(at.iter().filter(|&&b| b).count(), 1);
        assert_eq!(count_cells(&maze, CellType::Exit), 1);
        for i in 0..4 {
            seen[i] = seen[i] || at[i];
        }
    }
    assert!(seen.iter().filter(|&&b| b).count() >= 2);
}

#[test]
fn generated_maze_holds_only_walls_paths_and_the_exit() {
    let maze = generated(31, 19, 5, ExitLocation::Top);
    let (width, height) = maze.get_size();
    let total = count_cells(&maze, CellType::Wall)
        + count_cells(&maze, CellType::Path)
        + count_cells(&maze, CellType::Exit);
    assert_eq!(total, width * height);
    for x in 0..width {
        if x != width / 2 {
            assert_eq!(maze.get(x, 0), CellType::Wall);
        }
        assert_eq!(maze.get(x, height - 1), CellType::Wall);
    }
    for y in 0..height {
        assert_eq!(maze.get(0, y), CellType::Wall);
        assert_eq!(maze.get(width - 1, y), CellType::Wall);
    }
}

#[test]
fn every_odd_cell_is_carved() {
    let maze = generated(23, 15, 3, ExitLocation::Left);
    let (width, height) = maze.get_size();
    let mut y = 1;
    while y < height - 1 {
        let mut x = 1;
        while x < width - 1 {
            assert_eq!(maze.get(x, y), CellType::Path);
            x += 2;
        }
        y += 2;
    }
}

#[test]
fn carver_alone_builds_a_tree() {
    let mut maze = Maze::new(15, 11, 1, ExitLocation::Right);
    let center = maze.center();
    assert_eq!(center, Pos { x: 7, y: 5 });
    maze.carve_room();
    maze.generate_from(center);
    // 7 x 5 lattice cells joined by one carved wall per tree edge
    assert_eq!(count_cells(&maze, CellType::Path), 35 + 34);
}

#[test]
fn carver_reports_one_move_per_lattice_cell() {
    let mut maze = Maze::new(15, 11, 1, ExitLocation::Right);
    let center = maze.center();
    maze.carve_room();
    let moves = maze.generate_from(center);
    assert_eq!(moves.len(), 7 * 5 - 1);
    let blank = Maze::new(15, 11, 1, ExitLocation::Right);
    let mut visited = CellSet::new(15, 11);
    visited.insert(center);
    let mut reached = vec![center];
    for (target, wall) in moves {
        assert_eq!(target.x % 2, 1);
        assert_eq!(target.y % 2, 1);
        assert!(!reached.contains(&target));
        let from = Pos { x: 2 * wall.x - target.x, y: 2 * wall.y - target.y };
        // depth first: the move leaves the cell reached last among those
        // that still have somewhere to go
        let last_open = reached
            .iter()
            .rev()
            .find(|p| !blank.carve_options(**p, &visited).is_empty())
            .copied();
        assert_eq!(last_open, Some(from));
        assert!(blank.carve_options(from, &visited).contains(&(target, wall)));
        assert_eq!(maze.get(wall.x, wall.y), CellType::Path);
        assert_eq!(maze.get(target.x, target.y), CellType::Path);
        visited.insert(target);
        reached.push(target);
    }
    for p in reached {
        assert!(blank.carve_options(p, &visited).is_empty());
    }
}

#[test]
fn carve_options_lists_unvisited_targets_in_direction_order() {
    let maze = Maze::new(7, 7, 1, ExitLocation::Right);
    let mut visited = CellSet::new(7, 7);
    let center = Pos { x: 3, y: 3 };
    visited.insert(center);
    let all = maze.carve_options(center, &visited);
    assert_eq!(
        all,
        vec![
            (Pos { x: 5, y: 3 }, Pos { x: 4, y: 3 }),
            (Pos { x: 1, y: 3 }, Pos { x: 2, y: 3 }),
            (Pos { x: 3, y: 5 }, Pos { x: 3, y: 4 }),
            (Pos { x: 3, y: 1 }, Pos { x: 3, y: 2 }),
        ]
    );
    visited.insert(Pos { x: 1, y: 3 });
    let corner = maze.carve_options(Pos { x: 1, y: 1 }, &visited);
    assert_eq!(
        corner,
        vec![
            (Pos { x: 3, y: 1 }, Pos { x: 2, y: 1 }),
        ]
    );
    assert!(visited.contains(center));
    assert!(!visited.contains(Pos { x: 5, y: 5 }));
    assert!(!visited.contains(Pos { x: 7, y: 0 }));
}

#[test]
fn injector_opens_only_walls_between_two_facing_paths() {
    let mut maze = Maze::new(23, 23, 3, ExitLocation::Right);
    maze.carve_room();
    maze.generate_from(maze.center());
    for _ in 0..10 {
        let before = maze.clone();
        let candidates = maze.wall_candidates();
        for wall in &candidates {
            assert!(before.is_loop_candidate(wall.x, wall.y));
        }
        match maze.inject_loop() {
            Some(wall) => {
                assert!(candidates.contains(&wall));
                assert_eq!(before.get(wall.x, wall.y), CellType::Wall);
                assert_eq!(maze.get(wall.x, wall.y), CellType::Path);
                let horizontal = before.get(wall.x - 1, wall.y) == CellType::Path
                    && before.get(wall.x + 1, wall.y) == CellType::Path;
                let vertical = before.get(wall.x, wall.y - 1) == CellType::Path
                    && before.get(wall.x, wall.y + 1) == CellType::Path;
                assert!(horizontal != vertical);
                assert_eq!(
                    count_cells(&maze, CellType::Path),
                    count_cells(&before, CellType::Path) + 1
                );
            }
            None => assert!(candidates.is_empty()),
        }
    }
}

#[test]
fn injector_runs_one_pass_per_eight_cells_of_half_perimeter() {
    let mut maze = Maze::new(23, 23, 3, ExitLocation::Right);
    maze.carve_room();
    maze.generate_from(maze.center());
    let before = count_cells(&maze, CellType::Path);
    let removed = maze.inject_loops();
    assert!(removed.len() <= (23 + 23) / 8);
    assert_eq!(count_cells(&maze, CellType::Path), before + removed.len());
    for wall in &removed {
        assert_eq!(maze.get(wall.x, wall.y), CellType::Path);
    }
}

#[test]
fn wall_between_two_paths_is_a_candidate() {
    let mut maze = Maze::new(7, 7, 1, ExitLocation::Right);
    maze.set(2, 3, CellType::Path);
    maze.set(4, 3, CellType::Path);
    assert!(maze.is_loop_candidate(3, 3));
    assert_eq!(maze.wall_candidates(), vec![Pos { x: 3, y: 3 }]);
    maze.set(3, 2, CellType::Path);
    assert!(!maze.is_loop_candidate(3, 3));
    maze.set(3, 2, CellType::Wall);
    maze.set(4, 3, CellType::Wall);
    maze.set(3, 4, CellType::Path);
    // a left and a lower neighbour do not face each other
    assert!(!maze.is_loop_candidate(3, 3));
    assert!(maze.wall_candidates().is_empty());
}

#[test]
fn route_leads_from_the_room_to_the_exit() {
    for &(width, height, room, exit) in &[
        (7usize, 7usize, 3usize, ExitLocation::Right),
        (11, 7, 1, ExitLocation::Left),
        (31, 15, 5, ExitLocation::Top),
        (15, 31, 3, ExitLocation::Bottom),
        (61, 31, 3, ExitLocation::Random),
    ] {
        for _ in 0..5 {
            let mut maze = generated(width, height, room, exit);
            let route = maze.shortest_path().expect("a generated maze has a route");
            assert!(!route.is_empty());
            let first = route[0];
            assert!(maze.in_room(first));
            let last = route[route.len() - 1];
            assert_eq!(maze.get(last.x, last.y), CellType::Exit);
            for pair in route.windows(2) {
                assert!(adjacent(pair[0], pair[1]));
                assert!(maze.get(pair[1].x, pair[1].y).is_traversable());
            }
            for (i, a) in route.iter().enumerate() {
                for b in &route[i + 1..] {
                    assert_ne!(a, b);
                }
            }
        }
    }
}

#[test]
fn route_search_reports_none_without_an_exit() {
    let mut maze = Maze::new(11, 11, 3, ExitLocation::Right);
    maze.carve_room();
    maze.generate_from(maze.center());
    assert_eq!(maze.route_search(), None);
    assert_eq!(maze.shortest_path(), None);
}

#[test]
fn route_search_reports_none_when_the_exit_is_walled_off() {
    let mut maze = Maze::new(7, 7, 3, ExitLocation::Right);
    maze.carve_room();
    maze.set(6, 3, CellType::Exit);
    assert_eq!(maze.route_search(), None);
    maze.set(5, 3, CellType::Path);
    assert_eq!(
        maze.route_search(),
        Some(vec![Pos { x: 4, y: 3 }, Pos { x: 5, y: 3 }, Pos { x: 6, y: 3 }])
    );
}

#[test]
fn search_goes_depth_first_from_the_centre() {
    // Two ways lead to the exit: three steps to the right, or a detour
    // that starts upwards. The upper neighbour is pushed last and so
    // explored first.
    let mut maze = Maze::new(7, 7, 1, ExitLocation::Right);
    for &(x, y) in &[(3, 3), (4, 3), (5, 3), (3, 2), (3, 1), (4, 1), (5, 1), (5, 2)] {
        maze.set(x, y, CellType::Path);
    }
    maze.set(6, 3, CellType::Exit);
    assert_eq!(
        maze.route_search(),
        Some(vec![
            Pos { x: 3, y: 3 },
            Pos { x: 3, y: 2 },
            Pos { x: 3, y: 1 },
            Pos { x: 4, y: 1 },
            Pos { x: 5, y: 1 },
            Pos { x: 5, y: 2 },
            Pos { x: 5, y: 3 },
            Pos { x: 6, y: 3 },
        ])
    );
}

#[test]
fn room_cells_that_lead_out_are_explored_after_the_centre() {
    // The centre is walled in inside its room; the route starts at the
    // room cell next to the opening.
    let mut maze = Maze::new(11, 7, 3, ExitLocation::Right);
    maze.carve_room();
    maze.set(5, 3, CellType::Wall);
    maze.set(4, 3, CellType::Wall);
    maze.set(6, 3, CellType::Wall);
    maze.set(5, 2, CellType::Wall);
    maze.set(5, 4, CellType::Wall);
    for x in 7..10 {
        maze.set(x, 4, CellType::Path);
    }
    maze.set(9, 3, CellType::Path);
    maze.set(10, 3, CellType::Exit);
    assert_eq!(
        maze.route_search(),
        Some(vec![
            Pos { x: 6, y: 4 },
            Pos { x: 7, y: 4 },
            Pos { x: 8, y: 4 },
            Pos { x: 9, y: 4 },
            Pos { x: 9, y: 3 },
            Pos { x: 10, y: 3 },
        ])
    );
}
