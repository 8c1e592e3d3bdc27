use mazegen::{dangers, rewards, CellType, ExitLocation, Maze, Pos};

fn generated(width: usize, height: usize, room_size: usize) -> Maze {
    let mut maze = Maze::new(width, height, room_size, ExitLocation::Right);
    maze.generate();
    maze
}

fn cells(maze: &Maze) -> Vec<(Pos, CellType)> {
    let (width, height) = maze.get_size();
    let mut all = Vec::new();
    for y in 0..height {
        for x in 0..width {
            all.push((Pos { x, y }, maze.get(x, y)));
        }
    }
    all
}

fn artifacts(maze: &Maze) -> Vec<Pos> {
    cells(maze)
        .into_iter()
        .filter(|(_, c)| c.is_reward() || c.is_danger())
        .map(|(p, _)| p)
        .collect()
}

fn adjacent(a: Pos, b: Pos) -> bool {
    let dx = if a.x > b.x { a.x - b.x } else { b.x - a.x };
    let dy = if a.y > b.y { a.y - b.y } else { b.y - a.y };
    dx + dy == 1
}

fn place_by_ratio(maze: &mut Maze, fill_ratio: f32) -> usize {
    let count = (maze.path_cell_count() as f32 * fill_ratio) as usize;
    maze.place_artifacts(count);
    count
}

#[test]
fn ratio_zero_places_nothing() {
    let mut maze = generated(31, 19, 3);
    let before = cells(&maze);
    let count = place_by_ratio(&mut maze, 0.0);
    assert_eq!(count, 0);
    assert_eq!(cells(&maze), before);
    assert!(artifacts(&maze).is_empty());
    for (_, c) in cells(&maze) {
        assert!(c == CellType::Wall || c == CellType::Path || c == CellType::Exit);
    }
}

#[test]
fn no_two_artifacts_are_neighbours() {
    for &ratio in &[0.05f32, 0.1, 0.3, 0.5, 1.0] {
        let mut maze = generated(31, 23, 3);
        place_by_ratio(&mut maze, ratio);
        let placed = artifacts(&maze);
        assert!(!placed.is_empty());
        for (i, a) in placed.iter().enumerate() {
            for b in &placed[i + 1..] {
                assert!(!adjacent(*a, *b));
            }
        }
    }
}

#[test]
fn artifacts_go_on_path_cells_outside_the_room() {
    let mut maze = generated(31, 23, 5);
    let before = maze.clone();
    let sites = before.artifact_sites();
    place_by_ratio(&mut maze, 0.4);
    for (p, c) in cells(&maze) {
        let was = before.get(p.x, p.y);
        if c != was {
            assert_eq!(was, CellType::Path);
            assert!(!before.in_room(p));
            assert!(sites.contains(&p));
            assert!(c.is_reward() || c.is_danger());
        }
        if before.in_room(p) {
            assert_eq!(c, CellType::Path);
        }
    }
}

#[test]
fn two_fifths_of_the_artifacts_are_rewards() {
    let shares: [(usize, usize); 11] = [
        (0, 0),
        (1, 0),
        (2, 0),
        (3, 1),
        (4, 1),
        (5, 2),
        (7, 2),
        (8, 3),
        (10, 4),
        (12, 4),
        (13, 5),
    ];
    for &(count, rewards_wanted) in &shares {
        let mut maze = generated(63, 31, 3);
        maze.place_artifacts(count);
        let all = cells(&maze);
        let reward_cells = all.iter().filter(|(_, c)| c.is_reward()).count();
        let danger_cells = all.iter().filter(|(_, c)| c.is_danger()).count();
        assert_eq!(reward_cells, rewards_wanted);
        assert_eq!(danger_cells, count - rewards_wanted);
    }
}

#[test]
fn placement_stops_when_the_sites_run_out() {
    let mut maze = generated(11, 11, 3);
    let sites = maze.artifact_sites().len();
    maze.place_artifacts(10 * sites);
    let placed = artifacts(&maze);
    assert!(placed.len() <= sites);
    assert!(!placed.is_empty());
    // every site left over lies next to an artifact
    for site in maze.artifact_sites() {
        assert!(placed.iter().any(|p| adjacent(*p, site)));
    }
    // the rewards alone exhausted the sites, so no danger was placed
    assert!(cells(&maze).iter().all(|(_, c)| !c.is_danger()));
}

#[test]
fn sites_are_listed_row_by_row() {
    let mut maze = Maze::new(7, 7, 3, ExitLocation::Right);
    maze.carve_room();
    assert!(maze.artifact_sites().is_empty());
    maze.set(5, 3, CellType::Path);
    maze.set(1, 1, CellType::Path);
    maze.set(6, 1, CellType::Path);
    maze.set(0, 6, CellType::Path);
    maze.set(3, 5, CellType::Cookies);
    assert_eq!(
        maze.artifact_sites(),
        vec![Pos { x: 1, y: 1 }, Pos { x: 6, y: 1 }, Pos { x: 5, y: 3 }, Pos { x: 0, y: 6 }]
    );
    assert_eq!(maze.path_cell_count(), 9 + 4);
    assert!(maze.in_room(Pos { x: 2, y: 4 }));
    assert!(!maze.in_room(Pos { x: 1, y: 4 }));
    assert!(!maze.in_room(Pos { x: 5, y: 3 }));
}

#[test]
fn placement_along_an_order_skips_blocked_positions() {
    let mut maze = Maze::new(11, 7, 1, ExitLocation::Right);
    for x in 0..11 {
        maze.set(x, 1, CellType::Path);
    }
    let order: Vec<Pos> = (0..11).map(|x| Pos { x, y: 1 }).collect();
    let (rewards_at, dangers_at) = maze.place_along(&order, 2, 3);
    assert_eq!(rewards_at, vec![Pos { x: 0, y: 1 }, Pos { x: 2, y: 1 }]);
    assert_eq!(dangers_at, vec![Pos { x: 4, y: 1 }, Pos { x: 6, y: 1 }, Pos { x: 8, y: 1 }]);
    for x in 0..11 {
        let c = maze.get(x, 1);
        if x == 0 || x == 2 {
            assert!(c.is_reward());
        } else if x == 4 || x == 6 || x == 8 {
            assert!(c.is_danger());
        } else {
            assert_eq!(c, CellType::Path);
        }
    }
}

#[test]
fn placement_along_an_order_can_fall_short() {
    let mut maze = Maze::new(7, 7, 1, ExitLocation::Right);
    let order = vec![
        Pos { x: 3, y: 3 },
        Pos { x: 3, y: 4 },
        Pos { x: 3, y: 3 },
        Pos { x: 4, y: 3 },
        Pos { x: 4, y: 4 },
        Pos { x: 3, y: 2 },
    ];
    let (rewards_at, dangers_at) = maze.place_along(&order, 5, 5);
    assert_eq!(rewards_at, vec![Pos { x: 3, y: 3 }, Pos { x: 4, y: 4 }]);
    assert!(dangers_at.is_empty());
    let (none, nothing) = maze.place_along(&order, 0, 0);
    assert!(none.is_empty());
    assert!(nothing.is_empty());
}

#[test]
fn dangers_keep_clear_of_rewards() {
    let mut maze = Maze::new(7, 7, 1, ExitLocation::Right);
    let order = vec![
        Pos { x: 1, y: 1 },
        Pos { x: 2, y: 1 },
        Pos { x: 1, y: 2 },
        Pos { x: 2, y: 2 },
        Pos { x: 0, y: 0 },
    ];
    let (rewards_at, dangers_at) = maze.place_along(&order, 1, 2);
    assert_eq!(rewards_at, vec![Pos { x: 1, y: 1 }]);
    assert_eq!(dangers_at, vec![Pos { x: 2, y: 2 }, Pos { x: 0, y: 0 }]);
    assert!(maze.get(1, 1).is_reward());
    assert!(maze.get(2, 2).is_danger());
    assert!(maze.get(0, 0).is_danger());
    assert_eq!(maze.get(2, 1), CellType::Wall);
}

#[test]
fn sites_are_taken_in_random_order() {
    let mut seen: Vec<Vec<Pos>> = Vec::new();
    let mut base = Maze::new(31, 31, 3, ExitLocation::Right);
    base.generate();
    for _ in 0..20 {
        let mut maze = base.clone();
        maze.place_artifacts(5);
        let placed = artifacts(&maze);
        assert_eq!(placed.len(), 5);
        if !seen.contains(&placed) {
            seen.push(placed);
        }
    }
    assert!(seen.len() >= 2);
}

#[test]
fn artifact_kinds_vary() {
    let mut maze = generated(63, 63, 3);
    maze.place_artifacts(300);
    let all = cells(&maze);
    let mut reward_kinds: Vec<CellType> = Vec::new();
    let mut danger_kinds: Vec<CellType> = Vec::new();
    for (_, c) in all {
        if c.is_reward() && !reward_kinds.contains(&c) {
            assert!(rewards().contains(&c));
            reward_kinds.push(c);
        }
        if c.is_danger() && !danger_kinds.contains(&c) {
            assert!(dangers().contains(&c));
            danger_kinds.push(c);
        }
    }
    assert!(reward_kinds.len() >= 2);
    assert!(danger_kinds.len() >= 2);
}
