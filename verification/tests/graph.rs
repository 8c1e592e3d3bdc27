use mazegen::{minimum_spanning_tree, weight_of, CellType, Edge, Edges, ExitLocation, Maze, Nodes, Pos};

fn corridor_maze() -> Maze {
    let mut maze = Maze::new(7, 7, 1, ExitLocation::Right);
    for x in 1..=5 {
        maze.set(x, 3, CellType::Path);
    }
    maze.set(6, 3, CellType::Exit);
    maze.set(1, 2, CellType::Path);
    maze.set(1, 1, CellType::Path);
    maze.set(5, 4, CellType::Path);
    maze.set(5, 5, CellType::Path);
    maze
}

fn node_positions(nodes: &Nodes) -> Vec<Pos> {
    (0..nodes.len()).map(|id| nodes.position(id)).collect()
}

fn edge_list(edges: &Edges) -> Vec<Edge> {
    (0..edges.len()).map(|i| edges.get(i)).collect()
}

fn edge(start_id: usize, end_id: usize, weight: i32) -> Edge {
    Edge { start_id, end_id, weight }
}

#[test]
fn graph_without_exit_is_empty() {
    let mut maze = Maze::new(11, 11, 3, ExitLocation::Right);
    maze.carve_room();
    maze.generate_from(maze.center());
    assert!(maze.graph_fits());
    assert_eq!(maze.find_exit(), None);
    let (nodes, edges) = maze.build_graph();
    assert!(nodes.is_empty());
    assert_eq!(nodes.len(), 0);
    assert!(edges.is_empty());
    assert_eq!(edges.len(), 0);
    let (tree_nodes, tree) = maze.mst_prim();
    assert!(tree_nodes.is_empty());
    assert!(tree.is_empty());
}

#[test]
fn exit_on_top_or_bottom_is_not_found_by_the_graph() {
    let mut maze = Maze::new(7, 7, 1, ExitLocation::Top);
    maze.generate();
    assert_eq!(maze.get(3, 0), CellType::Exit);
    assert_eq!(maze.find_exit(), None);
    let (nodes, edges) = maze.build_graph();
    assert!(nodes.is_empty());
    assert!(edges.is_empty());
}

#[test]
fn graph_exit_prefers_the_right_column_and_the_topmost_cell() {
    let mut maze = Maze::new(7, 7, 1, ExitLocation::Right);
    assert_eq!(maze.find_exit(), None);
    maze.set(0, 4, CellType::Exit);
    assert_eq!(maze.find_exit(), Some(Pos { x: 0, y: 4 }));
    maze.set(0, 2, CellType::Exit);
    assert_eq!(maze.find_exit(), Some(Pos { x: 0, y: 2 }));
    maze.set(6, 5, CellType::Exit);
    assert_eq!(maze.find_exit(), Some(Pos { x: 6, y: 5 }));
    maze.set(6, 0, CellType::Exit);
    assert_eq!(maze.find_exit(), Some(Pos { x: 6, y: 0 }));
}

#[test]
fn nodes_are_centre_exit_then_dead_ends_and_junctions() {
    let maze = corridor_maze();
    let (nodes, _) = maze.build_graph();
    assert_eq!(
        node_positions(&nodes),
        vec![
            Pos { x: 3, y: 3 },
            Pos { x: 6, y: 3 },
            Pos { x: 1, y: 1 },
            Pos { x: 5, y: 3 },
            Pos { x: 5, y: 5 },
        ]
    );
    assert_eq!(nodes.get(&Pos { x: 3, y: 3 }), Some(0));
    assert_eq!(nodes.get(&Pos { x: 6, y: 3 }), Some(1));
    assert_eq!(nodes.get(&Pos { x: 5, y: 5 }), Some(4));
    assert_eq!(nodes.get(&Pos { x: 2, y: 3 }), None);
    assert!(maze.is_junction(Pos { x: 6, y: 3 }, 5, 3));
    assert!(!maze.is_junction(Pos { x: 6, y: 3 }, 3, 3));
    assert!(!maze.is_junction(Pos { x: 6, y: 3 }, 2, 3));
    assert!(!maze.is_junction(Pos { x: 6, y: 3 }, 2, 2));
}

#[test]
fn edges_follow_corridors_from_the_lower_id() {
    let maze = corridor_maze();
    let (_, edges) = maze.build_graph();
    assert_eq!(
        edge_list(&edges),
        vec![edge(0, 3, 0), edge(0, 2, 0), edge(1, 3, 0), edge(3, 4, 0)]
    );
    assert!(edges.contains(&edge(0, 2, 0)));
    assert!(!edges.contains(&edge(2, 0, 0)));
}

#[test]
fn edge_weight_sums_the_cells_after_the_start() {
    let mut maze = corridor_maze();
    maze.set(2, 3, CellType::Witch);
    maze.set(5, 4, CellType::Chocolate);
    maze.set(1, 1, CellType::Bat);
    maze.set(3, 3, CellType::Zombie);
    let (nodes, edges) = maze.build_graph();
    assert_eq!(nodes.len(), 5);
    assert_eq!(
        edge_list(&edges),
        vec![edge(0, 3, 0), edge(0, 2, 10), edge(1, 3, 0), edge(3, 4, -6)]
    );
    assert_eq!(weight_of(&edges), 4);
}

#[test]
fn corridor_that_returns_to_its_node_gives_no_edge() {
    // a ring hanging off the centre's right neighbour
    let mut maze = Maze::new(11, 7, 1, ExitLocation::Left);
    for x in 1..=6 {
        maze.set(x, 3, CellType::Path);
    }
    maze.set(0, 3, CellType::Exit);
    for x in 6..=8 {
        maze.set(x, 2, CellType::Path);
        maze.set(x, 4, CellType::Path);
    }
    maze.set(8, 3, CellType::Path);
    let (nodes, edges) = maze.build_graph();
    assert_eq!(
        node_positions(&nodes),
        vec![Pos { x: 5, y: 3 }, Pos { x: 0, y: 3 }, Pos { x: 6, y: 3 }]
    );
    assert_eq!(edge_list(&edges), vec![edge(0, 2, 0), edge(0, 1, 0)]);
}

#[test]
fn of_two_corridors_between_two_nodes_the_first_found_is_kept() {
    let mut maze = Maze::new(11, 7, 1, ExitLocation::Left);
    maze.set(0, 3, CellType::Exit);
    for x in 1..=9 {
        maze.set(x, 3, CellType::Path);
    }
    maze.set(9, 4, CellType::Path);
    // a second way from (7, 3) to (9, 3), over row 1
    for &(x, y) in &[(7, 2), (7, 1), (8, 1), (9, 1), (9, 2)] {
        maze.set(x, y, CellType::Path);
    }
    let (nodes, edges) = maze.build_graph();
    assert_eq!(
        node_positions(&nodes),
        vec![
            Pos { x: 5, y: 3 },
            Pos { x: 0, y: 3 },
            Pos { x: 7, y: 3 },
            Pos { x: 9, y: 3 },
            Pos { x: 9, y: 4 },
        ]
    );
    let plain = vec![edge(0, 2, 0), edge(0, 1, 0), edge(2, 3, 0), edge(3, 4, 0)];
    assert_eq!(edge_list(&edges), plain);
    // the way to the right is tried before the way up
    maze.set(8, 1, CellType::Fog);
    let (_, detour_weighs) = maze.build_graph();
    assert_eq!(edge_list(&detour_weighs), plain);
    maze.set(8, 1, CellType::Path);
    maze.set(8, 3, CellType::Fog);
    let (_, direct_weighs) = maze.build_graph();
    assert_eq!(
        edge_list(&direct_weighs),
        vec![edge(0, 2, 0), edge(0, 1, 0), edge(2, 3, 3), edge(3, 4, 0)]
    );
    let (_, tree) = maze.mst_prim();
    assert_eq!(
        edge_list(&tree),
        vec![edge(0, 2, 0), edge(0, 1, 0), edge(2, 3, 3), edge(3, 4, 0)]
    );
    let all = edge_list(&direct_weighs);
    for (i, e) in all.iter().enumerate() {
        for f in &all[i + 1..] {
            assert!(e.start_id != f.start_id || e.end_id != f.end_id);
        }
    }
}

#[test]
fn building_twice_gives_the_same_graph() {
    for _ in 0..5 {
        let mut maze = Maze::new(31, 23, 3, ExitLocation::Right);
        maze.generate();
        maze.place_artifacts(40);
        let (nodes_a, edges_a) = maze.build_graph();
        let (nodes_b, edges_b) = maze.build_graph();
        assert!(nodes_a.len() >= 2);
        assert_eq!(node_positions(&nodes_a), node_positions(&nodes_b));
        assert_eq!(edge_list(&edges_a), edge_list(&edges_b));
        assert_eq!(nodes_a.position(0), maze.center());
        assert_eq!(nodes_a.position(1), Pos { x: 30, y: 11 });
        let all = edge_list(&edges_a);
        assert!(edges_a.within(nodes_a.len()));
        for (i, e) in all.iter().enumerate() {
            assert!(e.start_id < e.end_id);
            assert!(e.end_id < nodes_a.len());
            for f in &all[i + 1..] {
                assert!(e.start_id != f.start_id || e.end_id != f.end_id);
            }
        }
    }
}

#[test]
fn step_toward_stops_at_the_border() {
    let maze = Maze::new(7, 7, 1, ExitLocation::Right);
    let corner = Pos { x: 0, y: 6 };
    assert_eq!(maze.step_toward(corner, 0), Some(Pos { x: 1, y: 6 }));
    assert_eq!(maze.step_toward(corner, 1), None);
    assert_eq!(maze.step_toward(corner, 2), None);
    assert_eq!(maze.step_toward(corner, 3), Some(Pos { x: 0, y: 5 }));
    assert_eq!(maze.step_toward(Pos { x: 6, y: 0 }, 0), None);
    assert_eq!(maze.step_toward(Pos { x: 6, y: 0 }, 3), None);
}

#[test]
fn edge_set_holds_each_edge_once() {
    let mut edges = Edges::new();
    assert!(edges.is_empty());
    assert!(edges.insert(edge(0, 1, 5)));
    assert!(edges.insert(edge(0, 1, 6)));
    assert!(!edges.insert(edge(0, 1, 5)));
    assert!(edges.insert(edge(1, 2, -3)));
    assert_eq!(edges.len(), 3);
    assert_eq!(edges.get(2), edge(1, 2, -3));
    assert!(edges.contains(&edge(0, 1, 6)));
    assert!(!edges.contains(&edge(1, 0, 6)));
    assert_eq!(weight_of(&edges), 8);
    assert_eq!(weight_of(&Edges::new()), 0);
    assert!(edges.within(3));
    assert!(!edges.within(2));
    assert!(Edges::new().within(0));
}

#[test]
fn new_node_list_is_empty() {
    let nodes = Nodes::new();
    assert!(nodes.is_empty());
    assert_eq!(nodes.len(), 0);
    assert_eq!(nodes.get(&Pos { x: 0, y: 0 }), None);
}

#[test]
fn prim_takes_the_lightest_crossing_edge_first_among_equals() {
    let mut edges = Edges::new();
    for e in [edge(0, 3, 0), edge(0, 2, 10), edge(1, 3, 0), edge(3, 4, -6)] {
        edges.insert(e);
    }
    let tree = minimum_spanning_tree(5, 0, &edges);
    assert_eq!(
        edge_list(&tree),
        vec![edge(0, 3, 0), edge(3, 4, -6), edge(1, 3, 0), edge(0, 2, 10)]
    );
    let mut ties = Edges::new();
    for e in [edge(0, 1, 2), edge(0, 2, 2), edge(1, 2, 2)] {
        ties.insert(e);
    }
    assert_eq!(edge_list(&minimum_spanning_tree(3, 0, &ties)), vec![edge(0, 1, 2), edge(0, 2, 2)]);
    assert_eq!(edge_list(&minimum_spanning_tree(3, 2, &ties)), vec![edge(0, 2, 2), edge(0, 1, 2)]);
}

#[test]
fn prim_stops_at_what_the_root_reaches() {
    let mut edges = Edges::new();
    for e in [edge(0, 1, 4), edge(2, 3, 1), edge(3, 4, 1), edge(2, 4, 1)] {
        edges.insert(e);
    }
    assert_eq!(edge_list(&minimum_spanning_tree(5, 0, &edges)), vec![edge(0, 1, 4)]);
    assert_eq!(
        edge_list(&minimum_spanning_tree(5, 3, &edges)),
        vec![edge(2, 3, 1), edge(3, 4, 1)]
    );
    assert!(minimum_spanning_tree(1, 0, &Edges::new()).is_empty());
    assert!(minimum_spanning_tree(4, 2, &Edges::new()).is_empty());
}

struct Lcg(u64);

impl Lcg {
    fn next(&mut self, bound: u64) -> u64 {
        self.0 = self.0.wrapping_mul(6364136223846793005).wrapping_add(1442695040888963407);
        (self.0 >> 33) % bound
    }
}

fn component(n: usize, root: usize, edges: &[Edge]) -> Vec<bool> {
    let mut inside = vec![false; n];
    inside[root] = true;
    let mut grew = true;
    while grew {
        grew = false;
        for e in edges {
            if inside[e.start_id] != inside[e.end_id] {
                inside[e.start_id] = true;
                inside[e.end_id] = true;
                grew = true;
            }
        }
    }
    inside
}

fn lightest_spanning_tree_by_enumeration(n: usize, root: usize, edges: &[Edge]) -> i128 {
    let reach = component(n, root, edges);
    let size = reach.iter().filter(|&&b| b).count();
    let mut best: Option<i128> = None;
    for mask in 0u32..(1u32 << edges.len()) {
        if mask.count_ones() as usize != size - 1 {
            continue;
        }
        let chosen: Vec<Edge> =
            (0..edges.len()).filter(|i| mask & (1 << i) != 0).map(|i| edges[i]).collect();
        if component(n, root, &chosen) == reach {
            let weight: i128 = chosen.iter().map(|e| e.weight as i128).sum();
            best = Some(match best {
                Some(b) if b <= weight => b,
                _ => weight,
            });
        }
    }
    best.expect("the component has a spanning tree")
}

#[test]
fn prim_tree_is_as_light_as_the_lightest_spanning_tree() {
    let mut rng = Lcg(2024);
    for round in 0..300 {
        let n = 1 + (round % 6) as usize;
        let mut edges = Edges::new();
        let mut list = Vec::new();
        let wanted = rng.next(11);
        for _ in 0..wanted {
            if n < 2 {
                break;
            }
            let a = rng.next(n as u64) as usize;
            let b = rng.next(n as u64) as usize;
            if a == b {
                continue;
            }
            let e = edge(a.min(b), a.max(b), rng.next(16) as i32 - 6);
            if edges.insert(e) {
                list.push(e);
            }
        }
        let root = rng.next(n as u64) as usize;
        let tree = minimum_spanning_tree(n, root, &edges);
        let tree_edges = edge_list(&tree);
        let reach = component(n, root, &list);
        assert_eq!(component(n, root, &tree_edges), reach);
        assert_eq!(tree_edges.len() + 1, reach.iter().filter(|&&b| b).count());
        for e in &tree_edges {
            assert!(edges.contains(e));
        }
        assert_eq!(weight_of(&tree), lightest_spanning_tree_by_enumeration(n, root, &list));
    }
}

#[test]
fn tree_of_a_generated_maze_spans_its_graph() {
    for _ in 0..3 {
        let mut maze = Maze::new(31, 31, 3, ExitLocation::Right);
        maze.generate();
        maze.place_artifacts(60);
        assert!(maze.graph_fits());
        let (nodes, edges) = maze.build_graph();
        let (tree_nodes, tree) = maze.mst_prim();
        assert_eq!(node_positions(&nodes), node_positions(&tree_nodes));
        let all = edge_list(&edges);
        let chosen = edge_list(&tree);
        for e in &chosen {
            assert!(edges.contains(e));
        }
        let reach = component(nodes.len(), 0, &all);
        assert_eq!(component(nodes.len(), 0, &chosen), reach);
        assert_eq!(chosen.len() + 1, reach.iter().filter(|&&b| b).count());
        assert!(reach[1]);
    }
}
