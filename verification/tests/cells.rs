use mazegen::{dangers, rewards, CellType, MazeError, SolutionType};

const ALL: [CellType; 20] = [
    CellType::Start,
    CellType::Exit,
    CellType::Wall,
    CellType::Path,
    CellType::Marshmallows,
    CellType::GummyBears,
    CellType::Cookies,
    CellType::Candy,
    CellType::Chocolate,
    CellType::Zombie,
    CellType::Phantom,
    CellType::Witch,
    CellType::Fog,
    CellType::Shadows,
    CellType::Crow,
    CellType::BlackCat,
    CellType::Skeleton,
    CellType::Spider,
    CellType::Bat,
    CellType::Pumpkin,
];

#[test]
fn weights_are_fixed_per_label() {
    let expected = [0, 0, 0, 0, -2, -3, -4, -2, -6, 7, 6, 9, 3, 4, 5, 2, 5, 3, 1, 2];
    for (label, weight) in ALL.iter().zip(expected) {
        assert_eq!(label.weight(), weight);
    }
}

#[test]
fn weight_sign_follows_the_class() {
    for label in ALL {
        let w = label.weight();
        assert!((-6..=9).contains(&w));
        if label.is_reward() {
            assert!(w < 0);
            assert!(!label.is_danger());
        } else if label.is_danger() {
            assert!(w > 0);
        } else {
            assert_eq!(w, 0);
        }
    }
}

#[test]
fn everything_but_a_wall_is_traversable() {
    for label in ALL {
        assert_eq!(label.is_traversable(), label != CellType::Wall);
    }
}

#[test]
fn rewards_and_dangers_are_listed_in_order() {
    assert_eq!(rewards(), ALL[4..9].to_vec());
    assert_eq!(dangers(), ALL[9..20].to_vec());
    for label in ALL {
        assert_eq!(label.is_reward(), rewards().contains(&label));
        assert_eq!(label.is_danger(), dangers().contains(&label));
    }
}

#[test]
fn labels_have_names() {
    let expected = [
        "Start",
        "Exit",
        "Wall",
        "Path",
        "Marshmallows",
        "Gummy Bears",
        "Cookies",
        "Candy",
        "Chocolate",
        "Zombie",
        "Ghost",
        "Witch",
        "Fog",
        "Shadows",
        "Crow",
        "Black Cat",
        "Skeleton",
        "Spider",
        "Bat",
        "Pumpkin",
    ];
    for (label, name) in ALL.iter().zip(expected) {
        assert_eq!(label.to_string(), name);
    }
}

#[test]
fn solutions_have_names() {
    assert_eq!(SolutionType::NoSolution.to_string(), "none");
    assert_eq!(SolutionType::ShortestPath.to_string(), "shortest_path");
    assert_eq!(SolutionType::MinimumSpanningTree.to_string(), "minimum_spanning_tree");
}

#[test]
fn error_shows_its_message() {
    let error = MazeError { message: String::from("no storage") };
    assert_eq!(error.to_string(), "no storage");
}
