use wfc::catalog::{create_rotate_tiles, create_tiles_from_json, generating_adjacency_rules};
use wfc::defines::{TileData, TileListData};
use wfc::direction::Direction;
use wfc::error::MyError;
use wfc::tile::Tile;

fn labels(edges: [&str; 4]) -> Vec<String> {
    edges.iter().map(|e| e.to_string()).collect()
}

fn tile(texture: usize, edges: [&str; 4], is_rotate: bool) -> Tile {
    Tile::load(texture, labels(edges), is_rotate).unwrap()
}

fn definition(src: &str, edges: [&str; 4], is_rotate: bool) -> TileData {
    TileData { src: src.to_string(), edges: labels(edges), is_rotate }
}

#[test]
fn load_makes_an_unrotated_variant_without_neighbours() {
    let t = tile(7, ["A", "B", "C", "D"], true);
    assert_eq!(t.texture, 7);
    assert_eq!(t.edges, labels(["A", "B", "C", "D"]));
    assert_eq!(t.angle, 0);
    assert!(t.is_rotate);
    assert!(t.up.is_empty());
    assert!(t.right.is_empty());
    assert!(t.down.is_empty());
    assert!(t.left.is_empty());
}

#[test]
fn load_rejects_too_few_edges() {
    let edges: Vec<String> = vec!["A".to_string(), "B".to_string(), "C".to_string()];
    match Tile::load(0, edges, false) {
        Err(MyError::Json(m)) => assert_eq!(m, "a tile needs exactly 4 edges"),
        other => panic!("expected a malformed-data error, got {:?}", other),
    }
}

#[test]
fn load_rejects_too_many_edges() {
    let edges: Vec<String> = vec!["A".to_string(); 5];
    assert!(matches!(Tile::load(0, edges, false), Err(MyError::Json(_))));
}

#[test]
fn load_rejects_no_edges() {
    assert!(matches!(Tile::load(0, Vec::new(), true), Err(MyError::Json(_))));
}

#[test]
fn rotate_by_one_quarter_turn_shifts_the_edges_clockwise() {
    let t = tile(3, ["U", "R", "D", "L"], true);
    let r = t.rotate(1);
    assert_eq!(r.edges, labels(["L", "U", "R", "D"]));
    assert_eq!(r.angle, 90);
    assert_eq!(r.texture, 3);
    assert!(r.is_rotate);
    assert!(r.up.is_empty() && r.right.is_empty() && r.down.is_empty() && r.left.is_empty());
}

#[test]
fn rotate_by_two_and_three_quarter_turns() {
    let t = tile(0, ["U", "R", "D", "L"], true);
    let two = t.rotate(2);
    assert_eq!(two.edges, labels(["D", "L", "U", "R"]));
    assert_eq!(two.angle, 180);
    let three = t.rotate(3);
    assert_eq!(three.edges, labels(["R", "D", "L", "U"]));
    assert_eq!(three.angle, 270);
}

#[test]
fn rotate_by_no_turn_and_by_a_full_turn_keeps_the_edges() {
    let t = tile(0, ["U", "R", "D", "L"], false);
    let zero = t.rotate(0);
    assert_eq!(zero.edges, t.edges);
    assert_eq!(zero.angle, 0);
    assert!(zero.is_rotate);
    let full = t.rotate(4);
    assert_eq!(full.edges, t.edges);
    assert_eq!(full.angle, 360);
}

#[test]
fn rotate_counter_clockwise_and_by_extreme_amounts() {
    let t = tile(0, ["U", "R", "D", "L"], true);
    let back = t.rotate(-1);
    assert_eq!(back.edges, labels(["R", "D", "L", "U"]));
    assert_eq!(back.angle, -90);
    let far = t.rotate(i32::MAX);
    assert_eq!(far.edges, labels(["R", "D", "L", "U"]));
    assert_eq!(far.angle, 90 * (i32::MAX as i64));
    let near = t.rotate(i32::MIN);
    assert_eq!(near.edges, labels(["U", "R", "D", "L"]));
    assert_eq!(near.angle, 90 * (i32::MIN as i64));
}

#[test]
fn four_quarter_turns_restore_the_edges() {
    let t = tile(0, ["AB", "CD", "EF", "GH"], true);
    let back = t.rotate(1).rotate(1).rotate(1).rotate(1);
    assert_eq!(back.edges, t.edges);
}

#[test]
fn rotate_sets_the_angle_anew_each_time() {
    let t = tile(0, ["U", "R", "D", "L"], true);
    let twice = t.rotate(1).rotate(1);
    assert_eq!(twice.edges, labels(["D", "L", "U", "R"]));
    assert_eq!(twice.angle, 90);
}

#[test]
fn valid_gives_the_list_of_the_side() {
    let mut t = tile(0, ["U", "R", "D", "L"], false);
    t.up = vec![1];
    t.right = vec![2, 3];
    t.down = vec![];
    t.left = vec![4, 5, 6];
    assert_eq!(t.valid(Direction::Up), vec![1]);
    assert_eq!(t.valid(Direction::Right), vec![2, 3]);
    assert_eq!(t.valid(Direction::Down), Vec::<usize>::new());
    assert_eq!(t.valid(Direction::Left), vec![4, 5, 6]);
}

#[test]
fn direction_opposite_and_position() {
    assert_eq!(Direction::Up.opposite(), Direction::Down);
    assert_eq!(Direction::Right.opposite(), Direction::Left);
    assert_eq!(Direction::Down.opposite(), Direction::Up);
    assert_eq!(Direction::Left.opposite(), Direction::Right);
    assert_eq!(Direction::Up.position(), 0);
    assert_eq!(Direction::Right.position(), 1);
    assert_eq!(Direction::Down.position(), 2);
    assert_eq!(Direction::Left.position(), 3);
}

#[test]
fn accepts_compares_a_side_with_the_side_facing_it() {
    let t = tile(0, ["AB", "CD", "EF", "GH"], false);
    let other = labels(["1", "2", "BA", "3"]);
    assert!(t.accepts(&other, Direction::Up));
    assert!(!t.accepts(&other, Direction::Right));
    assert!(!t.accepts(&other, Direction::Down));
    assert!(!t.accepts(&other, Direction::Left));
    let other = labels(["FE", "HG", "x", "DC"]);
    assert!(!t.accepts(&other, Direction::Up));
    assert!(t.accepts(&other, Direction::Right));
    assert!(t.accepts(&other, Direction::Down));
    assert!(t.accepts(&other, Direction::Left));
}

#[test]
fn accepts_is_mutual() {
    let a = tile(0, ["AB", "CD", "EF", "GH"], false);
    let b = tile(1, ["FE", "DC", "AB", "DC"], false);
    for d in [Direction::Up, Direction::Right, Direction::Down, Direction::Left] {
        assert_eq!(a.accepts(&b.edges, d), b.accepts(&a.edges, d.opposite()));
    }
    // b's upper edge FE mirrors a's lower edge EF, b's left edge DC mirrors
    // a's right edge CD; the other two pairs do not mirror each other.
    assert!(a.accepts(&b.edges, Direction::Down));
    assert!(a.accepts(&b.edges, Direction::Right));
    assert!(!a.accepts(&b.edges, Direction::Up));
    assert!(!a.accepts(&b.edges, Direction::Left));
}

#[test]
fn analyze_finds_the_mirrored_edges_of_other_variants() {
    let all = vec![
        labels(["AB", "CD", "EF", "GH"]),
        labels(["FE", "HG", "BA", "DC"]),
        labels(["AB", "CD", "EF", "GH"]),
    ];
    let mut t = tile(0, ["AB", "CD", "EF", "GH"], false);
    t.analyze(&all, 0);
    assert_eq!(t.up, vec![1]);
    assert_eq!(t.right, vec![1]);
    assert_eq!(t.down, vec![1]);
    assert_eq!(t.left, vec![1]);
}

#[test]
fn analyze_skips_the_variant_itself_even_when_it_would_fit() {
    let all = vec![labels(["X", "X", "X", "X"]), labels(["X", "X", "X", "X"])];
    let mut t = tile(0, ["X", "X", "X", "X"], false);
    t.analyze(&all, 1);
    assert_eq!(t.up, vec![0]);
    assert_eq!(t.right, vec![0]);
    assert_eq!(t.down, vec![0]);
    assert_eq!(t.left, vec![0]);
}

#[test]
fn analyze_appends_to_what_is_there() {
    let all = vec![labels(["X", "X", "X", "X"]), labels(["X", "Y", "X", "Y"])];
    let mut t = tile(0, ["X", "X", "X", "X"], false);
    t.up = vec![9];
    t.analyze(&all, 0);
    assert_eq!(t.up, vec![9, 1]);
    assert_eq!(t.right, Vec::<usize>::new());
    assert_eq!(t.down, vec![1]);
    assert_eq!(t.left, Vec::<usize>::new());
}

#[test]
fn analyze_compares_each_side_with_the_side_facing_it() {
    // Only the right edge of the variant and the left edge of the other mate.
    let all = vec![labels(["1", "AB", "2", "3"]), labels(["4", "5", "6", "BA"])];
    let mut first = tile(0, ["1", "AB", "2", "3"], false);
    first.analyze(&all, 0);
    assert_eq!(first.right, vec![1]);
    assert!(first.up.is_empty() && first.down.is_empty() && first.left.is_empty());
    let mut second = tile(1, ["4", "5", "6", "BA"], false);
    second.analyze(&all, 1);
    assert_eq!(second.left, vec![0]);
    assert!(second.up.is_empty() && second.down.is_empty() && second.right.is_empty());
}

#[test]
fn create_tiles_from_json_keeps_order_and_numbers_the_textures() {
    let data = TileListData {
        tile_list: vec![
            definition("a.png", ["A", "B", "C", "D"], false),
            definition("b.png", ["E", "F", "G", "H"], true),
        ],
    };
    let tiles = create_tiles_from_json(&data).unwrap();
    assert_eq!(tiles.len(), 2);
    assert_eq!(tiles[0].texture, 0);
    assert_eq!(tiles[0].edges, labels(["A", "B", "C", "D"]));
    assert!(!tiles[0].is_rotate);
    assert_eq!(tiles[0].angle, 0);
    assert_eq!(tiles[1].texture, 1);
    assert_eq!(tiles[1].edges, labels(["E", "F", "G", "H"]));
    assert!(tiles[1].is_rotate);
    assert!(tiles.iter().all(|t| t.up.is_empty() && t.right.is_empty() && t.down.is_empty() && t.left.is_empty()));
}

#[test]
fn create_tiles_from_json_of_an_empty_list() {
    let data = TileListData { tile_list: Vec::new() };
    assert!(create_tiles_from_json(&data).unwrap().is_empty());
}

#[test]
fn create_tiles_from_json_rejects_a_malformed_definition() {
    let data = TileListData {
        tile_list: vec![
            definition("a.png", ["A", "B", "C", "D"], false),
            TileData { src: "b.png".to_string(), edges: vec!["E".to_string()], is_rotate: true },
        ],
    };
    match create_tiles_from_json(&data) {
        Err(MyError::Json(m)) => assert_eq!(m, "a tile needs exactly 4 edges"),
        other => panic!("expected a malformed-data error, got {:?}", other),
    }
}

#[test]
fn create_rotate_tiles_appends_three_copies_per_rotatable_variant() {
    let mut tiles = vec![
        tile(0, ["U", "R", "D", "L"], true),
        tile(1, ["A", "B", "C", "D"], false),
        tile(2, ["1", "2", "3", "4"], true),
    ];
    create_rotate_tiles(&mut tiles);
    assert_eq!(tiles.len(), 9);
    assert_eq!(tiles[0].edges, labels(["U", "R", "D", "L"]));
    assert_eq!(tiles[1].edges, labels(["A", "B", "C", "D"]));
    assert_eq!(tiles[2].edges, labels(["1", "2", "3", "4"]));
    assert_eq!(tiles[3].edges, labels(["L", "U", "R", "D"]));
    assert_eq!(tiles[4].edges, labels(["D", "L", "U", "R"]));
    assert_eq!(tiles[5].edges, labels(["R", "D", "L", "U"]));
    assert_eq!(tiles[6].edges, labels(["4", "1", "2", "3"]));
    assert_eq!(tiles[7].edges, labels(["3", "4", "1", "2"]));
    assert_eq!(tiles[8].edges, labels(["2", "3", "4", "1"]));
    let angles: Vec<i64> = tiles.iter().map(|t| t.angle).collect();
    assert_eq!(angles, vec![0, 0, 0, 90, 180, 270, 90, 180, 270]);
    let textures: Vec<usize> = tiles.iter().map(|t| t.texture).collect();
    assert_eq!(textures, vec![0, 1, 2, 0, 0, 0, 2, 2, 2]);
    assert!(!tiles[1].is_rotate);
    assert!(tiles[3..].iter().all(|t| t.is_rotate));
}

#[test]
fn create_rotate_tiles_leaves_a_fixed_catalog_alone() {
    let mut tiles = vec![tile(0, ["U", "R", "D", "L"], false), tile(1, ["A", "B", "C", "D"], false)];
    create_rotate_tiles(&mut tiles);
    assert_eq!(tiles.len(), 2);
    assert_eq!(tiles[0].edges, labels(["U", "R", "D", "L"]));
    assert_eq!(tiles[1].edges, labels(["A", "B", "C", "D"]));
}

#[test]
fn adjacency_of_two_crossed_variants_is_empty() {
    // A carries X on its vertical sides and Y on its horizontal ones, B the
    // other way round. Every side of A faces a side of B with the other
    // label, and no label is the mirror image of the other.
    let mut tiles = vec![tile(0, ["X", "Y", "X", "Y"], false), tile(1, ["Y", "X", "Y", "X"], false)];
    create_rotate_tiles(&mut tiles);
    assert_eq!(tiles.len(), 2);
    generating_adjacency_rules(&mut tiles);
    for t in &tiles {
        assert_eq!(t.up, Vec::<usize>::new());
        assert_eq!(t.right, Vec::<usize>::new());
        assert_eq!(t.down, Vec::<usize>::new());
        assert_eq!(t.left, Vec::<usize>::new());
    }
}

#[test]
fn adjacency_of_two_variants_with_the_same_palindromes() {
    let mut tiles = vec![tile(0, ["X", "Y", "X", "Y"], false), tile(1, ["X", "Y", "X", "Y"], false)];
    generating_adjacency_rules(&mut tiles);
    assert_eq!(tiles[0].up, vec![1]);
    assert_eq!(tiles[0].right, vec![1]);
    assert_eq!(tiles[0].down, vec![1]);
    assert_eq!(tiles[0].left, vec![1]);
    assert_eq!(tiles[1].up, vec![0]);
    assert_eq!(tiles[1].right, vec![0]);
    assert_eq!(tiles[1].down, vec![0]);
    assert_eq!(tiles[1].left, vec![0]);
}

#[test]
fn adjacency_counts_rotated_copies_like_any_other_variant() {
    let mut tiles = vec![tile(0, ["A", "B", "A", "B"], true)];
    create_rotate_tiles(&mut tiles);
    // 0: A B A B, 1: B A B A, 2: A B A B, 3: B A B A
    generating_adjacency_rules(&mut tiles);
    assert_eq!(tiles[0].up, vec![2]);
    assert_eq!(tiles[0].right, vec![2]);
    assert_eq!(tiles[1].up, vec![3]);
    assert_eq!(tiles[1].left, vec![3]);
    assert_eq!(tiles[2].down, vec![0]);
    assert_eq!(tiles[3].down, vec![1]);
}

#[test]
fn adjacency_is_mutual() {
    let mut tiles = vec![
        tile(0, ["AB", "C", "BA", "C"], true),
        tile(1, ["C", "AB", "C", "BA"], false),
        tile(2, ["BA", "BA", "AB", "AB"], true),
    ];
    create_rotate_tiles(&mut tiles);
    generating_adjacency_rules(&mut tiles);
    for i in 0..tiles.len() {
        for d in [Direction::Up, Direction::Right, Direction::Down, Direction::Left] {
            for &j in &tiles[i].valid(d) {
                assert_ne!(i, j);
                assert!(tiles[j].valid(d.opposite()).contains(&i));
            }
        }
    }
}
