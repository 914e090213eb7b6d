use tile_editor::level::{insert_tile, remove_tile, Layer, Point};

fn cells_of<'a>(layer: &'a Layer, tile: &str) -> Option<&'a Vec<Point>> {
    layer.kinds.iter().find(|kc| kc.0 == tile).map(|kc| &kc.1)
}

fn holds_pos(layer: &Layer, tile: &str, x: i32, y: i32) -> bool {
    match cells_of(layer, tile) {
        Some(cells) => cells.iter().any(|p| p.0 == x && p.1 == y),
        None => false,
    }
}

#[test]
fn paint_inserts_with_tag() {
    let mut layer = Layer::new();
    insert_tile(&mut layer, "grass", (3, 4), 2);
    let cells = cells_of(&layer, "grass").expect("kind created");
    assert_eq!(cells.len(), 1);
    assert_eq!((cells[0].0, cells[0].1, cells[0].2), (3, 4, 2));
}

#[test]
fn repaint_moves_position_between_kinds() {
    // the single-occupant invariant: painting the same position with a
    // second kind removes it from the first.
    let mut layer = Layer::new();
    insert_tile(&mut layer, "grass", (1, 1), 0);
    insert_tile(&mut layer, "tree", (1, 1), 0);
    assert!(!holds_pos(&layer, "grass", 1, 1));
    assert!(holds_pos(&layer, "tree", 1, 1));
    // the emptied kind stays present, with no cells
    assert_eq!(cells_of(&layer, "grass").unwrap().len(), 0);
}

#[test]
fn repaint_same_kind_updates_tag() {
    let mut layer = Layer::new();
    insert_tile(&mut layer, "grass", (1, 1), 0);
    insert_tile(&mut layer, "grass", (1, 1), 7);
    let cells = cells_of(&layer, "grass").unwrap();
    assert_eq!(cells.len(), 1);
    assert_eq!(cells[0].2, 7);
}

#[test]
fn erase_removes_from_every_kind() {
    let mut layer = Layer::new();
    insert_tile(&mut layer, "grass", (1, 1), 0);
    insert_tile(&mut layer, "tree", (2, 2), 0);
    remove_tile(&mut layer, (1, 1));
    remove_tile(&mut layer, (2, 2));
    assert!(!holds_pos(&layer, "grass", 1, 1));
    assert!(!holds_pos(&layer, "tree", 2, 2));
}

#[test]
fn erase_absent_position_is_a_no_op() {
    let mut layer = Layer::new();
    insert_tile(&mut layer, "grass", (1, 1), 0);
    remove_tile(&mut layer, (9, 9));
    assert!(holds_pos(&layer, "grass", 1, 1));
    let mut empty = Layer::new();
    remove_tile(&mut empty, (0, 0));
    assert_eq!(empty.kinds.len(), 0);
}

#[test]
fn cells_stay_ordered_by_column_then_row() {
    let mut layer = Layer::new();
    insert_tile(&mut layer, "grass", (5, 1), 0);
    insert_tile(&mut layer, "grass", (1, 9), 0);
    insert_tile(&mut layer, "grass", (1, 2), 0);
    insert_tile(&mut layer, "grass", (3, 0), 0);
    let cells = cells_of(&layer, "grass").unwrap();
    let positions: Vec<(i32, i32)> = cells.iter().map(|p| (p.0, p.1)).collect();
    assert_eq!(positions, vec![(1, 2), (1, 9), (3, 0), (5, 1)]);
}

#[test]
fn points_compare_by_position_alone() {
    assert_eq!(Point(1, 2, 0), Point(1, 2, 5));
    assert_ne!(Point(1, 2, 0), Point(2, 1, 0));
    assert!(Point(1, 9, 0) < Point(2, 0, 0));
    assert!(Point(1, 2, 0) < Point(1, 3, 0));
    assert!(!(Point(1, 2, 0) < Point(1, 2, 9)));
}

#[test]
fn kinds_appear_in_first_use_order() {
    let mut layer = Layer::new();
    insert_tile(&mut layer, "tree", (0, 0), 0);
    insert_tile(&mut layer, "grass", (1, 0), 0);
    insert_tile(&mut layer, "tree", (2, 0), 0);
    let names: Vec<&str> = layer.kinds.iter().map(|kc| kc.0.as_str()).collect();
    assert_eq!(names, vec!["tree", "grass"]);
}
