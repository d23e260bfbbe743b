use room_nets::{
    build_floor_plan, build_index, mirror, parse_document, shapes_match, solve_layout,
    Point,
};

/// A room 2 wide, 2 deep and 2 high whose wall rows and floor rows are given;
/// the first wall row starts with `+`, which gives the depth.
fn net(band0: &str, band1: &str, floor0: &str, floor1: &str) -> String {
    assert!(band0.starts_with('+'));
    format!("+-\n--\n{}\n{}\n{}\n{}", band0, band1, floor0, floor1)
}

#[test]
fn matching_walls_put_rooms_side_by_side() {
    let first = net("+ d     ", "        ", "+-", "-+");
    let second = net("+      d", "        ", "+-", "-+");
    let text = format!("# first\n{}\n# second\n{}", first, second);
    let plan = build_floor_plan(&text).unwrap();
    assert_eq!(plan.rooms.len(), 2);
    assert_eq!(plan.rooms[0].center, Point { x: 0, y: 0, z: 0 });
    // Centers in half cells: 2 / 2 + 2 / 2 cells apart along x.
    assert_eq!(plan.rooms[1].center, Point { x: 4, y: 0, z: 0 });
}

#[test]
fn walls_that_differ_leave_the_room_in_place() {
    let first = net("+ d     ", "   d    ", "+-", "-+");
    let second = net("+     dd", "        ", "+-", "-+");
    let text = format!("# first\n{}\n# second\n{}", first, second);
    let plan = build_floor_plan(&text).unwrap();
    assert_eq!(plan.rooms.len(), 2);
    assert_eq!(plan.rooms[1].center, Point { x: 0, y: 0, z: 0 });
    assert_eq!(plan.rooms[1].left, vec![(0, 0, 'd'), (1, 0, 'd')]);
}

#[test]
fn unmatched_room_stays_at_origin() {
    let first = net("+ d     ", "        ", "+-", "-+");
    let lonely = net("+q      ", "        ", "+-", "-+");
    let third = net("+      d", "        ", "+-", "-+");
    let text = format!("# room a\n{}\n# room b\n{}\n# room c\n{}", first, lonely, third);
    let plan = build_floor_plan(&text).unwrap();
    assert_eq!(plan.rooms.len(), 3);
    assert_eq!(plan.rooms[1].center, Point { x: 0, y: 0, z: 0 });
    assert_eq!(plan.rooms[2].center, Point { x: 4, y: 0, z: 0 });
}

#[test]
fn matching_top_and_floor_stack_rooms() {
    // The first room has `e` on its floor, the second on its top.
    let first = net("+       ", "        ", "+e", "-+");
    let second = "+-\n-e\n+       \n        \n+-\n-+".to_string();
    let text = format!("# lower\n{}\n# upper\n{}", first, second);
    let plan = build_floor_plan(&text).unwrap();
    assert_eq!(plan.rooms[0].floor, vec![(1, 0, 'e')]);
    assert_eq!(plan.rooms[1].top, vec![(1, 1, 'e')]);
    assert_eq!(plan.rooms[1].center, Point { x: 0, y: -4, z: 0 });
}

#[test]
fn offset_patterns_shift_the_room_across() {
    // Same shape, but one row lower on the second room's wall.
    let first = net("+ d     ", "        ", "+-", "-+");
    let second = net("+       ", "       d", "+-", "-+");
    let text = format!("# first\n{}\n# second\n{}", first, second);
    let plan = build_floor_plan(&text).unwrap();
    assert_eq!(plan.rooms[1].center, Point { x: 4, y: 2, z: 0 });
}

#[test]
fn solving_by_steps_agrees_with_the_floor_plan() {
    let first = net("+ d     ", "        ", "+-", "-+");
    let second = net("+      d", "        ", "+-", "-+");
    let text = format!("# first\n{}\n# second\n{}", first, second);
    let mut doc = parse_document(&text).unwrap();
    let index = build_index(&doc.rooms);
    assert_eq!(index.symbols, vec!['d']);
    assert_eq!(index.hits[0].len(), 6);
    solve_layout(&mut doc.rooms, &index);
    assert_eq!(doc.rooms[1].center, Point { x: 4, y: 0, z: 0 });
}

#[test]
fn index_lists_positions_per_face_and_room() {
    let first = net("+ d     ", "  dd    ", "+-", "-+");
    let text = format!("# only\n{}", first);
    let doc = parse_document(&text).unwrap();
    let index = build_index(&doc.rooms);
    assert_eq!(index.symbols, vec!['d']);
    // Slot 2 is the right face.
    let right = &index.hits[0][2][0];
    assert_eq!(right.len(), 3);
    assert_eq!((right[0].col, right[0].row), (0, 0));
    assert_eq!((right[1].col, right[1].row), (0, 1));
    assert_eq!((right[2].col, right[2].row), (1, 1));
    assert!(index.hits[0][0][0].is_empty());
}

#[test]
fn mirroring_twice_restores_positions() {
    let cells: Vec<(i64, i64)> = vec![(0, 0), (3, 1), (4, 2)];
    let once = mirror(&cells, 5, false);
    assert_eq!(once, vec![(4, 0), (1, 1), (0, 2)]);
    assert_eq!(mirror(&once, 5, false), cells);
    let rows = mirror(&cells, 3, true);
    assert_eq!(rows, vec![(0, 2), (3, 1), (4, 0)]);
    assert_eq!(mirror(&rows, 3, true), cells);
}

#[test]
fn shapes_compare_after_moving_to_origin() {
    assert!(shapes_match(&vec![(2, 3), (3, 3)], &vec![(0, 0), (1, 0)]));
    assert!(shapes_match(&vec![(3, 3), (2, 3)], &vec![(0, 0), (1, 0)]));
    assert!(!shapes_match(&vec![(2, 3), (3, 4)], &vec![(0, 0), (1, 0)]));
    assert!(!shapes_match(&vec![(0, 0), (0, 0)], &vec![(0, 0)]));
    assert!(shapes_match(&vec![(1, 1), (1, 1)], &vec![(4, 0), (4, 0)]));
}
