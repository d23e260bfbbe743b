use room_nets::{
    area_matches, decode_net, get_letters_in_ascii_grid, net_dimensions, parse_document,
    parse_room, Face, FormatError, Point,
};

fn lines_of(rows: &[&str]) -> Vec<Vec<char>> {
    rows.iter().map(|r| r.chars().collect()).collect()
}

fn chars(s: &str) -> Vec<char> {
    s.chars().collect()
}

#[test]
fn description_only_document() {
    let doc = parse_document("# A\nfoo").unwrap();
    assert_eq!(doc.descriptions.get('A').map(|s| s.as_str()), Some("foo"));
    assert_eq!(doc.descriptions.get('B'), None);
    assert_eq!(doc.rooms.len(), 0);
}

#[test]
fn later_description_wins() {
    let doc = parse_document("# A\nfirst\n# B\nother\n# A\n  second line\n  more  \n").unwrap();
    assert_eq!(doc.descriptions.get('A').map(|s| s.as_str()), Some("second line\n  more"));
    assert_eq!(doc.descriptions.get('B').map(|s| s.as_str()), Some("other"));
    assert_eq!(doc.rooms.len(), 0);
}

#[test]
fn hash_inside_a_line_does_not_start_a_section() {
    let doc = parse_document("# A\nsee # here\n\n#B\n text ").unwrap();
    assert_eq!(doc.descriptions.get('A').map(|s| s.as_str()), Some("see # here"));
    assert_eq!(doc.descriptions.get('B').map(|s| s.as_str()), Some("text"));
}

#[test]
fn unit_cube_net_decodes_top_symbol() {
    let ls = lines_of(&["x", "    ", " "]);
    let room = decode_net(&ls, 1, 1, 1).unwrap();
    assert_eq!(room.top, vec![(0, 0, 'x')]);
    assert!(room.back.is_empty());
    assert!(room.right.is_empty());
    assert!(room.front.is_empty());
    assert!(room.left.is_empty());
    assert!(room.floor.is_empty());
    assert_eq!(room.center, Point { x: 0, y: 0, z: 0 });
    assert!(area_matches(&chars("x\n    \n "), 1, 1, 1));
    assert!(!area_matches(&chars("x\n   \n "), 1, 1, 1));
}

#[test]
fn grid_yields_symbols_at_local_positions() {
    let image = vec!["+--+", "|ab|", "+-c+"];
    assert_eq!(
        get_letters_in_ascii_grid(image.clone(), 0, 0, 4, 3),
        vec![(1, 1, 'a'), (2, 1, 'b'), (2, 2, 'c')]
    );
    assert_eq!(get_letters_in_ascii_grid(image.clone(), 1, 1, 2, 2), vec![(0, 0, 'a'), (1, 0, 'b'), (1, 1, 'c')]);
    assert_eq!(get_letters_in_ascii_grid(image.clone(), 2, 0, 0, 3), vec![]);
    assert_eq!(get_letters_in_ascii_grid(image, 0, 3, 4, 0), vec![]);
}

#[test]
fn border_characters_never_appear() {
    let image = vec!["+-| ", "|- +"];
    assert_eq!(get_letters_in_ascii_grid(image, 0, 0, 4, 2), vec![]);
}

#[test]
fn unit_cube_document_gives_one_room() {
    let doc = parse_document("# Cube\nx\n+---\n-").unwrap();
    assert_eq!(doc.rooms.len(), 1);
    let room = &doc.rooms[0];
    assert_eq!((room.width, room.depth, room.height), (1, 1, 1));
    assert_eq!(room.top, vec![(0, 0, 'x')]);
    assert!(room.back.is_empty());
    assert!(room.right.is_empty());
    assert!(room.front.is_empty());
    assert!(room.left.is_empty());
    assert!(room.floor.is_empty());
    assert_eq!(room.center, Point { x: 0, y: 0, z: 0 });
}

const ROOM_A: &str = "+-\n--\n+ d     \n        \n+-\n-+";

#[test]
fn room_net_faces_and_dimensions() {
    let ls = lines_of(&["+-", "--", "+ d     ", "       e", "+f", "-+"]);
    assert_eq!(net_dimensions(&ls), Ok((2, 2, 2)));
    let room = parse_room(&chars("+-\n--\n+ d     \n       e\n+f\n-+")).unwrap();
    assert_eq!((room.width, room.depth, room.height), (2, 2, 2));
    assert_eq!(room.right, vec![(0, 0, 'd')]);
    assert_eq!(room.left, vec![(1, 1, 'e')]);
    assert_eq!(room.floor, vec![(1, 0, 'f')]);
    assert!(room.top.is_empty());
    assert!(room.back.is_empty());
    assert!(room.front.is_empty());
    assert_eq!(room.face(Face::Right), &vec![(0, 0, 'd')]);
}

#[test]
fn depth_is_the_index_of_the_first_border_line() {
    assert_eq!(net_dimensions(&lines_of(&["x", "+---", "-"])), Ok((1, 1, 1)));
    assert_eq!(net_dimensions(&lines_of(&["ab", "+-", "cd", "ef"])), Ok((2, 1, 2)));
    let flat = parse_room(&chars("ab\n+b")).unwrap();
    assert_eq!((flat.width, flat.depth, flat.height), (2, 1, 0));
    assert_eq!(flat.top, vec![(0, 0, 'a'), (1, 0, 'b')]);
    assert_eq!(flat.floor, vec![(1, 0, 'b')]);
}

#[test]
fn room_sections_keep_document_order() {
    let text = format!("# A\ndescribed\n# first room\n{}\n# second\n{}", ROOM_A, ROOM_A);
    let doc = parse_document(&text).unwrap();
    assert_eq!(doc.rooms.len(), 2);
    assert_eq!(doc.rooms[0].right, vec![(0, 0, 'd')]);
    assert_eq!(doc.rooms[1].right, vec![(0, 0, 'd')]);
    assert_eq!(doc.descriptions.get('A').map(|s| s.as_str()), Some("described"));
}

#[test]
fn area_mismatch_is_rejected() {
    assert_eq!(
        parse_room(&chars("+-\n--\n+ d      \n        \n+-\n-+")).err(),
        Some(FormatError::AreaMismatch)
    );
    assert_eq!(parse_room(&chars("ab\n+-\ncd\nef")).err(), Some(FormatError::AreaMismatch));
    let text = "# room\n+-\n--\n+ d     \n       \n+-\n-+";
    assert_eq!(parse_document(text).err(), Some(FormatError::AreaMismatch));
}

#[test]
fn missing_marker_is_rejected() {
    assert_eq!(parse_room(&chars("ab\ncd")).err(), Some(FormatError::MissingMarker));
    assert_eq!(parse_document("# room\nab\ncd").err(), Some(FormatError::MissingMarker));
    assert_eq!(parse_document("# room").err(), Some(FormatError::MissingMarker));
}

#[test]
fn too_few_lines_is_rejected() {
    assert_eq!(parse_room(&chars("ab\ncd\n+e")).err(), Some(FormatError::TooFewLines));
}

#[test]
fn short_band_line_is_out_of_bounds() {
    assert_eq!(parse_room(&chars("a\n+xx\nxx")).err(), Some(FormatError::OutOfBounds));
    let ls = lines_of(&["a", "+xx", "xx"]);
    assert_eq!(net_dimensions(&ls), Ok((1, 1, 1)));
    assert!(decode_net(&ls, 1, 1, 1).is_err());
}

#[test]
fn oversized_room_is_rejected() {
    let w = 1_000_001;
    let mut net = String::new();
    net.push_str(&"a".repeat(w));
    net.push('\n');
    net.push('+');
    net.push_str(&"b".repeat(w - 1));
    let content: Vec<char> = net.chars().collect();
    assert_eq!(parse_room(&content).err(), Some(FormatError::TooLarge));
}

#[test]
fn first_bad_net_decides_the_error() {
    let text = format!("# good\n{}\n# bad\nab\ncd\n# short\nab\ncd\n+e", ROOM_A);
    assert_eq!(parse_document(&text).err(), Some(FormatError::MissingMarker));
}
