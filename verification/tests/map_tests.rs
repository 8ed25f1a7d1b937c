use adventurer::map::{compute_layout, render_map, two_room_east_map};
use adventurer::world::{Exit, Room, World};

fn room(id: &str) -> Room {
    Room {
        id: String::from(id),
        description: String::from("A room."),
        items: Vec::new(),
        exits: Vec::new(),
        enemy: None,
    }
}

fn exit(direction: &str, to: &str) -> Exit {
    Exit { direction: String::from(direction), to: String::from(to) }
}

fn two_room_world() -> World {
    let mut hall = room("hall");
    hall.exits.push(exit("east", "yard"));
    let yard = room("yard");
    World { rooms: vec![hall, yard], cleared_rooms: Vec::new() }
}

#[test]
fn east_neighbour_is_one_step_right() {
    let w = two_room_world();
    let placed = compute_layout(&w, "hall");
    assert_eq!(placed.len(), 2);
    assert_eq!(placed[0].id, "hall");
    assert_eq!((placed[0].x, placed[0].y), (0, 0));
    assert_eq!(placed[1].id, "yard");
    assert_eq!((placed[1].x, placed[1].y), (1, 0));
}

#[test]
fn east_link_draws_one_horizontal_connector() {
    let w = two_room_world();
    let placed = compute_layout(&w, "hall");
    let rows = render_map(&w, &placed, "hall");
    assert_eq!(rows.len(), 1);
    // Cell width is the longest id (4) plus 4 padding columns.
    let cw = 8;
    let row: Vec<char> = rows[0].chars().collect();
    assert_eq!(row.len(), 3 * cw);
    let cell = |i: usize| -> String { row[i * cw..(i + 1) * cw].iter().collect() };
    assert_eq!(cell(0), " * hall ");
    assert_eq!(cell(1), "  ---   ");
    assert_eq!(cell(2), "   yard ");
}

#[test]
fn the_two_room_law_function_agrees() {
    let w = two_room_world();
    let (placed, rows) = two_room_east_map(&w);
    assert_eq!(placed.len(), 2);
    assert_eq!((placed[1].x, placed[1].y), (1, 0));
    assert_eq!(rows.len(), 1);
    assert!(rows[0].contains("---"));
}

#[test]
fn north_neighbour_sits_above() {
    let mut a = room("camp");
    a.exits.push(exit("north", "peak"));
    let w = World { rooms: vec![a, room("peak")], cleared_rooms: Vec::new() };
    let placed = compute_layout(&w, "camp");
    assert_eq!(placed.len(), 2);
    assert_eq!((placed[1].x, placed[1].y), (0, -1));
    let rows = render_map(&w, &placed, "camp");
    assert_eq!(rows.len(), 3);
    assert!(rows[0].contains("peak"));
    assert!(rows[1].contains("|"));
    assert!(rows[2].contains("* camp"));
}

#[test]
fn non_cardinal_exits_do_not_advance_coordinates() {
    let mut a = room("cave");
    a.exits.push(exit("down", "pit"));
    let w = World { rooms: vec![a, room("pit")], cleared_rooms: Vec::new() };
    let placed = compute_layout(&w, "cave");
    assert_eq!(placed.len(), 2);
    assert_eq!((placed[1].x, placed[1].y), (0, 0));
}

#[test]
fn first_discovery_fixes_the_coordinates() {
    // A diamond: both paths reach the far room; its first discovery (via
    // the east neighbour) decides its spot, and nothing is placed twice.
    let mut a = room("a");
    a.exits.push(exit("east", "b"));
    a.exits.push(exit("south", "c"));
    let mut b = room("b");
    b.exits.push(exit("south", "d"));
    let mut c = room("c");
    c.exits.push(exit("east", "d"));
    let w = World { rooms: vec![a, b, c, room("d")], cleared_rooms: Vec::new() };
    let placed = compute_layout(&w, "a");
    assert_eq!(placed.len(), 4);
    let find = |id: &str| placed.iter().find(|p| p.id == id).expect("placed");
    assert_eq!((find("b").x, find("b").y), (1, 0));
    assert_eq!((find("c").x, find("c").y), (0, 1));
    assert_eq!((find("d").x, find("d").y), (1, 1));
}

#[test]
fn unreachable_rooms_are_not_placed() {
    let w = World {
        rooms: vec![room("island"), room("shore")],
        cleared_rooms: Vec::new(),
    };
    let placed = compute_layout(&w, "island");
    assert_eq!(placed.len(), 1);
    assert_eq!(placed[0].id, "island");
}
