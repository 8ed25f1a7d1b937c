use adventurer::codec::{decode_save, encode_save, save_load_round_trip, SaveData};
use adventurer::items::{Item, ItemType};
use adventurer::player::Player;
use adventurer::world::{Exit, Room, World};

fn sample_player() -> Player {
    let mut p = Player::new();
    p.health = 93;
    p.xp = 20;
    p.base_attack = 13;
    p.current_room = String::from("garden");
    p.inventory.push(Item {
        name: String::from("Small Potion"),
        item_type: ItemType::Healing,
        power: Some(30),
        usable_on: None,
    });
    p.inventory.push(Item {
        name: String::from("Emerald Shard"),
        item_type: ItemType::Quest,
        power: None,
        usable_on: Some(String::from("forest_altar")),
    });
    p.flags.push(String::from("tutorial_completed"));
    p.flags.push(String::from("level1_loaded"));
    p.current_level = 1;
    p
}

fn sample_world() -> World {
    let mut hall = Room {
        id: String::from("hall"),
        description: String::from("A quiet hall; dust everywhere."),
        items: Vec::new(),
        exits: vec![Exit { direction: String::from("east"), to: String::from("garden") }],
        enemy: None,
    };
    hall.items.push(Item {
        name: String::from("Map"),
        item_type: ItemType::Utility,
        power: None,
        usable_on: None,
    });
    let garden = Room {
        id: String::from("garden"),
        description: String::from("Green, with a 3:1 ratio of weeds to flowers."),
        items: Vec::new(),
        exits: vec![Exit { direction: String::from("west"), to: String::from("hall") }],
        enemy: Some(String::from("slime")),
    };
    World {
        rooms: vec![hall, garden],
        cleared_rooms: vec![String::from("hall")],
    }
}

fn assert_players_equal(a: &Player, b: &Player) {
    assert_eq!(a.name, b.name);
    assert_eq!(a.health, b.health);
    assert_eq!(a.max_health, b.max_health);
    assert_eq!(a.mana, b.mana);
    assert_eq!(a.max_mana, b.max_mana);
    assert_eq!(a.xp, b.xp);
    assert_eq!(a.level, b.level);
    assert_eq!(a.base_attack, b.base_attack);
    assert_eq!(a.current_room, b.current_room);
    assert_eq!(a.current_level, b.current_level);
    assert_eq!(a.inventory.len(), b.inventory.len());
    for (x, y) in a.inventory.iter().zip(b.inventory.iter()) {
        assert_eq!(x.name, y.name);
        assert_eq!(x.power, y.power);
        assert_eq!(x.usable_on, y.usable_on);
        assert_eq!(x.item_type, y.item_type);
    }
    assert_eq!(a.flags, b.flags);
}

fn assert_worlds_equal(a: &World, b: &World) {
    assert_eq!(a.cleared_rooms, b.cleared_rooms);
    assert_eq!(a.rooms.len(), b.rooms.len());
    for (x, y) in a.rooms.iter().zip(b.rooms.iter()) {
        assert_eq!(x.id, y.id);
        assert_eq!(x.description, y.description);
        assert_eq!(x.enemy, y.enemy);
        assert_eq!(x.items.len(), y.items.len());
        for (i, j) in x.items.iter().zip(y.items.iter()) {
            assert_eq!(i.name, j.name);
            assert_eq!(i.power, j.power);
            assert_eq!(i.usable_on, j.usable_on);
        }
        assert_eq!(x.exits.len(), y.exits.len());
        for (i, j) in x.exits.iter().zip(y.exits.iter()) {
            assert_eq!(i.direction, j.direction);
            assert_eq!(i.to, j.to);
        }
    }
}

#[test]
fn save_then_load_reproduces_everything() {
    let p = sample_player();
    let w = sample_world();
    let encoded = encode_save(&p, &w);
    let decoded = decode_save(&encoded).expect("a fresh save must parse");
    assert_players_equal(&p, &decoded.0);
    assert_worlds_equal(&w, &decoded.1);
}

#[test]
fn round_trip_helper_agrees() {
    let p = sample_player();
    let w = sample_world();
    let (p2, w2) = save_load_round_trip(&p, &w).expect("round trip succeeds");
    assert_players_equal(&p, &p2);
    assert_worlds_equal(&w, &w2);
}

#[test]
fn save_data_wrapper_round_trips() {
    let sd = SaveData { player: sample_player(), world: sample_world() };
    let doc = sd.encode();
    let back = SaveData::decode(&doc).expect("encoded save parses");
    assert_players_equal(&sd.player, &back.player);
    assert_worlds_equal(&sd.world, &back.world);
}

#[test]
fn negative_numbers_survive_the_trip() {
    let mut p = sample_player();
    p.health = -42;
    let w = sample_world();
    let encoded = encode_save(&p, &w);
    let decoded = decode_save(&encoded).expect("save with negative health parses");
    assert_eq!(decoded.0.health, -42);
}

#[test]
fn a_fresh_game_round_trips() {
    let p = Player::new();
    let w = World { rooms: Vec::new(), cleared_rooms: Vec::new() };
    let (p2, w2) = save_load_round_trip(&p, &w).expect("round trip succeeds");
    assert_players_equal(&p, &p2);
    assert_worlds_equal(&w, &w2);
}

#[test]
fn corrupt_documents_are_rejected() {
    assert!(decode_save(&Vec::new()).is_none());
    let garbage: Vec<char> = "not a save file".chars().collect();
    assert!(decode_save(&garbage).is_none());
    let mut truncated = encode_save(&sample_player(), &sample_world());
    truncated.truncate(truncated.len() / 2);
    assert!(decode_save(&truncated).is_none());
    let mut padded = encode_save(&sample_player(), &sample_world());
    padded.push('x');
    assert!(decode_save(&padded).is_none());
}

#[test]
fn non_canonical_documents_are_rejected() {
    // A leading zero parses to the same number but is not what any save
    // wrote; only exact encodings are accepted.
    let mut doctored = encode_save(&sample_player(), &sample_world());
    doctored.insert(0, '0');
    assert!(decode_save(&doctored).is_none());
}

#[test]
fn the_document_content_depends_on_the_state() {
    let p = sample_player();
    let w = sample_world();
    let one = encode_save(&p, &w);
    let mut p2 = sample_player();
    p2.health = 1;
    let two = encode_save(&p2, &w);
    assert_ne!(one, two);
}
