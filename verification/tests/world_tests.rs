use adventurer::items::{Item, ItemType};
use adventurer::player::Player;
use adventurer::world::{
    move_player, take_item, use_item, Exit, MoveOutcome, Room, TakeOutcome, UseOutcome, World,
};

fn room(id: &str) -> Room {
    Room {
        id: String::from(id),
        description: format!("The {}.", id),
        items: Vec::new(),
        exits: Vec::new(),
        enemy: None,
    }
}

fn exit(direction: &str, to: &str) -> Exit {
    Exit { direction: String::from(direction), to: String::from(to) }
}

fn item(name: &str, item_type: ItemType, power: Option<i32>, usable_on: Option<&str>) -> Item {
    Item {
        name: String::from(name),
        item_type,
        power,
        usable_on: usable_on.map(String::from),
    }
}

fn small_world() -> World {
    let mut hall = room("hall");
    hall.exits.push(exit("east", "garden"));
    hall.items.push(item("Rusty Key", ItemType::Utility, None, None));
    let mut garden = room("garden");
    garden.exits.push(exit("west", "hall"));
    garden.enemy = Some(String::from("slime"));
    World { rooms: vec![hall, garden], cleared_rooms: Vec::new() }
}

fn player_in(roomid: &str) -> Player {
    let mut p = Player::new();
    p.current_room = String::from(roomid);
    p
}

#[test]
fn move_changes_room_exactly_when_exit_exists() {
    let w = small_world();
    let mut p = player_in("hall");
    match move_player("east", &mut p, &w) {
        MoveOutcome::Moved { enemy } => {
            assert_eq!(p.current_room, "garden");
            assert_eq!(enemy, Some(String::from("slime")));
        },
        MoveOutcome::NoExit => panic!("east exit exists"),
    }
    let mut q = player_in("hall");
    match move_player("north", &mut q, &w) {
        MoveOutcome::NoExit => assert_eq!(q.current_room, "hall"),
        MoveOutcome::Moved { .. } => panic!("no north exit"),
    }
}

#[test]
fn move_from_unknown_room_fails() {
    let w = small_world();
    let mut p = player_in("void");
    assert!(matches!(move_player("east", &mut p, &w), MoveOutcome::NoExit));
    assert_eq!(p.current_room, "void");
}

#[test]
fn take_moves_item_once_and_marks_cleared() {
    let mut w = small_world();
    let mut p = player_in("hall");
    assert_eq!(take_item("rusty key", &mut p, &mut w), TakeOutcome::Taken);
    assert_eq!(p.inventory.len(), 1);
    assert_eq!(p.inventory[0].name, "Rusty Key");
    assert!(w.rooms[0].items.is_empty());
    assert_eq!(w.cleared_rooms, vec![String::from("hall")]);
    // A second take of the same name finds nothing and changes nothing.
    assert_eq!(take_item("rusty key", &mut p, &mut w), TakeOutcome::NotHere);
    assert_eq!(p.inventory.len(), 1);
    assert_eq!(w.cleared_rooms.len(), 1);
}

#[test]
fn take_nonexistent_is_noop() {
    let mut w = small_world();
    let mut p = player_in("hall");
    assert_eq!(take_item("crown", &mut p, &mut w), TakeOutcome::NotHere);
    assert!(p.inventory.is_empty());
    assert_eq!(w.rooms[0].items.len(), 1);
    assert!(w.cleared_rooms.is_empty());
}

#[test]
fn take_is_blocked_in_the_sanctum() {
    let mut w = small_world();
    w.rooms.push(room("Sanctum"));
    w.rooms[2].items.push(item("Shard", ItemType::Quest, None, Some("Sanctum")));
    let mut p = player_in("Sanctum");
    assert_eq!(take_item("shard", &mut p, &mut w), TakeOutcome::Blocked);
    assert!(p.inventory.is_empty());
    assert_eq!(w.rooms[2].items.len(), 1);
}

#[test]
fn healing_item_heals_clamped_and_is_consumed() {
    let mut w = small_world();
    let mut p = player_in("hall");
    p.health = 90;
    p.inventory.push(item("Potion", ItemType::Healing, Some(20), None));
    assert_eq!(use_item("potion", &mut p, &mut w), UseOutcome::Healed);
    assert_eq!(p.health, 100);
    assert!(p.inventory.is_empty());
}

#[test]
fn powerless_healing_item_is_consumed_without_effect() {
    let mut w = small_world();
    let mut p = player_in("hall");
    p.health = 90;
    p.inventory.push(item("Empty Vial", ItemType::Healing, None, None));
    assert_eq!(use_item("empty vial", &mut p, &mut w), UseOutcome::HealedNoEffect);
    assert_eq!(p.health, 90);
    assert!(p.inventory.is_empty());
}

#[test]
fn weapon_raises_attack_and_is_consumed() {
    let mut w = small_world();
    let mut p = player_in("hall");
    p.inventory.push(item("Iron Sword", ItemType::Weapon, Some(5), None));
    assert_eq!(use_item("iron sword", &mut p, &mut w), UseOutcome::Equipped);
    assert_eq!(p.base_attack, 15);
    assert!(p.inventory.is_empty());
}

#[test]
fn weapon_bonus_is_added_exactly_even_on_large_attack() {
    let mut w = small_world();
    let mut p = player_in("hall");
    p.base_attack = 1_000_000_003;
    p.inventory.push(item("Doom Blade", ItemType::Weapon, Some(5), None));
    assert_eq!(use_item("doom blade", &mut p, &mut w), UseOutcome::Equipped);
    assert_eq!(p.base_attack, 1_000_000_008);
}

#[test]
fn look_mirrors_the_room_in_order() {
    let w = small_world();
    let p = player_in("hall");
    let view = adventurer::world::look(&p, &w).expect("the hall exists");
    assert_eq!(view.title, "hall");
    assert_eq!(view.description, "The hall.");
    assert_eq!(view.item_names, vec![String::from("Rusty Key")]);
    assert_eq!(view.exit_directions, vec![String::from("east")]);
    assert_eq!(view.enemy, None);
    let q = player_in("garden");
    let view = adventurer::world::look(&q, &w).expect("the garden exists");
    assert!(view.item_names.is_empty());
    assert_eq!(view.enemy, Some(String::from("slime")));
    assert!(adventurer::world::look(&player_in("void"), &w).is_none());
}

#[test]
fn quest_item_outside_target_room_does_nothing() {
    let mut w = small_world();
    let mut p = player_in("hall");
    p.inventory.push(item("Emerald Shard", ItemType::Quest, None, Some("garden")));
    assert_eq!(use_item("emerald shard", &mut p, &mut w), UseOutcome::QuestWrongRoom);
    assert_eq!(p.inventory.len(), 1);
    assert!(p.flags.is_empty());
    assert!(w.cleared_rooms.is_empty());
}

#[test]
fn quest_item_in_target_room_completes_the_level() {
    let mut w = small_world();
    let mut p = player_in("garden");
    p.inventory.push(item("Emerald Shard", ItemType::Quest, None, Some("garden")));
    assert_eq!(use_item("emerald shard", &mut p, &mut w), UseOutcome::QuestCompleted);
    assert!(p.inventory.is_empty());
    assert_eq!(p.flags, vec![String::from("tutorial_completed")]);
    assert_eq!(w.cleared_rooms, vec![String::from("garden")]);
}

#[test]
fn quest_item_sets_the_next_unset_completed_flag() {
    let mut w = small_world();
    let mut p = player_in("garden");
    p.flags.push(String::from("tutorial_completed"));
    p.flags.push(String::from("level1_loaded"));
    p.inventory.push(item("Forest Relic", ItemType::Quest, None, Some("garden")));
    assert_eq!(use_item("forest relic", &mut p, &mut w), UseOutcome::QuestCompleted);
    assert!(p.flags.contains(&String::from("level1_completed")));
    assert_eq!(p.flags.len(), 3);
}

#[test]
fn quest_item_without_target_cannot_be_used() {
    let mut w = small_world();
    let mut p = player_in("hall");
    p.inventory.push(item("Odd Relic", ItemType::Quest, None, None));
    assert_eq!(use_item("odd relic", &mut p, &mut w), UseOutcome::QuestInert);
    assert_eq!(p.inventory.len(), 1);
}

#[test]
fn utility_items_dispatch_by_name_and_stay() {
    let mut w = small_world();
    let mut p = player_in("hall");
    p.inventory.push(item("Map", ItemType::Utility, None, None));
    p.inventory.push(item("Water Flask", ItemType::Utility, None, None));
    p.inventory.push(item("Lantern", ItemType::Utility, None, None));
    assert_eq!(use_item("map", &mut p, &mut w), UseOutcome::UtilityMap);
    assert_eq!(use_item("water flask", &mut p, &mut w), UseOutcome::UtilityFlask);
    assert_eq!(use_item("lantern", &mut p, &mut w), UseOutcome::UtilityPlain);
    assert_eq!(p.inventory.len(), 3);
}

#[test]
fn using_a_missing_item_is_reported() {
    let mut w = small_world();
    let mut p = player_in("hall");
    assert_eq!(use_item("potion", &mut p, &mut w), UseOutcome::NotFound);
}

#[test]
fn mark_enemy_defeated_clears_room_and_records_it() {
    let mut w = small_world();
    w.mark_enemy_defeated("garden");
    assert_eq!(w.rooms[1].enemy, None);
    assert_eq!(w.cleared_rooms, vec![String::from("garden")]);
    // An unknown room id changes nothing.
    w.mark_enemy_defeated("void");
    assert_eq!(w.cleared_rooms.len(), 1);
}

#[test]
fn find_room_and_is_cleared() {
    let mut w = small_world();
    assert_eq!(w.find_room("garden"), Some(1));
    assert_eq!(w.find_room("Garden"), None);
    assert_eq!(w.find_room("void"), None);
    assert!(!w.is_cleared("hall"));
    w.mark_cleared("hall");
    w.mark_cleared("hall");
    assert!(w.is_cleared("hall"));
    assert_eq!(w.cleared_rooms.len(), 1);
}
