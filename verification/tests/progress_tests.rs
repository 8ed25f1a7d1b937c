use adventurer::enemies::{Enemy, EnemyData};
use adventurer::player::Player;
use adventurer::progress::{apply_transition, banner_lines, level_title, next_transition};
use adventurer::world::{Room, World};

fn simple_world(roomid: &str) -> World {
    World {
        rooms: vec![Room {
            id: String::from(roomid),
            description: String::from("A room."),
            items: Vec::new(),
            exits: Vec::new(),
            enemy: None,
        }],
        cleared_rooms: Vec::new(),
    }
}

#[test]
fn no_flags_means_no_transition() {
    let p = Player::new();
    assert!(next_transition(&p).is_none());
}

#[test]
fn tutorial_completion_calls_for_the_forest() {
    let mut p = Player::new();
    p.flags.push(String::from("tutorial_completed"));
    let t = next_transition(&p).expect("a transition is due");
    assert_eq!(t.loaded_flag, "level1_loaded");
    assert_eq!(t.level_index, 1);
    assert_eq!(t.entry_room, "forest_entrance");
}

#[test]
fn loaded_flags_settle_the_transition() {
    let mut p = Player::new();
    p.flags.push(String::from("tutorial_completed"));
    p.flags.push(String::from("level1_loaded"));
    assert!(next_transition(&p).is_none());
    p.flags.push(String::from("level1_completed"));
    let t = next_transition(&p).expect("the desert is due");
    assert_eq!(t.loaded_flag, "level2_loaded");
    assert_eq!(t.entry_room, "desert_edge");
    p.flags.push(String::from("level2_loaded"));
    p.flags.push(String::from("level2_completed"));
    let t = next_transition(&p).expect("the sanctum is due");
    assert_eq!(t.loaded_flag, "sanctum_loaded");
    assert_eq!(t.level_index, 3);
    assert_eq!(t.entry_room, "sanctum");
}

#[test]
fn apply_transition_swaps_world_and_keeps_inventory() {
    let mut p = Player::new();
    p.flags.push(String::from("tutorial_completed"));
    p.inventory.push(adventurer::items::Item {
        name: String::from("Keepsake"),
        item_type: adventurer::items::ItemType::Utility,
        power: None,
        usable_on: None,
    });
    let mut w = simple_world("tutorial_hall");
    let t = next_transition(&p).expect("a transition is due");
    apply_transition(&mut p, &mut w, simple_world("forest_entrance"), &t);
    assert_eq!(p.current_room, "forest_entrance");
    assert_eq!(p.current_level, 1);
    assert!(p.flags.contains(&String::from("level1_loaded")));
    assert_eq!(w.rooms[0].id, "forest_entrance");
    assert_eq!(p.inventory.len(), 1);
    // The cascade is drained: nothing further is due.
    assert!(next_transition(&p).is_none());
}

#[test]
fn level_titles_match_the_story() {
    assert_eq!(level_title(0), "Tutorial: The Guild Hall");
    assert_eq!(level_title(1), "Level 1: The Emerald Forest");
    assert_eq!(level_title(2), "Level 2: The Desert Sands");
    assert_eq!(level_title(3), "Sanctum of Aether: You Win!");
    assert_eq!(level_title(9), "The Realm of Aether");
}

#[test]
fn banner_frames_the_title() {
    let lines = banner_lines("Hi");
    assert_eq!(lines.len(), 3);
    assert_eq!(lines[0], "+==========+");
    assert_eq!(lines[1], "|    Hi    |");
    assert_eq!(lines[2], lines[0]);
}

#[test]
fn catalog_lookup_clones_the_template() {
    let mut data = EnemyData::new();
    data.add(
        String::from("slime"),
        Enemy {
            name: String::from("slime"),
            description: String::from("A wobbling slime."),
            health: 20,
            attack: 4,
            xp_reward: 20,
        },
    );
    let mut first = data.get_enemy_by_name("slime").expect("slime is registered");
    first.health = 0;
    let second = data.get_enemy_by_name("slime").expect("slime is registered");
    assert_eq!(second.health, 20);
    assert!(data.get_enemy_by_name("dragon").is_none());
    assert!(data.get_enemy_by_name("Slime").is_none());
}
