use adventurer::items::{Item, ItemType};
use adventurer::player::Player;

fn potion(name: &str, power: i32) -> Item {
    Item {
        name: String::from(name),
        item_type: ItemType::Healing,
        power: Some(power),
        usable_on: None,
    }
}

#[test]
fn new_player_defaults() {
    let p = Player::new();
    assert_eq!(p.name, "Hero");
    assert_eq!(p.health, 100);
    assert_eq!(p.max_health, 100);
    assert_eq!(p.mana, 50);
    assert_eq!(p.max_mana, 50);
    assert_eq!(p.xp, 0);
    assert_eq!(p.level, 1);
    assert_eq!(p.base_attack, 10);
    assert_eq!(p.current_room, "tutorial_hall");
    assert!(p.inventory.is_empty());
    assert!(p.flags.is_empty());
    assert_eq!(p.current_level, 0);
    assert!(p.check_wf());
}

#[test]
fn xp_threshold_is_fifty_per_level() {
    let mut p = Player::new();
    assert_eq!(p.xp_to_next_level(), 50);
    p.level = 7;
    assert_eq!(p.xp_to_next_level(), 350);
}

#[test]
fn add_xp_cascades_two_level_ups() {
    // Level 1 with 150 xp awarded: the level-1 threshold of 50 is
    // consumed, then the level-2 threshold of 100; two level-ups, nothing
    // left.
    let mut p = Player::new();
    p.add_xp(150);
    assert_eq!(p.level, 3);
    assert_eq!(p.xp, 0);
    assert_eq!(p.max_health, 140);
    assert_eq!(p.max_mana, 70);
    assert_eq!(p.base_attack, 16);
    assert_eq!(p.health, 140);
    assert_eq!(p.mana, 70);
    assert!(p.check_wf());
}

#[test]
fn add_xp_of_120_reaches_level_two_with_seventy_left() {
    // 120 pays the level-1 threshold of 50; the 70 left are below the
    // level-2 threshold of 100, so exactly one level-up happens.
    let mut p = Player::new();
    p.add_xp(120);
    assert_eq!(p.level, 2);
    assert_eq!(p.xp, 70);
    assert_eq!(p.max_health, 120);
    assert_eq!(p.health, 120);
}

#[test]
fn add_xp_below_threshold_only_banks() {
    let mut p = Player::new();
    p.add_xp(49);
    assert_eq!(p.level, 1);
    assert_eq!(p.xp, 49);
    assert_eq!(p.max_health, 100);
}

#[test]
fn level_up_restores_and_raises() {
    let mut p = Player::new();
    p.health = 3;
    p.mana = 0;
    p.level_up();
    assert_eq!(p.level, 2);
    assert_eq!(p.max_health, 120);
    assert_eq!(p.health, 120);
    assert_eq!(p.max_mana, 60);
    assert_eq!(p.mana, 60);
    assert_eq!(p.base_attack, 13);
}

#[test]
fn heal_is_clamped_to_max() {
    let mut p = Player::new();
    p.health = 90;
    p.heal(20);
    assert_eq!(p.health, 100);
    p.health = 40;
    p.heal(20);
    assert_eq!(p.health, 60);
}

#[test]
fn attack_damage_scales_with_level() {
    let mut p = Player::new();
    assert_eq!(p.attack_damage(), 12);
    p.level = 4;
    p.base_attack = 19;
    p.xp = 0;
    assert_eq!(p.attack_damage(), 27);
}

#[test]
fn find_item_is_case_insensitive_first_match() {
    let mut p = Player::new();
    p.inventory.push(potion("Small Potion", 10));
    p.inventory.push(potion("ELIXIR", 30));
    p.inventory.push(potion("elixir", 40));
    assert_eq!(p.find_item("small potion"), Some(0));
    assert_eq!(p.find_item("Elixir"), Some(1));
    assert_eq!(p.find_item("sword"), None);
}

#[test]
fn has_flag_is_exact_membership() {
    let mut p = Player::new();
    p.flags.push(String::from("tutorial_completed"));
    assert!(p.has_flag("tutorial_completed"));
    assert!(!p.has_flag("Tutorial_Completed"));
    assert!(!p.has_flag("level1_loaded"));
}

#[test]
fn check_wf_rejects_broken_numbers() {
    let mut p = Player::new();
    p.xp = 50;
    assert!(!p.check_wf());
    p.xp = 0;
    p.health = 101;
    assert!(!p.check_wf());
    p.health = 100;
    assert!(p.check_wf());
}
