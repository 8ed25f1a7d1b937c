use adventurer::combat::{combat_turn, CombatAction, CombatStatus};
use adventurer::enemies::Enemy;
use adventurer::items::{Item, ItemType};
use adventurer::player::Player;
use adventurer::world::{Exit, Room, World};

fn slime(health: i32, attack: i32) -> Enemy {
    Enemy {
        name: String::from("slime"),
        description: String::from("A wobbling slime."),
        health,
        attack,
        xp_reward: 0,
    }
}

fn potion(name: &str, power: Option<i32>) -> Item {
    Item { name: String::from(name), item_type: ItemType::Healing, power, usable_on: None }
}

#[test]
fn attack_that_kills_wins_and_awards_five_times_attack() {
    let mut p = Player::new();
    let mut e = slime(10, 4);
    // Damage is 10 + 2*1 = 12, enough to finish the slime; the award of
    // 4 * 5 = 20 xp stays below the level-up threshold.
    let r = combat_turn(&mut p, &mut e, "hall", CombatAction::Attack);
    assert_eq!(r, CombatStatus::Won);
    assert!(e.health <= 0);
    assert_eq!(p.xp, 20);
    assert_eq!(p.level, 1);
    assert_eq!(p.health, 100);
}

#[test]
fn attack_that_kills_can_cascade_level_ups() {
    let mut p = Player::new();
    let mut e = slime(5, 30);
    // 30 * 5 = 150 xp: thresholds of 50 and then 100 are both paid, so
    // the kill cascades through two level-ups.
    let r = combat_turn(&mut p, &mut e, "hall", CombatAction::Attack);
    assert_eq!(r, CombatStatus::Won);
    assert_eq!(p.level, 3);
    assert_eq!(p.xp, 0);
    assert_eq!(p.health, 140);
}

#[test]
fn attack_that_leaves_enemy_alive_draws_a_counter_attack() {
    let mut p = Player::new();
    let mut e = slime(100, 7);
    let r = combat_turn(&mut p, &mut e, "hall", CombatAction::Attack);
    assert_eq!(r, CombatStatus::Ongoing);
    assert_eq!(e.health, 88);
    assert_eq!(p.health, 93);
}

#[test]
fn losing_turn_reports_lost() {
    let mut p = Player::new();
    p.health = 5;
    let mut e = slime(100, 7);
    let r = combat_turn(&mut p, &mut e, "hall", CombatAction::Attack);
    assert_eq!(r, CombatStatus::Lost);
    assert_eq!(p.health, -2);
}

#[test]
fn heal_consumes_first_healing_item_then_enemy_strikes() {
    let mut p = Player::new();
    p.health = 50;
    p.inventory.push(Item {
        name: String::from("Iron Sword"),
        item_type: ItemType::Weapon,
        power: Some(5),
        usable_on: None,
    });
    p.inventory.push(potion("Small Potion", Some(30)));
    p.inventory.push(potion("Large Potion", Some(90)));
    let mut e = slime(100, 7);
    let r = combat_turn(&mut p, &mut e, "hall", CombatAction::Heal);
    assert_eq!(r, CombatStatus::Ongoing);
    // The first healing item (30) is used, then the slime hits for 7.
    assert_eq!(p.health, 73);
    assert_eq!(p.inventory.len(), 2);
    assert_eq!(p.inventory[0].name, "Iron Sword");
    assert_eq!(p.inventory[1].name, "Large Potion");
    assert_eq!(e.health, 100);
}

#[test]
fn heal_without_items_still_counts_as_a_turn() {
    let mut p = Player::new();
    let mut e = slime(100, 7);
    let r = combat_turn(&mut p, &mut e, "hall", CombatAction::Heal);
    assert_eq!(r, CombatStatus::Ongoing);
    assert_eq!(p.health, 93);
}

#[test]
fn defend_has_no_effect_but_the_enemy_acts() {
    let mut p = Player::new();
    let mut e = slime(100, 7);
    let r = combat_turn(&mut p, &mut e, "hall", CombatAction::Defend);
    assert_eq!(r, CombatStatus::Ongoing);
    assert_eq!(p.health, 93);
    assert_eq!(e.health, 100);
}

#[test]
fn fleeing_restores_the_previous_room_and_spares_the_enemy() {
    let mut p = Player::new();
    p.current_room = String::from("garden");
    let mut e = slime(100, 7);
    let r = combat_turn(&mut p, &mut e, "hall", CombatAction::Run);
    assert_eq!(r, CombatStatus::Fled);
    assert_eq!(p.current_room, "hall");
    assert_eq!(p.health, 100);
    assert_eq!(e.health, 100);
}

#[test]
fn unknown_action_provokes_nothing() {
    let mut p = Player::new();
    let mut e = slime(100, 7);
    let r = combat_turn(&mut p, &mut e, "hall", CombatAction::Unknown);
    assert_eq!(r, CombatStatus::Ongoing);
    assert_eq!(p.health, 100);
    assert_eq!(e.health, 100);
}

#[test]
fn defeat_then_settlement_clears_the_room() {
    let mut hall = Room {
        id: String::from("hall"),
        description: String::from("A hall."),
        items: Vec::new(),
        exits: vec![Exit { direction: String::from("east"), to: String::from("garden") }],
        enemy: None,
    };
    hall.enemy = Some(String::from("slime"));
    let mut w = World { rooms: vec![hall], cleared_rooms: Vec::new() };
    let mut p = Player::new();
    p.current_room = String::from("hall");
    let mut e = slime(10, 4);
    let r = combat_turn(&mut p, &mut e, "tutorial_hall", CombatAction::Attack);
    assert_eq!(r, CombatStatus::Won);
    assert!(e.health <= 0);
    w.mark_enemy_defeated("hall");
    assert_eq!(w.rooms[0].enemy, None);
    assert_eq!(w.cleared_rooms, vec![String::from("hall")]);
}
