//! Turn-based combat: one encounter is a sequence of turns, each resolving
//! a player action and, when the action was valid and the enemy survives,
//! the enemy's counter-attack. The caller drives the loop (it owns the
//! pending-input point) and calls [`combat_turn`] once per read action.
use vstd::prelude::*;
use crate::enemies::{Enemy, EnemyModel};
use crate::items::{ItemModel, ItemType};
use crate::player::{LevelState, Player, PlayerModel, settle_xp, spec_xp_threshold};

verus! {

/// A combat action, as resolved from one line of player input.
#[derive(Clone, Copy, PartialEq, Eq, Structural, Debug)]
pub enum CombatAction {
    Attack,
    Heal,
    Defend,
    Run,
    /// Input matching no known verb: reported, and the enemy does not act.
    Unknown,
}

/// State of the encounter after a turn.
#[derive(Clone, Copy, PartialEq, Eq, Structural, Debug)]
pub enum CombatStatus {
    /// The fight goes on; read another action.
    Ongoing,
    /// The enemy fell: experience has been awarded; the caller must clear
    /// the enemy from the room (see `World::mark_enemy_defeated`).
    Won,
    /// The player's health reached zero: the run is over.
    Lost,
    /// The player ran: the current room is back to the pre-encounter room
    /// and the enemy is untouched, not defeated.
    Fled,
}

/// Replaces the levelling fields of `p` by `ls`.
pub open spec fn with_level_state(p: PlayerModel, ls: LevelState) -> PlayerModel {
    PlayerModel {
        level: ls.level,
        xp: ls.xp,
        health: ls.health,
        max_health: ls.max_health,
        mana: ls.mana,
        max_mana: ls.max_mana,
        base_attack: ls.base_attack,
        ..p
    }
}

/// The enemy's counter-attack: the player loses `e.attack` health; the
/// encounter is lost exactly when that drops the health to zero or below.
pub open spec fn spec_counter_attack(p: PlayerModel, e: EnemyModel) -> (
    PlayerModel,
    EnemyModel,
    CombatStatus,
) {
    let p2 = PlayerModel { health: p.health - e.attack, ..p };
    (p2, e, if p2.health <= 0 {
        CombatStatus::Lost
    } else {
        CombatStatus::Ongoing
    })
}

/// One combat turn over the mathematical state: resolves `action`, then
/// the counter-attack where one is due. Attacking deals
/// `base_attack + 2 * level`; a kill awards `5 * e.attack` experience
/// (cascading through [`settle_xp`]) and ends the encounter before any
/// counter-attack. Healing consumes the first healing item if there is
/// one; with or without an item the turn counts as valid, so the enemy
/// strikes back. Defending has no mechanical effect yet. Running relocates
/// the player to `prev` and leaves the enemy untouched. Unknown input is
/// not a valid turn: nothing at all happens.
pub open spec fn spec_combat_turn(
    p: PlayerModel,
    e: EnemyModel,
    prev: Seq<char>,
    action: CombatAction,
) -> (PlayerModel, EnemyModel, CombatStatus) {
    match action {
        CombatAction::Attack => {
            let e2 = EnemyModel { health: e.health - (p.base_attack + 2 * p.level), ..e };
            if e2.health <= 0 {
                (
                    with_level_state(
                        p,
                        settle_xp(LevelState { xp: p.xp + 5 * e.attack, ..p.level_state() }),
                    ),
                    e2,
                    CombatStatus::Won,
                )
            } else {
                spec_counter_attack(p, e2)
            }
        },
        CombatAction::Heal => {
            let k = crate::items::spec_healing_index(p.inventory);
            if k < 0 {
                spec_counter_attack(p, e)
            } else {
                let p2 = match p.inventory[k].power {
                    Some(pw) => PlayerModel {
                        health: vstd::math::min(p.health + pw, p.max_health),
                        inventory: p.inventory.remove(k),
                        ..p
                    },
                    None => PlayerModel { inventory: p.inventory.remove(k), ..p },
                };
                spec_counter_attack(p2, e)
            }
        },
        CombatAction::Defend => spec_counter_attack(p, e),
        CombatAction::Run => (
            PlayerModel { current_room: prev, ..p },
            e,
            CombatStatus::Fled,
        ),
        CombatAction::Unknown => (p, e, CombatStatus::Ongoing),
    }
}

/// Resolves one combat turn: the player and enemy end exactly at
/// [`spec_combat_turn`] of their old values.
pub fn combat_turn(
    player: &mut Player,
    enemy: &mut Enemy,
    previous_room: &str,
    action: CombatAction,
) -> (r: CombatStatus)
    requires
        old(player).wf(),
        old(enemy).wf(),
        old(player)@.health > 0,
        old(enemy)@.health > 0,
        old(player)@.base_attack + 2 * old(player)@.level <= i32::MAX as int,
        spec_xp_threshold(old(player)@.level) + old(player)@.xp + 5 * old(enemy)@.attack
            <= crate::player::MAX_XP_POOL as int,
        old(player)@.base_attack + crate::player::MAX_CASCADE_ATTACK as int <= i32::MAX as int,
        old(player)@.max_health + crate::items::MAX_ITEM_POWER as int <= i32::MAX as int,
    ensures
        final(player).wf(),
        (final(player)@, final(enemy)@, r) == spec_combat_turn(
            old(player)@,
            old(enemy)@,
            previous_room@,
            action,
        ),
{
    match action {
        CombatAction::Attack => {
            let dmg = player.attack_damage();
            enemy.health = enemy.health - dmg;
            if enemy.health <= 0 {
                let gain = enemy.attack * 5;
                player.add_xp(gain);
                proof {
                    assert(player@ =~~= with_level_state(
                        old(player)@,
                        settle_xp(
                            LevelState {
                                xp: old(player)@.xp + 5 * old(enemy)@.attack,
                                ..old(player)@.level_state()
                            },
                        ),
                    ));
                }
                CombatStatus::Won
            } else {
                player.health = player.health - enemy.attack;
                if player.health <= 0 {
                    CombatStatus::Lost
                } else {
                    CombatStatus::Ongoing
                }
            }
        },
        CombatAction::Heal => {
            let ghost p0 = player@;
            proof {
                crate::items::lemma_healing_index(p0.inventory);
            }
            let mut k: usize = 0;
            let n = player.inventory.len();
            let mut found: Option<usize> = None;
            while k < n
                invariant
                    0 <= k <= n,
                    player@ == p0,
                    n == player.inventory.len(),
                    match found {
                        Some(f) => {
                            &&& f < n
                            &&& f as int == crate::items::spec_healing_index(p0.inventory)
                        },
                        None => forall|j: int|
                            0 <= j < k ==> !((#[trigger] p0.inventory[j]).item_type is Healing),
                    },
                    found is Some ==> k == n,
                decreases n - k,
            {
                proof {
                    assert(p0.inventory[k as int] == player.inventory[k as int]@);
                }
                if matches!(player.inventory[k].item_type, ItemType::Healing) {
                    proof {
                        crate::items::lemma_healing_index_first(p0.inventory, k as int);
                    }
                    found = Some(k);
                    k = n;
                } else {
                    k = k + 1;
                }
            }
            match found {
                Some(f) => {
                    proof {
                        assert(p0.inventory[f as int] == player.inventory[f as int]@);
                        assert(p0.inventory[f as int].wf());
                    }
                    let power = player.inventory[f].power;
                    player.inventory.remove(f);
                    match power {
                        Some(pw) => {
                            let healed = player.health + pw;
                            player.health = if healed < player.max_health {
                                healed
                            } else {
                                player.max_health
                            };
                            proof {
                                crate::items::lemma_items_remove_wf(p0.inventory, f as int);
                                assert(player@ =~~= (PlayerModel {
                                    health: vstd::math::min(p0.health + pw as int, p0.max_health),
                                    inventory: p0.inventory.remove(f as int),
                                    ..p0
                                }));
                            }
                        },
                        None => {
                            proof {
                                crate::items::lemma_items_remove_wf(p0.inventory, f as int);
                                assert(player@ =~~= (PlayerModel {
                                    inventory: p0.inventory.remove(f as int),
                                    ..p0
                                }));
                            }
                        },
                    }
                },
                None => {
                    proof {
                        crate::items::lemma_healing_index(p0.inventory);
                    }
                },
            }
            player.health = player.health - enemy.attack;
            if player.health <= 0 {
                CombatStatus::Lost
            } else {
                CombatStatus::Ongoing
            }
        },
        CombatAction::Defend => {
            player.health = player.health - enemy.attack;
            if player.health <= 0 {
                CombatStatus::Lost
            } else {
                CombatStatus::Ongoing
            }
        },
        CombatAction::Run => {
            player.current_room = previous_room.to_owned();
            proof {
                assert(player@ =~~= (PlayerModel {
                    current_room: previous_room@,
                    ..old(player)@
                }));
            }
            CombatStatus::Fled
        },
        CombatAction::Unknown => CombatStatus::Ongoing,
    }
}

} // verus!
