//! The player character: attributes, experience levelling, inventory.
use vstd::prelude::*;
use crate::items::{Item, ItemModel};

verus! {

/// The player. Strings are free-form; the numeric fields obey
/// [`Player::wf`], which every operation of the library preserves.
#[derive(Clone, Debug)]
pub struct Player {
    pub name: String,
    pub health: i32,
    pub max_health: i32,
    pub mana: i32,
    pub max_mana: i32,
    pub xp: i32,
    pub level: i32,
    pub base_attack: i32,
    pub current_room: String,
    pub inventory: Vec<Item>,
    pub flags: Vec<String>,
    pub current_level: usize,
}

/// Mathematical image of a [`Player`].
#[verifier::ext_equal]
pub struct PlayerModel {
    pub name: Seq<char>,
    pub health: int,
    pub max_health: int,
    pub mana: int,
    pub max_mana: int,
    pub xp: int,
    pub level: int,
    pub base_attack: int,
    pub current_room: Seq<char>,
    pub inventory: Seq<ItemModel>,
    pub flags: Seq<Seq<char>>,
    pub current_level: int,
}

impl View for Player {
    type V = PlayerModel;

    open spec fn view(&self) -> PlayerModel {
        PlayerModel {
            name: self.name@,
            health: self.health as int,
            max_health: self.max_health as int,
            mana: self.mana as int,
            max_mana: self.max_mana as int,
            xp: self.xp as int,
            level: self.level as int,
            base_attack: self.base_attack as int,
            current_room: self.current_room@,
            inventory: self.inventory.deep_view(),
            flags: self.flags.deep_view(),
            current_level: self.current_level as int,
        }
    }
}

/// The six numbers the levelling machinery touches, as unbounded integers.
/// [`settle_xp`] is stated over this so that contracts about experience are
/// independent of machine-word concerns.
#[verifier::ext_equal]
pub struct LevelState {
    pub level: int,
    pub xp: int,
    pub health: int,
    pub max_health: int,
    pub mana: int,
    pub max_mana: int,
    pub base_attack: int,
}

impl PlayerModel {
    /// The levelling-relevant slice of the player.
    pub open spec fn level_state(&self) -> LevelState {
        LevelState {
            level: self.level,
            xp: self.xp,
            health: self.health,
            max_health: self.max_health,
            mana: self.mana,
            max_mana: self.max_mana,
            base_attack: self.base_attack,
        }
    }
}

/// Experience needed to go from `level` to the next one.
pub open spec fn spec_xp_threshold(level: int) -> int {
    50 * level
}

/// One level-up: the maxima grow by 20 health / 10 mana, attack by 3, and
/// current health and mana are fully restored to the new maxima.
pub open spec fn level_up_step(s: LevelState) -> LevelState {
    LevelState {
        level: s.level + 1,
        xp: s.xp,
        health: s.max_health + 20,
        max_health: s.max_health + 20,
        mana: s.max_mana + 10,
        max_mana: s.max_mana + 10,
        base_attack: s.base_attack + 3,
    }
}

/// Repeatedly consumes the threshold and levels up while enough experience
/// remains; this is what an experience award settles to, cascading over as
/// many level-ups as the award pays for.
pub open spec fn settle_xp(s: LevelState) -> LevelState
    decreases (if s.xp >= 0 { s.xp } else { 0 }),
{
    if s.level >= 1 && s.xp >= spec_xp_threshold(s.level) {
        settle_xp(
            LevelState {
                xp: s.xp - spec_xp_threshold(s.level),
                ..level_up_step(s)
            },
        )
    } else {
        s
    }
}

/// Cap on an experience award plus the experience already banked (see
/// [`Player::add_xp`]); keeps the cascade inside `i32`.
pub const MAX_XP_POOL: i32 = 1_500_000_000;

/// The most attack one experience award can grant: one award pays for at
/// most `MAX_XP_POOL / 50` level-ups of three attack points each.
pub const MAX_CASCADE_ATTACK: i32 = 90_000_000;

impl Player {
    /// Shape every library operation preserves: at least level 1, banked
    /// experience strictly below the next threshold, health within
    /// `[-MAX_ITEM_POWER..max_health]`, maxima growing at most with the
    /// level, a non-negative attack value, and well-formed inventory
    /// items.
    pub open spec fn wf(&self) -> bool {
        &&& 1 <= self@.level
        &&& 0 <= self@.xp < spec_xp_threshold(self@.level)
        &&& -(crate::items::MAX_ITEM_POWER as int) <= self@.health <= self@.max_health
        &&& 1 <= self@.max_health <= 20 * self@.level + 100
        &&& 0 <= self@.mana <= self@.max_mana
        &&& 1 <= self@.max_mana <= 10 * self@.level + 50
        &&& 0 <= self@.base_attack
        &&& forall|i: int| 0 <= i < self@.inventory.len() ==> (#[trigger] self@.inventory[i]).wf()
    }

    /// A fresh level-1 character standing in the tutorial hall.
    pub fn new() -> (p: Player)
        ensures
            p@.name == "Hero"@,
            p@.health == 100,
            p@.max_health == 100,
            p@.mana == 50,
            p@.max_mana == 50,
            p@.xp == 0,
            p@.level == 1,
            p@.base_attack == 10,
            p@.current_room == "tutorial_hall"@,
            p@.inventory == Seq::<ItemModel>::empty(),
            p@.flags == Seq::<Seq<char>>::empty(),
            p@.current_level == 0,
            p.wf(),
    {
        let p = Player {
            name: String::from_str("Hero"),
            health: 100,
            max_health: 100,
            mana: 50,
            max_mana: 50,
            xp: 0,
            level: 1,
            base_attack: 10,
            current_room: String::from_str("tutorial_hall"),
            inventory: Vec::new(),
            flags: Vec::new(),
            current_level: 0,
        };
        p
    }

    /// Experience needed to reach the next level: fifty times the level.
    pub fn xp_to_next_level(&self) -> (r: i32)
        requires
            1 <= self@.level,
            spec_xp_threshold(self@.level) <= i32::MAX as int,
        ensures
            r as int == spec_xp_threshold(self@.level),
    {
        50 * self.level
    }

    /// Banks an experience award and performs every level-up it pays for.
    /// The levelling fields end exactly at [`settle_xp`] of the old fields
    /// with the award added; nothing else about the player changes.
    pub fn add_xp(&mut self, amount: i32)
        requires
            old(self).wf(),
            0 <= amount,
            spec_xp_threshold(old(self)@.level) + old(self)@.xp + amount <= MAX_XP_POOL as int,
            old(self)@.base_attack + MAX_CASCADE_ATTACK as int <= i32::MAX as int,
        ensures
            final(self).wf(),
            final(self)@.level_state() == settle_xp(
                LevelState { xp: old(self)@.xp + amount, ..old(self)@.level_state() },
            ),
            final(self)@.name == old(self)@.name,
            final(self)@.current_room == old(self)@.current_room,
            final(self)@.inventory == old(self)@.inventory,
            final(self)@.flags == old(self)@.flags,
            final(self)@.current_level == old(self)@.current_level,
    {
        self.xp = self.xp + amount;
        let ghost start = LevelState { xp: old(self)@.xp + amount, ..old(self)@.level_state() };
        let ghost pool = spec_xp_threshold(old(self)@.level) + old(self)@.xp + amount;
        while self.xp >= 50 * self.level
            invariant
                1 <= self@.level,
                0 <= self@.xp,
                spec_xp_threshold(self@.level) + self@.xp <= pool <= MAX_XP_POOL as int,
                1 <= self@.max_health <= 20 * self@.level + 100,
                1 <= self@.max_mana <= 10 * self@.level + 50,
                0 <= self@.base_attack,
                self@.base_attack <= old(self)@.base_attack + 3 * (self@.level - old(
                    self,
                )@.level),
                old(self)@.base_attack + MAX_CASCADE_ATTACK as int <= i32::MAX as int,
                1 <= old(self)@.level,
                -(crate::items::MAX_ITEM_POWER as int) <= self@.health <= self@.max_health,
                0 <= self@.mana <= self@.max_mana,
                settle_xp(self@.level_state()) == settle_xp(start),
                self@.name == old(self)@.name,
                self@.current_room == old(self)@.current_room,
                self@.inventory == old(self)@.inventory,
                self@.flags == old(self)@.flags,
                self@.current_level == old(self)@.current_level,
            decreases self@.xp,
        {
            let ghost before = self@.level_state();
            self.xp = self.xp - 50 * self.level;
            self.level_up();
            proof {
                assert(self@.level_state() == LevelState {
                    xp: before.xp - spec_xp_threshold(before.level),
                    ..level_up_step(before)
                });
            }
        }
    }

    /// One level-up: maxima +20 health / +10 mana, attack +3, health and
    /// mana restored to the new maxima. The banked experience is untouched.
    pub fn level_up(&mut self)
        requires
            1 <= old(self)@.level,
            old(self)@.max_health + 20 <= i32::MAX as int,
            old(self)@.max_mana + 10 <= i32::MAX as int,
            old(self)@.base_attack + 3 <= i32::MAX as int,
            old(self)@.level + 1 <= i32::MAX as int,
        ensures
            final(self)@.level_state() == level_up_step(old(self)@.level_state()),
            final(self)@.name == old(self)@.name,
            final(self)@.current_room == old(self)@.current_room,
            final(self)@.inventory == old(self)@.inventory,
            final(self)@.flags == old(self)@.flags,
            final(self)@.current_level == old(self)@.current_level,
    {
        self.level = self.level + 1;
        self.max_health = self.max_health + 20;
        self.max_mana = self.max_mana + 10;
        self.base_attack = self.base_attack + 3;
        self.health = self.max_health;
        self.mana = self.max_mana;
    }

    /// Damage one player attack deals: base attack plus twice the level.
    pub fn attack_damage(&self) -> (r: i32)
        requires
            self.wf(),
            self@.base_attack + 2 * self@.level <= i32::MAX as int,
        ensures
            r as int == self@.base_attack + 2 * self@.level,
    {
        self.base_attack + self.level * 2
    }

    /// Restores `amount` health, clamped so health never exceeds the
    /// maximum.
    pub fn heal(&mut self, amount: i32)
        requires
            old(self).wf(),
            0 <= amount,
            old(self)@.health + amount <= i32::MAX as int,
        ensures
            final(self).wf(),
            final(self)@.health == vstd::math::min(
                old(self)@.health + amount,
                old(self)@.max_health,
            ),
            final(self)@ == (PlayerModel { health: final(self)@.health, ..old(self)@ }),
    {
        let healed = self.health + amount;
        self.health = if healed < self.max_health {
            healed
        } else {
            self.max_health
        };
    }

    /// Index of the first inventory item whose name matches `name`
    /// ignoring ASCII case, or `None` if the player owns no such item.
    pub fn find_item(&self, name: &str) -> (r: Option<usize>)
        ensures
            match r {
                Some(i) => i < self.inventory.len() && i as int == crate::items::spec_item_index(
                    self@.inventory,
                    name@,
                ),
                None => crate::items::spec_item_index(self@.inventory, name@) < 0,
            },
    {
        proof {
            crate::items::lemma_item_index(self@.inventory, name@);
        }
        let mut i: usize = 0;
        while i < self.inventory.len()
            invariant
                0 <= i <= self.inventory.len(),
                self@.inventory.len() == self.inventory.len(),
                forall|j: int|
                    0 <= j < i ==> !crate::text::ci_eq(
                        (#[trigger] self@.inventory[j]).name,
                        name@,
                    ),
            decreases self.inventory.len() - i,
        {
            proof {
                assert(self@.inventory[i as int] == self.inventory[i as int]@);
            }
            if crate::text::str_ci_eq(self.inventory[i].name.as_str(), name) {
                proof {
                    crate::items::lemma_item_index_first(self@.inventory, name@, i as int);
                }
                return Some(i);
            }
            i = i + 1;
        }
        None
    }

    /// Whether the progression flag `flag` has been set on this character.
    pub fn has_flag(&self, flag: &str) -> (r: bool)
        ensures
            r == crate::text::seq_has_str(self@.flags, flag@),
    {
        let mut i: usize = 0;
        while i < self.flags.len()
            invariant
                0 <= i <= self.flags.len(),
                self@.flags.len() == self.flags.len(),
                forall|j: int| 0 <= j < i ==> self@.flags[j] != flag@,
            decreases self.flags.len() - i,
        {
            proof {
                assert(self@.flags[i as int] == self.flags[i as int]@);
            }
            if crate::text::str_eq(self.flags[i].as_str(), flag) {
                return true;
            }
            i = i + 1;
        }
        false
    }

    /// Runtime check deciding exactly [`Player::wf`].
    pub fn check_wf(&self) -> (r: bool)
        ensures
            r == self.wf(),
    {
        let numbers_ok = 1 <= self.level && 0 <= self.xp
            && (self.xp as i64) < 50 * (self.level as i64)
            && -crate::items::MAX_ITEM_POWER <= self.health && self.health <= self.max_health
            && 1 <= self.max_health
            && (self.max_health as i64) <= 20 * (self.level as i64) + 100 && 0 <= self.mana
            && self.mana <= self.max_mana && 1 <= self.max_mana
            && (self.max_mana as i64) <= 10 * (self.level as i64) + 50 && 0 <= self.base_attack;
        if !numbers_ok {
            return false;
        }
        let mut i: usize = 0;
        while i < self.inventory.len()
            invariant
                0 <= i <= self.inventory.len(),
                self@.inventory.len() == self.inventory.len(),
                forall|j: int| 0 <= j < i ==> (#[trigger] self@.inventory[j]).wf(),
            decreases self.inventory.len() - i,
        {
            let ok = self.inventory[i].check_wf();
            proof {
                assert(self@.inventory[i as int] == self.inventory[i as int]@);
            }
            if !ok {
                return false;
            }
            i = i + 1;
        }
        true
    }
}

} // verus!
