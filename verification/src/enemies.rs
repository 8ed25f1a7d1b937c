//! Enemy templates and the catalog they are looked up in at encounter time.
use vstd::prelude::*;

verus! {

/// An enemy template, and equally a live enemy instance once cloned out of
/// the catalog for an encounter.
#[derive(Clone, Debug)]
pub struct Enemy {
    pub name: String,
    pub description: String,
    pub health: i32,
    pub attack: i32,
    pub xp_reward: i32,
}

/// Mathematical image of an [`Enemy`].
#[verifier::ext_equal]
pub struct EnemyModel {
    pub name: Seq<char>,
    pub description: Seq<char>,
    pub health: int,
    pub attack: int,
    pub xp_reward: int,
}

impl View for Enemy {
    type V = EnemyModel;

    open spec fn view(&self) -> EnemyModel {
        EnemyModel {
            name: self.name@,
            description: self.description@,
            health: self.health as int,
            attack: self.attack as int,
            xp_reward: self.xp_reward as int,
        }
    }
}

/// Cap on a template's health accepted by the combat engine.
pub const MAX_ENEMY_HEALTH: i32 = 1_000_000_000;

/// Cap on a template's attack accepted by the combat engine; keeps both the
/// counter-attack arithmetic and the `attack * 5` experience award small.
pub const MAX_ENEMY_ATTACK: i32 = 100_000_000;

impl Enemy {
    /// A template the combat engine accepts: bounded non-negative numbers.
    pub open spec fn wf(&self) -> bool {
        &&& 0 <= self@.health <= MAX_ENEMY_HEALTH as int
        &&& 0 <= self@.attack <= MAX_ENEMY_ATTACK as int
    }

    /// Runtime check deciding exactly [`Enemy::wf`].
    pub fn check_wf(&self) -> (r: bool)
        ensures
            r == self.wf(),
    {
        0 <= self.health && self.health <= MAX_ENEMY_HEALTH && 0 <= self.attack
            && self.attack <= MAX_ENEMY_ATTACK
    }

    /// A field-for-field copy, independent of the original.
    pub fn duplicate(&self) -> (r: Enemy)
        ensures
            r@ == self@,
    {
        Enemy {
            name: self.name.clone(),
            description: self.description.clone(),
            health: self.health,
            attack: self.attack,
            xp_reward: self.xp_reward,
        }
    }
}

/// One catalog entry: a template under its lookup name.
pub struct EnemyEntry {
    pub name: String,
    pub enemy: Enemy,
}

/// The enemy catalog: a read-only registry of templates, populated once at
/// startup from the entity-catalog document and consulted on every
/// encounter.
pub struct EnemyData {
    pub enemies: Vec<EnemyEntry>,
}

/// Index of the first entry whose name is exactly `name`, or `-1`.
pub open spec fn spec_entry_index(entries: Seq<EnemyEntry>, name: Seq<char>) -> int
    decreases entries.len(),
{
    if entries.len() == 0 {
        -1
    } else if entries[0].name@ == name {
        0
    } else {
        let rest = spec_entry_index(entries.drop_first(), name);
        if rest < 0 {
            -1
        } else {
            rest + 1
        }
    }
}

/// What `spec_entry_index` points at is a match, everything before it is
/// not, and `-1` means there is no match at all.
pub proof fn lemma_entry_index(entries: Seq<EnemyEntry>, name: Seq<char>)
    ensures
        spec_entry_index(entries, name) >= 0 ==> {
            &&& spec_entry_index(entries, name) < entries.len()
            &&& entries[spec_entry_index(entries, name)].name@ == name
            &&& forall|j: int|
                0 <= j < spec_entry_index(entries, name) ==> (#[trigger] entries[j]).name@ != name
        },
        spec_entry_index(entries, name) < 0 ==> forall|j: int|
            0 <= j < entries.len() ==> (#[trigger] entries[j]).name@ != name,
    decreases entries.len(),
{
    if entries.len() > 0 && entries[0].name@ != name {
        let rest = entries.drop_first();
        lemma_entry_index(rest, name);
        let k = spec_entry_index(entries, name);
        if k >= 0 {
            assert(entries[k] == rest[k - 1]);
            assert forall|j: int| 0 <= j < k implies (#[trigger] entries[j]).name@ != name by {
                if j >= 1 {
                    assert(entries[j] == rest[j - 1]);
                }
            }
        } else {
            assert forall|j: int|
                0 <= j < entries.len() implies (#[trigger] entries[j]).name@ != name by {
                if j >= 1 {
                    assert(entries[j] == rest[j - 1]);
                }
            }
        }
    }
}

impl EnemyData {
    /// Every template in the catalog is acceptable to the combat engine.
    pub open spec fn wf(&self) -> bool {
        forall|i: int| 0 <= i < self.enemies@.len() ==> (#[trigger] self.enemies@[i]).enemy.wf()
    }

    /// An empty catalog.
    pub fn new() -> (r: EnemyData)
        ensures
            r.enemies@.len() == 0,
            r.wf(),
    {
        EnemyData { enemies: Vec::new() }
    }

    /// Adds a template under `name`; later lookups find the first entry, so
    /// an existing name keeps its original template.
    pub fn add(&mut self, name: String, enemy: Enemy)
        requires
            old(self).wf(),
            enemy.wf(),
        ensures
            final(self).wf(),
            final(self).enemies@ == old(self).enemies@.push(
                EnemyEntry { name: name, enemy: enemy },
            ),
    {
        self.enemies.push(EnemyEntry { name, enemy });
    }

    /// Looks a template up by its exact name and hands back an independent
    /// copy, so repeated encounters always start from full template health.
    /// Returns `None` exactly when no entry carries the name.
    pub fn get_enemy_by_name(&self, name: &str) -> (r: Option<Enemy>)
        ensures
            match r {
                Some(e) => {
                    &&& spec_entry_index(self.enemies@, name@) >= 0
                    &&& e@ == self.enemies@[spec_entry_index(self.enemies@, name@)].enemy@
                },
                None => spec_entry_index(self.enemies@, name@) < 0,
            },
            self.wf() && r is Some ==> r.unwrap().wf(),
    {
        proof {
            lemma_entry_index(self.enemies@, name@);
        }
        let mut i: usize = 0;
        while i < self.enemies.len()
            invariant
                0 <= i <= self.enemies.len(),
                forall|j: int| 0 <= j < i ==> (#[trigger] self.enemies@[j]).name@ != name@,
            decreases self.enemies.len() - i,
        {
            if crate::text::str_eq(self.enemies[i].name.as_str(), name) {
                proof {
                    lemma_entry_index_first(self.enemies@, name@, i as int);
                }
                return Some(self.enemies[i].enemy.duplicate());
            }
            i = i + 1;
        }
        None
    }
}

/// If position `i` matches and nothing before it does, the first-match
/// index is `i`.
pub proof fn lemma_entry_index_first(entries: Seq<EnemyEntry>, name: Seq<char>, i: int)
    requires
        0 <= i < entries.len(),
        entries[i].name@ == name,
        forall|j: int| 0 <= j < i ==> (#[trigger] entries[j]).name@ != name,
    ensures
        spec_entry_index(entries, name) == i,
    decreases entries.len(),
{
    if i > 0 {
        assert(entries[0].name@ != name);
        lemma_entry_index_first(entries.drop_first(), name, i - 1);
        assert(forall|j: int|
            0 <= j < entries.len() - 1 ==> entries.drop_first()[j] == #[trigger] entries[j + 1]);
    }
}

} // verus!
