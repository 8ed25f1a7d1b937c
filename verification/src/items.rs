//! Items: value objects owned by a room or by the player's inventory.
use vstd::prelude::*;

verus! {

/// What an item does when used: restore health, raise attack, advance a
/// quest, or trigger a utility effect (map display, flavour text).
#[derive(Clone, Copy, PartialEq, Eq, Structural, Debug)]
pub enum ItemType {
    Healing,
    Weapon,
    Quest,
    Utility,
}

/// An item. `name` is the lookup key (matched case-insensitively), `power`
/// is the heal amount or attack bonus, `usable_on` is the room a Quest item
/// must be used in to take effect.
#[derive(Clone, Debug)]
pub struct Item {
    pub name: String,
    pub item_type: ItemType,
    pub power: Option<i32>,
    pub usable_on: Option<String>,
}

/// Mathematical image of an [`Item`]: strings become character sequences.
#[verifier::ext_equal]
pub struct ItemModel {
    pub name: Seq<char>,
    pub item_type: ItemType,
    pub power: Option<int>,
    pub usable_on: Option<Seq<char>>,
}

impl View for Item {
    type V = ItemModel;

    open spec fn view(&self) -> ItemModel {
        ItemModel {
            name: self.name@,
            item_type: self.item_type,
            power: match self.power {
                Some(p) => Some(p as int),
                None => None,
            },
            usable_on: match self.usable_on {
                Some(ref r) => Some(r@),
                None => None,
            },
        }
    }
}

/// Index of the first item in `items` whose name equals `name` ignoring
/// ASCII case, or `-1`. "First match by list order" is the lookup rule for
/// both room item lists and the inventory.
pub open spec fn spec_item_index(items: Seq<ItemModel>, name: Seq<char>) -> int
    decreases items.len(),
{
    if items.len() == 0 {
        -1
    } else if crate::text::ci_eq(items[0].name, name) {
        0
    } else {
        let rest = spec_item_index(items.drop_first(), name);
        if rest < 0 {
            -1
        } else {
            rest + 1
        }
    }
}

/// Characterisation of [`spec_item_index`]: a non-negative result is the
/// first case-insensitive match, a negative result means no match.
pub proof fn lemma_item_index(items: Seq<ItemModel>, name: Seq<char>)
    ensures
        spec_item_index(items, name) >= 0 ==> {
            &&& spec_item_index(items, name) < items.len()
            &&& crate::text::ci_eq(items[spec_item_index(items, name)].name, name)
        },
        spec_item_index(items, name) < 0 ==> forall|j: int|
            0 <= j < items.len() ==> !crate::text::ci_eq((#[trigger] items[j]).name, name),
    decreases items.len(),
{
    if items.len() > 0 && !crate::text::ci_eq(items[0].name, name) {
        let rest = items.drop_first();
        lemma_item_index(rest, name);
        let k = spec_item_index(items, name);
        if k >= 0 {
            assert(items[k] == rest[k - 1]);
        } else {
            assert forall|j: int|
                0 <= j < items.len() implies !crate::text::ci_eq(
                (#[trigger] items[j]).name,
                name,
            ) by {
                if j >= 1 {
                    assert(items[j] == rest[j - 1]);
                }
            }
        }
    }
}

/// If `i` is a match and nothing before it is, the first-match index is
/// `i`.
pub proof fn lemma_item_index_first(items: Seq<ItemModel>, name: Seq<char>, i: int)
    requires
        0 <= i < items.len(),
        crate::text::ci_eq(items[i].name, name),
        forall|j: int| 0 <= j < i ==> !crate::text::ci_eq((#[trigger] items[j]).name, name),
    ensures
        spec_item_index(items, name) == i,
    decreases items.len(),
{
    if i > 0 {
        assert(!crate::text::ci_eq(items[0].name, name));
        lemma_item_index_first(items.drop_first(), name, i - 1);
        assert(forall|j: int|
            0 <= j < items.len() - 1 ==> items.drop_first()[j] == #[trigger] items[j + 1]);
    }
}

/// Index of the first item of the Healing variant, or `-1`. In combat,
/// "heal" consumes the first healing item by list order.
pub open spec fn spec_healing_index(items: Seq<ItemModel>) -> int
    decreases items.len(),
{
    if items.len() == 0 {
        -1
    } else if items[0].item_type is Healing {
        0
    } else {
        let rest = spec_healing_index(items.drop_first());
        if rest < 0 {
            -1
        } else {
            rest + 1
        }
    }
}

/// Characterisation of [`spec_healing_index`]: a non-negative result is
/// the first healing item, a negative result means there is none.
pub proof fn lemma_healing_index(items: Seq<ItemModel>)
    ensures
        spec_healing_index(items) >= 0 ==> {
            &&& spec_healing_index(items) < items.len()
            &&& items[spec_healing_index(items)].item_type is Healing
        },
        spec_healing_index(items) < 0 ==> forall|j: int|
            0 <= j < items.len() ==> !((#[trigger] items[j]).item_type is Healing),
    decreases items.len(),
{
    if items.len() > 0 && !(items[0].item_type is Healing) {
        let rest = items.drop_first();
        lemma_healing_index(rest);
        let k = spec_healing_index(items);
        if k >= 0 {
            assert(items[k] == rest[k - 1]);
        } else {
            assert forall|j: int|
                0 <= j < items.len() implies !((#[trigger] items[j]).item_type is Healing) by {
                if j >= 1 {
                    assert(items[j] == rest[j - 1]);
                }
            }
        }
    }
}

/// If `i` is a healing item and nothing before it is, the first-healing
/// index is `i`.
pub proof fn lemma_healing_index_first(items: Seq<ItemModel>, i: int)
    requires
        0 <= i < items.len(),
        items[i].item_type is Healing,
        forall|j: int| 0 <= j < i ==> !((#[trigger] items[j]).item_type is Healing),
    ensures
        spec_healing_index(items) == i,
    decreases items.len(),
{
    if i > 0 {
        assert(!(items[0].item_type is Healing));
        lemma_healing_index_first(items.drop_first(), i - 1);
        assert(forall|j: int|
            0 <= j < items.len() - 1 ==> items.drop_first()[j] == #[trigger] items[j + 1]);
    }
}

/// Dropping one entry keeps every remaining item well-formed.
pub proof fn lemma_items_remove_wf(items: Seq<ItemModel>, k: int)
    requires
        0 <= k < items.len(),
        forall|i: int| 0 <= i < items.len() ==> (#[trigger] items[i]).wf(),
    ensures
        forall|i: int| 0 <= i < items.remove(k).len() ==> (#[trigger] items.remove(k)[i]).wf(),
{
    assert forall|i: int|
        0 <= i < items.remove(k).len() implies (#[trigger] items.remove(k)[i]).wf() by {
        if i < k {
            assert(items.remove(k)[i] == items[i]);
        } else {
            assert(items.remove(k)[i] == items[i + 1]);
        }
    }
}

impl DeepView for Item {
    type V = ItemModel;

    open spec fn deep_view(&self) -> ItemModel {
        self.view()
    }
}

/// Largest magnitude an item's `power` may carry. Keeping powers small keeps
/// every heal and attack-bonus computation inside `i32`.
pub const MAX_ITEM_POWER: i32 = 100_000_000;

impl ItemModel {
    /// An item the game operations accept: its power, if any, is a small
    /// non-negative number, so heals and weapon bonuses cannot overflow.
    pub open spec fn wf(&self) -> bool {
        match self.power {
            Some(p) => 0 <= p <= MAX_ITEM_POWER as int,
            None => true,
        }
    }
}

impl Item {
    /// Well-formedness of the item's mathematical image.
    pub open spec fn wf(&self) -> bool {
        self@.wf()
    }

    /// Runtime check deciding exactly [`Item::wf`].
    pub fn check_wf(&self) -> (r: bool)
        ensures
            r == self.wf(),
    {
        match self.power {
            Some(p) => 0 <= p && p <= MAX_ITEM_POWER,
            None => true,
        }
    }
}

} // verus!
