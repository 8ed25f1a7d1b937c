//! World-level progression: an ordered chain of milestone flags decides
//! when the active world is swapped for the next one and where the player
//! reappears. Flags are only ever added, never cleared.
use vstd::prelude::*;
use crate::player::{Player, PlayerModel};
use crate::text::seq_has_str;
use crate::world::World;

verus! {

/// A pending level transition: which "loaded" flag to set, which level to
/// load, and the room the player enters there.
pub struct Transition {
    pub loaded_flag: String,
    pub level_index: usize,
    pub entry_room: String,
}

/// The transition the flags currently call for, if any: each
/// `completed` milestone without its matching `loaded` flag triggers the
/// load of the next world. Checked in story order, so cascading
/// transitions resolve one at a time.
pub open spec fn spec_next_transition(flags: Seq<Seq<char>>) -> Option<(Seq<char>, int, Seq<char>)> {
    if seq_has_str(flags, "tutorial_completed"@) && !seq_has_str(flags, "level1_loaded"@) {
        Some(("level1_loaded"@, 1int, "forest_entrance"@))
    } else if seq_has_str(flags, "level1_completed"@) && !seq_has_str(flags, "level2_loaded"@) {
        Some(("level2_loaded"@, 2int, "desert_edge"@))
    } else if seq_has_str(flags, "level2_completed"@) && !seq_has_str(flags, "sanctum_loaded"@) {
        Some(("sanctum_loaded"@, 3int, "sanctum"@))
    } else {
        None
    }
}

/// The transition the player's flags call for next, or `None` when the
/// progression is settled. The caller loads the corresponding world and
/// hands it to [`apply_transition`]; repeating until `None` drains any
/// cascade.
pub fn next_transition(player: &Player) -> (r: Option<Transition>)
    ensures
        match r {
            Some(t) => {
                &&& spec_next_transition(player@.flags) matches Some(s)
                &&& t.loaded_flag@ == s.0
                &&& t.level_index as int == s.1
                &&& t.entry_room@ == s.2
            },
            None => spec_next_transition(player@.flags) is None,
        },
{
    if player.has_flag("tutorial_completed") && !player.has_flag("level1_loaded") {
        Some(
            Transition {
                loaded_flag: String::from_str("level1_loaded"),
                level_index: 1,
                entry_room: String::from_str("forest_entrance"),
            },
        )
    } else if player.has_flag("level1_completed") && !player.has_flag("level2_loaded") {
        Some(
            Transition {
                loaded_flag: String::from_str("level2_loaded"),
                level_index: 2,
                entry_room: String::from_str("desert_edge"),
            },
        )
    } else if player.has_flag("level2_completed") && !player.has_flag("sanctum_loaded") {
        Some(
            Transition {
                loaded_flag: String::from_str("sanctum_loaded"),
                level_index: 3,
                entry_room: String::from_str("sanctum"),
            },
        )
    } else {
        None
    }
}

/// Performs a level transition: sets the `loaded` flag, replaces the
/// world wholesale by `new_world`, and relocates the player to the entry
/// room of the new level. Everything else about the player — inventory
/// included — is carried across unchanged.
pub fn apply_transition(player: &mut Player, world: &mut World, new_world: World, t: &Transition)
    requires
        old(player).wf(),
        new_world.wf(),
    ensures
        final(player).wf(),
        final(world).wf(),
        final(player)@ == (PlayerModel {
            flags: old(player)@.flags.push(t.loaded_flag@),
            current_room: t.entry_room@,
            current_level: t.level_index as int,
            ..old(player)@
        }),
        final(world)@ == new_world@,
{
    player.flags.push(t.loaded_flag.clone());
    player.current_room = t.entry_room.clone();
    player.current_level = t.level_index;
    *world = new_world;
    proof {
        assert(player@ =~~= (PlayerModel {
            flags: old(player)@.flags.push(t.loaded_flag@),
            current_room: t.entry_room@,
            current_level: t.level_index as int,
            ..old(player)@
        }));
    }
}

/// Banner title for a level, as shown when it is entered.
pub open spec fn spec_level_title(level: int) -> Seq<char> {
    if level == 0 {
        "Tutorial: The Guild Hall"@
    } else if level == 1 {
        "Level 1: The Emerald Forest"@
    } else if level == 2 {
        "Level 2: The Desert Sands"@
    } else if level == 3 {
        "Sanctum of Aether: You Win!"@
    } else {
        "The Realm of Aether"@
    }
}

/// A sequence of `n` `'='` characters.
pub open spec fn eq_marks(n: nat) -> Seq<char>
    decreases n,
{
    if n == 0 {
        Seq::empty()
    } else {
        eq_marks((n - 1) as nat).push('=')
    }
}

/// Appends `n` `'='` characters to `out`.
fn push_eq_marks(out: &mut String, n: usize)
    ensures
        final(out)@ == old(out)@ + eq_marks(n as nat),
{
    let mut i: usize = 0;
    assert(out@ + eq_marks(0) == out@);
    while i < n
        invariant
            0 <= i <= n,
            out@ == old(out)@ + eq_marks(i as nat),
        decreases n - i,
    {
        out.append("=");
        proof {
            reveal_strlit("=");
            assert(eq_marks((i + 1) as nat) == eq_marks(i as nat).push('='));
            assert(out@ =~= old(out)@ + eq_marks((i + 1) as nat));
        }
        i = i + 1;
    }
}

/// The three lines of a transition banner: a frame of `'='` marks around
/// the centred title.
pub fn banner_lines(title: &str) -> (r: Vec<String>)
    requires
        title@.len() <= 100_000,
    ensures
        r@.len() == 3,
        r.deep_view()[0] == seq!['+'] + eq_marks((title@.len() + 8) as nat) + seq!['+'],
        r.deep_view()[1] == seq!['|'] + crate::text::spaces(4) + title@ + crate::text::spaces(4)
            + seq!['|'],
        r.deep_view()[2] == r.deep_view()[0],
{
    proof {
        reveal_strlit("+");
        reveal_strlit("|");
    }
    let mut border = String::new();
    border.append("+");
    let n = title.unicode_len();
    push_eq_marks(&mut border, n + 8);
    border.append("+");
    let mut mid = String::new();
    mid.append("|");
    crate::text::push_spaces(&mut mid, 4);
    mid.append(title);
    crate::text::push_spaces(&mut mid, 4);
    mid.append("|");
    let border2 = border.clone();
    let mut r: Vec<String> = Vec::new();
    let ghost bv = border@;
    let ghost mv = mid@;
    r.push(border);
    r.push(mid);
    r.push(border2);
    proof {
        assert(r.deep_view()[0] == bv);
        assert(r.deep_view()[1] == mv);
        assert(r.deep_view()[2] == bv);
        assert(bv =~= seq!['+'] + eq_marks((title@.len() + 8) as nat) + seq!['+']);
        assert(mv =~= seq!['|'] + crate::text::spaces(4) + title@ + crate::text::spaces(4)
            + seq!['|']);
    }
    r
}

/// The display title of the given level.
pub fn level_title(level: usize) -> (r: String)
    ensures
        r@ == spec_level_title(level as int),
{
    if level == 0 {
        String::from_str("Tutorial: The Guild Hall")
    } else if level == 1 {
        String::from_str("Level 1: The Emerald Forest")
    } else if level == 2 {
        String::from_str("Level 2: The Desert Sands")
    } else if level == 3 {
        String::from_str("Sanctum of Aether: You Win!")
    } else {
        String::from_str("The Realm of Aether")
    }
}

} // verus!
