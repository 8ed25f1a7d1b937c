//! The world graph: rooms, exits, their items and enemies, and the
//! operations the player performs on them — moving, taking and using items.
use vstd::prelude::*;
use crate::items::{Item, ItemModel, ItemType};
use crate::player::{Player, PlayerModel};
use crate::text::{ci_eq, seq_has_str};

verus! {

/// One exit of a room: a direction name and the destination room id.
#[derive(Clone, Debug)]
pub struct Exit {
    pub direction: String,
    pub to: String,
}

/// Mathematical image of an [`Exit`].
#[verifier::ext_equal]
pub struct ExitModel {
    pub direction: Seq<char>,
    pub to: Seq<char>,
}

impl View for Exit {
    type V = ExitModel;

    open spec fn view(&self) -> ExitModel {
        ExitModel { direction: self.direction@, to: self.to@ }
    }
}

impl DeepView for Exit {
    type V = ExitModel;

    open spec fn deep_view(&self) -> ExitModel {
        self.view()
    }
}

/// A room: its id doubles as the display title; the exits are ordered by
/// insertion; `enemy` names a catalog template and is present only while
/// that enemy is undefeated.
#[derive(Clone, Debug)]
pub struct Room {
    pub id: String,
    pub description: String,
    pub items: Vec<Item>,
    pub exits: Vec<Exit>,
    pub enemy: Option<String>,
}

/// Mathematical image of a [`Room`].
#[verifier::ext_equal]
pub struct RoomModel {
    pub id: Seq<char>,
    pub description: Seq<char>,
    pub items: Seq<ItemModel>,
    pub exits: Seq<ExitModel>,
    pub enemy: Option<Seq<char>>,
}

impl View for Room {
    type V = RoomModel;

    open spec fn view(&self) -> RoomModel {
        RoomModel {
            id: self.id@,
            description: self.description@,
            items: self.items.deep_view(),
            exits: self.exits.deep_view(),
            enemy: match self.enemy {
                Some(ref e) => Some(e@),
                None => None,
            },
        }
    }
}

impl DeepView for Room {
    type V = RoomModel;

    open spec fn deep_view(&self) -> RoomModel {
        self.view()
    }
}

/// The world: the room graph of the active level plus the set of room ids
/// already cleared. Replaced wholesale on a level transition.
#[derive(Clone, Debug)]
pub struct World {
    pub rooms: Vec<Room>,
    pub cleared_rooms: Vec<String>,
}

/// Mathematical image of a [`World`].
#[verifier::ext_equal]
pub struct WorldModel {
    pub rooms: Seq<RoomModel>,
    pub cleared: Seq<Seq<char>>,
}

impl View for World {
    type V = WorldModel;

    open spec fn view(&self) -> WorldModel {
        WorldModel { rooms: self.rooms.deep_view(), cleared: self.cleared_rooms.deep_view() }
    }
}

/// Set-like insertion: appends `x` unless it is already present.
pub open spec fn spec_mark_cleared(cleared: Seq<Seq<char>>, x: Seq<char>) -> Seq<Seq<char>> {
    if seq_has_str(cleared, x) {
        cleared
    } else {
        cleared.push(x)
    }
}

/// Index of the first room whose id is exactly `id`, or `-1`.
pub open spec fn spec_room_index(rooms: Seq<RoomModel>, id: Seq<char>) -> int
    decreases rooms.len(),
{
    if rooms.len() == 0 {
        -1
    } else if rooms[0].id == id {
        0
    } else {
        let rest = spec_room_index(rooms.drop_first(), id);
        if rest < 0 {
            -1
        } else {
            rest + 1
        }
    }
}

/// Index of the first exit named exactly `direction`, or `-1`.
pub open spec fn spec_exit_index(exits: Seq<ExitModel>, direction: Seq<char>) -> int
    decreases exits.len(),
{
    if exits.len() == 0 {
        -1
    } else if exits[0].direction == direction {
        0
    } else {
        let rest = spec_exit_index(exits.drop_first(), direction);
        if rest < 0 {
            -1
        } else {
            rest + 1
        }
    }
}

/// Characterisation of [`spec_room_index`]: a non-negative result is the
/// first match, a negative result means no match.
pub proof fn lemma_room_index(rooms: Seq<RoomModel>, id: Seq<char>)
    ensures
        spec_room_index(rooms, id) >= 0 ==> {
            &&& spec_room_index(rooms, id) < rooms.len()
            &&& rooms[spec_room_index(rooms, id)].id == id
            &&& forall|j: int| 0 <= j < spec_room_index(rooms, id) ==> (#[trigger] rooms[j]).id != id
        },
        spec_room_index(rooms, id) < 0 ==> forall|j: int|
            0 <= j < rooms.len() ==> (#[trigger] rooms[j]).id != id,
    decreases rooms.len(),
{
    if rooms.len() > 0 && rooms[0].id != id {
        let rest = rooms.drop_first();
        lemma_room_index(rest, id);
        let k = spec_room_index(rooms, id);
        if k >= 0 {
            assert(rooms[k] == rest[k - 1]);
            assert forall|j: int| 0 <= j < k implies (#[trigger] rooms[j]).id != id by {
                if j >= 1 {
                    assert(rooms[j] == rest[j - 1]);
                }
            }
        } else {
            assert forall|j: int| 0 <= j < rooms.len() implies (#[trigger] rooms[j]).id != id by {
                if j >= 1 {
                    assert(rooms[j] == rest[j - 1]);
                }
            }
        }
    }
}

/// If `i` is a match and nothing before it is, the first-match index is
/// `i`.
pub proof fn lemma_room_index_first(rooms: Seq<RoomModel>, id: Seq<char>, i: int)
    requires
        0 <= i < rooms.len(),
        rooms[i].id == id,
        forall|j: int| 0 <= j < i ==> (#[trigger] rooms[j]).id != id,
    ensures
        spec_room_index(rooms, id) == i,
    decreases rooms.len(),
{
    if i > 0 {
        assert(rooms[0].id != id);
        lemma_room_index_first(rooms.drop_first(), id, i - 1);
        assert(forall|j: int|
            0 <= j < rooms.len() - 1 ==> rooms.drop_first()[j] == #[trigger] rooms[j + 1]);
    }
}

/// Characterisation of [`spec_exit_index`], as for rooms.
pub proof fn lemma_exit_index(exits: Seq<ExitModel>, direction: Seq<char>)
    ensures
        spec_exit_index(exits, direction) >= 0 ==> {
            &&& spec_exit_index(exits, direction) < exits.len()
            &&& exits[spec_exit_index(exits, direction)].direction == direction
        },
        spec_exit_index(exits, direction) < 0 ==> forall|j: int|
            0 <= j < exits.len() ==> (#[trigger] exits[j]).direction != direction,
    decreases exits.len(),
{
    if exits.len() > 0 && exits[0].direction != direction {
        let rest = exits.drop_first();
        lemma_exit_index(rest, direction);
        let k = spec_exit_index(exits, direction);
        if k >= 0 {
            assert(exits[k] == rest[k - 1]);
        } else {
            assert forall|j: int|
                0 <= j < exits.len() implies (#[trigger] exits[j]).direction != direction by {
                if j >= 1 {
                    assert(exits[j] == rest[j - 1]);
                }
            }
        }
    }
}

/// If `i` is a match and nothing before it is, the first-match index is
/// `i`.
pub proof fn lemma_exit_index_first(exits: Seq<ExitModel>, direction: Seq<char>, i: int)
    requires
        0 <= i < exits.len(),
        exits[i].direction == direction,
        forall|j: int| 0 <= j < i ==> (#[trigger] exits[j]).direction != direction,
    ensures
        spec_exit_index(exits, direction) == i,
    decreases exits.len(),
{
    if i > 0 {
        assert(exits[0].direction != direction);
        lemma_exit_index_first(exits.drop_first(), direction, i - 1);
        assert(forall|j: int|
            0 <= j < exits.len() - 1 ==> exits.drop_first()[j] == #[trigger] exits[j + 1]);
    }
}

impl World {
    /// A world the game operations accept: room ids are pairwise distinct,
    /// every item in every room is well-formed, and the cleared list holds
    /// no duplicates.
    pub open spec fn wf(&self) -> bool {
        &&& forall|i: int, j: int|
            0 <= i < j < self@.rooms.len() ==> (#[trigger] self@.rooms[i]).id != (
            #[trigger] self@.rooms[j]).id
        &&& forall|i: int, k: int|
            0 <= i < self@.rooms.len() && 0 <= k < (#[trigger] self@.rooms[i]).items.len() ==> (
            #[trigger] self@.rooms[i].items[k]).wf()
        &&& forall|i: int, j: int|
            0 <= i < j < self@.cleared.len() ==> self@.cleared[i] != self@.cleared[j]
    }

    /// Index of the room whose id is `id`, or `None` if there is none.
    pub fn find_room(&self, id: &str) -> (r: Option<usize>)
        ensures
            match r {
                Some(i) => i < self.rooms.len() && i as int == spec_room_index(self@.rooms, id@),
                None => spec_room_index(self@.rooms, id@) < 0,
            },
    {
        proof {
            lemma_room_index(self@.rooms, id@);
        }
        let mut i: usize = 0;
        while i < self.rooms.len()
            invariant
                0 <= i <= self.rooms.len(),
                self@.rooms.len() == self.rooms.len(),
                forall|j: int| 0 <= j < i ==> (#[trigger] self@.rooms[j]).id != id@,
            decreases self.rooms.len() - i,
        {
            proof {
                assert(self@.rooms[i as int] == self.rooms[i as int]@);
            }
            if crate::text::str_eq(self.rooms[i].id.as_str(), id) {
                proof {
                    lemma_room_index_first(self@.rooms, id@, i as int);
                }
                return Some(i);
            }
            i = i + 1;
        }
        None
    }

    /// Whether `id` is recorded as cleared.
    pub fn is_cleared(&self, id: &str) -> (r: bool)
        ensures
            r == seq_has_str(self@.cleared, id@),
    {
        let mut i: usize = 0;
        while i < self.cleared_rooms.len()
            invariant
                0 <= i <= self.cleared_rooms.len(),
                self@.cleared.len() == self.cleared_rooms.len(),
                forall|j: int| 0 <= j < i ==> self@.cleared[j] != id@,
            decreases self.cleared_rooms.len() - i,
        {
            proof {
                assert(self@.cleared[i as int] == self.cleared_rooms[i as int]@);
            }
            if crate::text::str_eq(self.cleared_rooms[i].as_str(), id) {
                return true;
            }
            i = i + 1;
        }
        false
    }

    /// Runtime check deciding exactly [`World::wf`].
    pub fn check_wf(&self) -> (r: bool)
        ensures
            r == self.wf(),
    {
        let n = self.rooms.len();
        let mut i: usize = 0;
        while i < n
            invariant
                0 <= i <= n,
                n == self.rooms.len(),
                self@.rooms.len() == self.rooms.len(),
                forall|a: int, b: int|
                    0 <= a < b < self@.rooms.len() && a < i ==> (#[trigger] self@.rooms[a]).id != (
                    #[trigger] self@.rooms[b]).id,
                forall|a: int, k: int|
                    0 <= a < i && 0 <= k < (#[trigger] self@.rooms[a]).items.len() ==> (
                    #[trigger] self@.rooms[a].items[k]).wf(),
            decreases n - i,
        {
            proof {
                assert(self@.rooms[i as int] == self.rooms[i as int]@);
            }
            let mut j: usize = i + 1;
            while j < n
                invariant
                    i < j <= n,
                    n == self.rooms.len(),
                    self@.rooms.len() == self.rooms.len(),
                    forall|b: int|
                        i < b < j ==> self@.rooms[i as int].id != (#[trigger] self@.rooms[b]).id,
                decreases n - j,
            {
                proof {
                    assert(self@.rooms[j as int] == self.rooms[j as int]@);
                }
                if crate::text::str_eq(self.rooms[i].id.as_str(), self.rooms[j].id.as_str()) {
                    return false;
                }
                j = j + 1;
            }
            let nitems = self.rooms[i].items.len();
            let mut k: usize = 0;
            while k < nitems
                invariant
                    0 <= k <= nitems,
                    i < n,
                    n == self.rooms.len(),
                    self@.rooms.len() == self.rooms.len(),
                    nitems == self@.rooms[i as int].items.len(),
                    self@.rooms[i as int] == self.rooms[i as int]@,
                    forall|k2: int|
                        0 <= k2 < k ==> (#[trigger] self@.rooms[i as int].items[k2]).wf(),
                decreases nitems - k,
            {
                proof {
                    assert(self@.rooms[i as int].items[k as int] == self.rooms[i as int].items[
                        k as int
                    ]@);
                }
                if !self.rooms[i].items[k].check_wf() {
                    proof {
                        assert(!(self@.rooms[i as int].items[k as int]).wf());
                        assert(!self.wf());
                    }
                    return false;
                }
                k = k + 1;
            }
            i = i + 1;
        }
        let nc = self.cleared_rooms.len();
        let mut a: usize = 0;
        while a < nc
            invariant
                0 <= a <= nc,
                nc == self.cleared_rooms.len(),
                self@.cleared.len() == self.cleared_rooms.len(),
                self@.rooms.len() == self.rooms.len(),
                forall|x: int, y: int|
                    0 <= x < y < self@.cleared.len() && x < a ==> self@.cleared[x]
                        != self@.cleared[y],
                forall|x: int, y: int|
                    0 <= x < y < self@.rooms.len() ==> (#[trigger] self@.rooms[x]).id != (
                    #[trigger] self@.rooms[y]).id,
                forall|x: int, k: int|
                    0 <= x < self@.rooms.len() && 0 <= k < (#[trigger] self@.rooms[x]).items.len()
                        ==> (#[trigger] self@.rooms[x].items[k]).wf(),
            decreases nc - a,
        {
            proof {
                assert(self@.cleared[a as int] == self.cleared_rooms[a as int]@);
            }
            let mut b: usize = a + 1;
            while b < nc
                invariant
                    a < b <= nc,
                    nc == self.cleared_rooms.len(),
                    self@.cleared.len() == self.cleared_rooms.len(),
                    forall|y: int| a < y < b ==> self@.cleared[a as int] != self@.cleared[y],
                decreases nc - b,
            {
                proof {
                    assert(self@.cleared[a as int] == self.cleared_rooms[a as int]@);
                    assert(self@.cleared[b as int] == self.cleared_rooms[b as int]@);
                }
                if crate::text::str_eq(
                    self.cleared_rooms[a].as_str(),
                    self.cleared_rooms[b].as_str(),
                ) {
                    return false;
                }
                b = b + 1;
            }
            a = a + 1;
        }
        true
    }

    /// Destination of taking exit `direction` from room `from`, if `from`
    /// exists and has such an exit.
    pub open spec fn spec_move_target(&self, from: Seq<char>, direction: Seq<char>) -> Option<
        Seq<char>,
    > {
        let ri = spec_room_index(self@.rooms, from);
        if ri < 0 {
            None
        } else {
            let ei = spec_exit_index(self@.rooms[ri].exits, direction);
            if ei < 0 {
                None
            } else {
                Some(self@.rooms[ri].exits[ei].to)
            }
        }
    }

    /// Records `id` as cleared; already-cleared ids are not duplicated.
    pub fn mark_cleared(&mut self, id: &str)
        requires
            old(self).wf(),
        ensures
            final(self).wf(),
            final(self)@.cleared == spec_mark_cleared(old(self)@.cleared, id@),
            final(self)@.rooms == old(self)@.rooms,
    {
        if !self.is_cleared(id) {
            let owned: String = id.to_owned();
            self.cleared_rooms.push(owned);
            proof {
                assert(self@.cleared =~= old(self)@.cleared.push(id@));
                assert forall|i: int, j: int|
                    0 <= i < j < self@.cleared.len() implies self@.cleared[i] != self@.cleared[j]
                by {
                    if j == self@.cleared.len() - 1 {
                        assert(!seq_has_str(old(self)@.cleared, id@));
                        assert(old(self)@.cleared[i] == self@.cleared[i]);
                    }
                }
            }
        }
    }
}

/// What there is to see in a room: the title (its id), the description,
/// the item names in order, the exit directions in order, and the lurking
/// enemy's template name if one is there. A pure selection; the caller
/// applies presentation.
pub struct RoomView {
    pub title: String,
    pub description: String,
    pub item_names: Vec<String>,
    pub exit_directions: Vec<String>,
    pub enemy: Option<String>,
}

/// Reads the player's current room for display: `None` exactly when the
/// current room id is not in the world; otherwise every field mirrors the
/// room, in order, with nothing added or dropped. No state changes.
pub fn look(player: &Player, world: &World) -> (r: Option<RoomView>)
    ensures
        match r {
            Some(v) => {
                let ri = spec_room_index(world@.rooms, player@.current_room);
                &&& ri >= 0
                &&& v.title@ == world@.rooms[ri].id
                &&& v.description@ == world@.rooms[ri].description
                &&& v.item_names@.len() == world@.rooms[ri].items.len()
                &&& forall|i: int|
                    0 <= i < v.item_names@.len() ==> (#[trigger] v.item_names.deep_view()[i])
                        == world@.rooms[ri].items[i].name
                &&& v.exit_directions@.len() == world@.rooms[ri].exits.len()
                &&& forall|i: int|
                    0 <= i < v.exit_directions@.len() ==> (
                    #[trigger] v.exit_directions.deep_view()[i]) == world@.rooms[ri].exits[
                        i
                    ].direction
                &&& (match v.enemy {
                    Some(ref ename) => world@.rooms[ri].enemy == Some(ename@),
                    None => world@.rooms[ri].enemy is None,
                })
            },
            None => spec_room_index(world@.rooms, player@.current_room) < 0,
        },
{
    let ri = match world.find_room(player.current_room.as_str()) {
        Some(i) => i,
        None => {
            return None;
        },
    };
    proof {
        assert(world@.rooms[ri as int] == world.rooms[ri as int]@);
    }
    let room = &world.rooms[ri];
    let mut item_names: Vec<String> = Vec::new();
    let mut i: usize = 0;
    let n_items = room.items.len();
    while i < n_items
        invariant
            0 <= i <= n_items,
            ri < world.rooms.len(),
            world@.rooms.len() == world.rooms.len(),
            world@.rooms[ri as int] == world.rooms[ri as int]@,
            room == &world.rooms[ri as int],
            n_items == world@.rooms[ri as int].items.len(),
            item_names@.len() == i,
            forall|j: int|
                0 <= j < i ==> (#[trigger] item_names.deep_view()[j]) == world@.rooms[
                    ri as int
                ].items[j].name,
        decreases n_items - i,
    {
        proof {
            assert(world@.rooms[ri as int].items[i as int] == world.rooms[ri as int].items[
                i as int
            ]@);
        }
        let ghost dv0 = item_names.deep_view();
        proof {
            assert(forall|j: int|
                0 <= j < i ==> (#[trigger] dv0[j]) == world@.rooms[ri as int].items[j].name);
        }
        item_names.push(room.items[i].name.clone());
        proof {
            assert(forall|j: int|
                0 <= j < i ==> (#[trigger] item_names.deep_view()[j]) == dv0[j]);
            assert(item_names.deep_view()[i as int] == world@.rooms[ri as int].items[
                i as int
            ].name);
        }
        i = i + 1;
    }
    let mut exit_directions: Vec<String> = Vec::new();
    let mut e: usize = 0;
    let n_exits = room.exits.len();
    while e < n_exits
        invariant
            0 <= e <= n_exits,
            ri < world.rooms.len(),
            world@.rooms.len() == world.rooms.len(),
            world@.rooms[ri as int] == world.rooms[ri as int]@,
            room == &world.rooms[ri as int],
            n_exits == world@.rooms[ri as int].exits.len(),
            exit_directions@.len() == e,
            forall|j: int|
                0 <= j < e ==> (#[trigger] exit_directions.deep_view()[j]) == world@.rooms[
                    ri as int
                ].exits[j].direction,
        decreases n_exits - e,
    {
        proof {
            assert(world@.rooms[ri as int].exits[e as int] == world.rooms[ri as int].exits[
                e as int
            ]@);
        }
        let ghost dv0 = exit_directions.deep_view();
        proof {
            assert(forall|j: int|
                0 <= j < e ==> (#[trigger] dv0[j]) == world@.rooms[ri as int].exits[j].direction);
        }
        exit_directions.push(room.exits[e].direction.clone());
        proof {
            assert(forall|j: int|
                0 <= j < e ==> (#[trigger] exit_directions.deep_view()[j]) == dv0[j]);
            assert(exit_directions.deep_view()[e as int] == world@.rooms[ri as int].exits[
                e as int
            ].direction);
        }
        e = e + 1;
    }
    let enemy: Option<String> = match &room.enemy {
        Some(name) => Some(name.clone()),
        None => None,
    };
    Some(
        RoomView {
            title: room.id.clone(),
            description: room.description.clone(),
            item_names,
            exit_directions,
            enemy,
        },
    )
}

/// Result of a movement attempt. On success the destination room's live
/// enemy, if any, is handed back so the caller can start an encounter.
pub enum MoveOutcome {
    /// The current room has no exit with the requested name; nothing
    /// changed.
    NoExit,
    /// The player was relocated; `enemy` names the template standing in the
    /// destination room, if one is there.
    Moved { enemy: Option<String> },
}

/// Relocates the player along the exit named `direction` of the current
/// room. The player's room changes exactly when that exit exists; on
/// failure everything is untouched. The world is never modified; defeating
/// the reported enemy is settled separately (see
/// [`mark_enemy_defeated`](World::mark_enemy_defeated)).
pub fn move_player(direction: &str, player: &mut Player, world: &World) -> (r: MoveOutcome)
    ensures
        match world.spec_move_target(old(player)@.current_room, direction@) {
            Some(target) => {
                &&& final(player)@ == (PlayerModel { current_room: target, ..old(player)@ })
                &&& match r {
                    MoveOutcome::Moved { enemy } => {
                        let di = spec_room_index(world@.rooms, target);
                        match enemy {
                            Some(e) => di >= 0 && world@.rooms[di].enemy == Some(e@),
                            None => di < 0 || world@.rooms[di].enemy is None,
                        }
                    },
                    MoveOutcome::NoExit => false,
                }
            },
            None => final(player)@ == old(player)@ && r is NoExit,
        },
        old(player).wf() ==> final(player).wf(),
{
    let ri = match world.find_room(player.current_room.as_str()) {
        Some(i) => i,
        None => {
            return MoveOutcome::NoExit;
        },
    };
    proof {
        lemma_exit_index(world@.rooms[ri as int].exits, direction@);
    }
    let exits = &world.rooms[ri].exits;
    let mut e: usize = 0;
    let nexits = exits.len();
    while e < nexits
        invariant
            0 <= e <= nexits,
            nexits == exits.len(),
            exits == &world.rooms[ri as int].exits,
            player@ == old(player)@,
            ri as int == spec_room_index(world@.rooms, old(player)@.current_room),
            ri < world.rooms.len(),
            world@.rooms.len() == world.rooms.len(),
            world@.rooms[ri as int] == world.rooms[ri as int]@,
            forall|j: int|
                0 <= j < e ==> (#[trigger] world@.rooms[ri as int].exits[j]).direction
                    != direction@,
        decreases nexits - e,
    {
        proof {
            assert(world@.rooms[ri as int].exits[e as int] == exits[e as int]@);
        }
        if crate::text::str_eq(exits[e].direction.as_str(), direction) {
            proof {
                lemma_exit_index_first(world@.rooms[ri as int].exits, direction@, e as int);
            }
            let target: String = exits[e].to.clone();
            player.current_room = target;
            proof {
                assert(player@ =~= (PlayerModel {
                    current_room: world@.rooms[ri as int].exits[e as int].to,
                    ..old(player)@
                }));
            }
            let ghost target_seq = world@.rooms[ri as int].exits[e as int].to;
            let enemy: Option<String> = match world.find_room(player.current_room.as_str()) {
                Some(di) => {
                    proof {
                        assert(di as int == spec_room_index(world@.rooms, target_seq));
                        assert(world@.rooms[di as int] == world.rooms[di as int]@);
                    }
                    match &world.rooms[di].enemy {
                        Some(name) => Some(name.clone()),
                        None => None,
                    }
                },
                None => None,
            };
            proof {
                let di = spec_room_index(world@.rooms, target_seq);
                assert(match enemy {
                    Some(e2) => di >= 0 && world@.rooms[di].enemy == Some(e2@),
                    None => di < 0 || world@.rooms[di].enemy is None,
                });
                assert(world.spec_move_target(old(player)@.current_room, direction@) == Some(
                    target_seq,
                ));
                assert(player@ == (PlayerModel { current_room: target_seq, ..old(player)@ }));
            }
            return MoveOutcome::Moved { enemy };
        }
        e = e + 1;
    }
    MoveOutcome::NoExit
}

/// Result of a take attempt.
#[derive(Clone, Copy, PartialEq, Eq, Structural, Debug)]
pub enum TakeOutcome {
    /// The item moved from the room into the inventory.
    Taken,
    /// No item of that name lies in the current room (or the room id is
    /// unknown); nothing changed.
    NotHere,
    /// The current room forbids taking items; nothing changed.
    Blocked,
}

/// The state after taking `name` in the current room, together with the
/// outcome: the first case-insensitive match moves from the room's item
/// list to the end of the inventory and the room is marked cleared; in the
/// sanctum, or with no match, nothing changes.
pub open spec fn spec_take_item(p: PlayerModel, w: WorldModel, name: Seq<char>) -> (
    PlayerModel,
    WorldModel,
    TakeOutcome,
) {
    if ci_eq(p.current_room, "sanctum"@) {
        (p, w, TakeOutcome::Blocked)
    } else {
        let ri = spec_room_index(w.rooms, p.current_room);
        if ri < 0 {
            (p, w, TakeOutcome::NotHere)
        } else {
            let room = w.rooms[ri];
            let ii = crate::items::spec_item_index(room.items, name);
            if ii < 0 {
                (p, w, TakeOutcome::NotHere)
            } else {
                (
                    PlayerModel { inventory: p.inventory.push(room.items[ii]), ..p },
                    WorldModel {
                        rooms: w.rooms.update(
                            ri,
                            RoomModel { items: room.items.remove(ii), ..room },
                        ),
                        cleared: spec_mark_cleared(w.cleared, p.current_room),
                    },
                    TakeOutcome::Taken,
                )
            }
        }
    }
}

/// Picks the named item up from the current room: it leaves the room's
/// list, joins the end of the inventory, and the room is recorded as
/// cleared — exactly once, and only when a case-insensitive match is
/// there and the room permits taking.
pub fn take_item(item_name: &str, player: &mut Player, world: &mut World) -> (r: TakeOutcome)
    requires
        old(player).wf(),
        old(world).wf(),
    ensures
        final(player).wf(),
        final(world).wf(),
        (final(player)@, final(world)@, r) == spec_take_item(
            old(player)@,
            old(world)@,
            item_name@,
        ),
{
    if crate::text::str_ci_eq(player.current_room.as_str(), "sanctum") {
        return TakeOutcome::Blocked;
    }
    let ri = match world.find_room(player.current_room.as_str()) {
        Some(i) => i,
        None => {
            return TakeOutcome::NotHere;
        },
    };
    proof {
        crate::items::lemma_item_index(world@.rooms[ri as int].items, item_name@);
        assert(world@.rooms[ri as int] == world.rooms[ri as int]@);
    }
    let nitems = world.rooms[ri].items.len();
    let mut k: usize = 0;
    while k < nitems
        invariant
            0 <= k <= nitems,
            player@ == old(player)@,
            world@ == old(world)@,
            player.wf(),
            world.wf(),
            !ci_eq(old(player)@.current_room, "sanctum"@),
            ri < world.rooms.len(),
            ri as int == spec_room_index(world@.rooms, old(player)@.current_room),
            world@.rooms.len() == world.rooms.len(),
            nitems == world.rooms[ri as int].items.len(),
            world@.rooms[ri as int] == world.rooms[ri as int]@,
            world@.rooms[ri as int].items.len() == nitems,
            forall|j: int|
                0 <= j < k ==> !ci_eq((#[trigger] world@.rooms[ri as int].items[j]).name, item_name@),
        decreases nitems - k,
    {
        proof {
            assert(world@.rooms[ri as int].items[k as int] == world.rooms[ri as int].items[k as int]@);
        }
        if crate::text::str_ci_eq(world.rooms[ri].items[k].name.as_str(), item_name) {
            proof {
                crate::items::lemma_item_index_first(
                    world@.rooms[ri as int].items,
                    item_name@,
                    k as int,
                );
            }
            let ghost w0 = world@;
            let ghost p0 = player@;
            let mut room = world.rooms.remove(ri);
            let item = room.items.remove(k);
            world.rooms.insert(ri, room);
            proof {
                assert(world@.rooms =~~= w0.rooms.update(
                    ri as int,
                    RoomModel {
                        items: w0.rooms[ri as int].items.remove(k as int),
                        ..w0.rooms[ri as int]
                    },
                ));
                assert forall|i: int|
                    0 <= i < world@.rooms.len() implies (#[trigger] world@.rooms[i]).id
                    == w0.rooms[i].id by {}
                assert forall|i: int, j: int|
                    0 <= i < world@.rooms.len() && 0 <= j < (
                    #[trigger] world@.rooms[i]).items.len() implies (
                    #[trigger] world@.rooms[i].items[j]).wf() by {
                    if i == ri as int {
                        assert(world@.rooms[i].items == w0.rooms[i].items.remove(k as int));
                    }
                }
            }
            proof {
                assert forall|i: int, j: int|
                    0 <= i < j < world@.cleared.len() implies world@.cleared[i]
                    != world@.cleared[j] by {
                    assert(world@.cleared == w0.cleared);
                }
                assert(world.wf());
            }
            player.inventory.push(item);
            world.mark_cleared(player.current_room.as_str());
            proof {
                assert(item@ == w0.rooms[ri as int].items[k as int]);
                assert(player@ =~~= (PlayerModel {
                    inventory: p0.inventory.push(w0.rooms[ri as int].items[k as int]),
                    ..p0
                }));
                assert forall|j: int|
                    0 <= j < player@.inventory.len() implies (
                    #[trigger] player@.inventory[j]).wf() by {
                    if j == player@.inventory.len() - 1 {
                        assert(player@.inventory[j] == w0.rooms[ri as int].items[k as int]);
                    } else {
                        assert(player@.inventory[j] == p0.inventory[j]);
                    }
                }
            }
            return TakeOutcome::Taken;
        }
        k = k + 1;
    }
    TakeOutcome::NotHere
}

/// Result of a use attempt. Presentation (messages, actually drawing the
/// map) is the caller's job; the outcome says which effect took place.
#[derive(Clone, Copy, PartialEq, Eq, Structural, Debug)]
pub enum UseOutcome {
    /// No inventory item matches the name; nothing changed.
    NotFound,
    /// A healing item was consumed and health restored (clamped to the
    /// maximum).
    Healed,
    /// A healing item without a power was consumed; health is unchanged.
    HealedNoEffect,
    /// A weapon was consumed and its bonus added to the base attack.
    Equipped,
    /// A weapon without a power was consumed; attack is unchanged.
    EquippedNoEffect,
    /// A quest item was used in its required room: it was consumed, the
    /// room marked cleared, and the next progression flag set. The level
    /// is complete.
    QuestCompleted,
    /// A quest item was used elsewhere than its required room; it stays in
    /// the inventory and nothing changed.
    QuestWrongRoom,
    /// A quest item without a required room cannot be used directly;
    /// nothing changed.
    QuestInert,
    /// A utility item named "map": the caller should draw the map.
    UtilityMap,
    /// A utility item named "water flask": flavour only.
    UtilityFlask,
    /// Any other utility item: flavour only.
    UtilityPlain,
}

/// The milestone flags in progression order; a quest item completes the
/// first of these that is not yet set.
pub open spec fn next_completed_flag(flags: Seq<Seq<char>>) -> Option<Seq<char>> {
    if !seq_has_str(flags, "tutorial_completed"@) {
        Some("tutorial_completed"@)
    } else if !seq_has_str(flags, "level1_completed"@) {
        Some("level1_completed"@)
    } else if !seq_has_str(flags, "level2_completed"@) {
        Some("level2_completed"@)
    } else {
        None
    }
}

/// The state after using `name` from the inventory, together with the
/// outcome. The first case-insensitive match is dispatched on its variant:
/// healing and weapon items are consumed and adjust health or attack;
/// a quest item used in its `usable_on` room is consumed, marks the room
/// cleared and sets the next unset progression flag, and anywhere else
/// does nothing; utility items are never consumed.
pub open spec fn spec_use_item(p: PlayerModel, w: WorldModel, name: Seq<char>) -> (
    PlayerModel,
    WorldModel,
    UseOutcome,
) {
    let k = crate::items::spec_item_index(p.inventory, name);
    if k < 0 {
        (p, w, UseOutcome::NotFound)
    } else {
        let item = p.inventory[k];
        match item.item_type {
            ItemType::Healing => match item.power {
                Some(pw) => (
                    PlayerModel {
                        health: vstd::math::min(p.health + pw, p.max_health),
                        inventory: p.inventory.remove(k),
                        ..p
                    },
                    w,
                    UseOutcome::Healed,
                ),
                None => (
                    PlayerModel { inventory: p.inventory.remove(k), ..p },
                    w,
                    UseOutcome::HealedNoEffect,
                ),
            },
            ItemType::Weapon => match item.power {
                Some(pw) => (
                    PlayerModel {
                        base_attack: p.base_attack + pw,
                        inventory: p.inventory.remove(k),
                        ..p
                    },
                    w,
                    UseOutcome::Equipped,
                ),
                None => (
                    PlayerModel { inventory: p.inventory.remove(k), ..p },
                    w,
                    UseOutcome::EquippedNoEffect,
                ),
            },
            ItemType::Quest => match item.usable_on {
                None => (p, w, UseOutcome::QuestInert),
                Some(target) => if target == p.current_room {
                    (
                        PlayerModel {
                            inventory: p.inventory.remove(k),
                            flags: match next_completed_flag(p.flags) {
                                Some(f) => p.flags.push(f),
                                None => p.flags,
                            },
                            ..p
                        },
                        WorldModel {
                            cleared: spec_mark_cleared(w.cleared, p.current_room),
                            ..w
                        },
                        UseOutcome::QuestCompleted,
                    )
                } else {
                    (p, w, UseOutcome::QuestWrongRoom)
                },
            },
            ItemType::Utility => (
                p,
                w,
                if ci_eq(item.name, "map"@) {
                    UseOutcome::UtilityMap
                } else if ci_eq(item.name, "water flask"@) {
                    UseOutcome::UtilityFlask
                } else {
                    UseOutcome::UtilityPlain
                },
            ),
        }
    }
}

/// Uses the first inventory item matching `name` (case-insensitively):
/// the player and world end exactly at [`spec_use_item`] of their old
/// values. Returning [`UseOutcome::QuestCompleted`] is the signal that
/// this use completed the level.
pub fn use_item(item_name: &str, player: &mut Player, world: &mut World) -> (r: UseOutcome)
    requires
        old(player).wf(),
        old(world).wf(),
        old(player)@.max_health + crate::items::MAX_ITEM_POWER as int <= i32::MAX as int,
        old(player)@.base_attack + crate::items::MAX_ITEM_POWER as int <= i32::MAX as int,
    ensures
        final(player).wf(),
        final(world).wf(),
        (final(player)@, final(world)@, r) == spec_use_item(old(player)@, old(world)@, item_name@),
{
    let k = match player.find_item(item_name) {
        Some(k) => k,
        None => {
            return UseOutcome::NotFound;
        },
    };
    let ghost p0 = player@;
    let ghost w0 = world@;
    let ghost item_m = p0.inventory[k as int];
    proof {
        assert(player@.inventory[k as int] == player.inventory[k as int]@);
        assert(item_m.wf());
    }
    match player.inventory[k].item_type {
        ItemType::Healing => {
            let power = player.inventory[k].power;
            player.inventory.remove(k);
            match power {
                Some(pw) => {
                    let healed = player.health + pw;
                    player.health = if healed < player.max_health {
                        healed
                    } else {
                        player.max_health
                    };
                    proof {
                        crate::items::lemma_items_remove_wf(p0.inventory, k as int);
                        assert(player@ =~~= (PlayerModel {
                            health: vstd::math::min(p0.health + pw as int, p0.max_health),
                            inventory: p0.inventory.remove(k as int),
                            ..p0
                        }));
                    }
                    UseOutcome::Healed
                },
                None => {
                    proof {
                        crate::items::lemma_items_remove_wf(p0.inventory, k as int);
                        assert(player@ =~~= (PlayerModel {
                            inventory: p0.inventory.remove(k as int),
                            ..p0
                        }));
                    }
                    UseOutcome::HealedNoEffect
                },
            }
        },
        ItemType::Weapon => {
            let power = player.inventory[k].power;
            player.inventory.remove(k);
            match power {
                Some(pw) => {
                    player.base_attack = player.base_attack + pw;
                    proof {
                        crate::items::lemma_items_remove_wf(p0.inventory, k as int);
                        assert(player@ =~~= (PlayerModel {
                            base_attack: p0.base_attack + pw as int,
                            inventory: p0.inventory.remove(k as int),
                            ..p0
                        }));
                    }
                    UseOutcome::Equipped
                },
                None => {
                    proof {
                        crate::items::lemma_items_remove_wf(p0.inventory, k as int);
                        assert(player@ =~~= (PlayerModel {
                            inventory: p0.inventory.remove(k as int),
                            ..p0
                        }));
                    }
                    UseOutcome::EquippedNoEffect
                },
            }
        },
        ItemType::Quest => {
            let in_place = match &player.inventory[k].usable_on {
                Some(target) => crate::text::str_eq(
                    target.as_str(),
                    player.current_room.as_str(),
                ),
                None => {
                    return UseOutcome::QuestInert;
                },
            };
            if !in_place {
                return UseOutcome::QuestWrongRoom;
            }
            player.inventory.remove(k);
            if !player.has_flag("tutorial_completed") {
                player.flags.push(String::from_str("tutorial_completed"));
                proof {
                    assert(player@.flags =~~= p0.flags.push("tutorial_completed"@));
                }
            } else if !player.has_flag("level1_completed") {
                player.flags.push(String::from_str("level1_completed"));
                proof {
                    assert(player@.flags =~~= p0.flags.push("level1_completed"@));
                }
            } else if !player.has_flag("level2_completed") {
                player.flags.push(String::from_str("level2_completed"));
                proof {
                    assert(player@.flags =~~= p0.flags.push("level2_completed"@));
                }
            }
            world.mark_cleared(player.current_room.as_str());
            proof {
                crate::items::lemma_items_remove_wf(p0.inventory, k as int);
                assert(player@ =~~= (PlayerModel {
                    inventory: p0.inventory.remove(k as int),
                    flags: match next_completed_flag(p0.flags) {
                        Some(f) => p0.flags.push(f),
                        None => p0.flags,
                    },
                    ..p0
                }));
                assert(world@ =~~= (WorldModel {
                    cleared: spec_mark_cleared(w0.cleared, p0.current_room),
                    ..w0
                }));
            }
            UseOutcome::QuestCompleted
        },
        ItemType::Utility => {
            if crate::text::str_ci_eq(player.inventory[k].name.as_str(), "map") {
                UseOutcome::UtilityMap
            } else if crate::text::str_ci_eq(player.inventory[k].name.as_str(), "water flask") {
                UseOutcome::UtilityFlask
            } else {
                UseOutcome::UtilityPlain
            }
        },
    }
}

/// State of the world after an enemy's defeat in room `room_id`: the
/// room's enemy field is emptied and the room recorded as cleared; an
/// unknown room id changes nothing.
pub open spec fn spec_mark_enemy_defeated(w: WorldModel, room_id: Seq<char>) -> WorldModel {
    let ri = spec_room_index(w.rooms, room_id);
    if ri < 0 {
        w
    } else {
        WorldModel {
            rooms: w.rooms.update(ri, RoomModel { enemy: None, ..w.rooms[ri] }),
            cleared: spec_mark_cleared(w.cleared, room_id),
        }
    }
}

impl World {
    /// Settles a won encounter: empties the enemy field of `room_id` and
    /// records the room as cleared. This happens exactly once per enemy:
    /// the field is gone afterwards, so the room cannot host the fight
    /// again.
    pub fn mark_enemy_defeated(&mut self, room_id: &str)
        requires
            old(self).wf(),
        ensures
            final(self).wf(),
            final(self)@ == spec_mark_enemy_defeated(old(self)@, room_id@),
    {
        let ghost w0 = self@;
        let ri = match self.find_room(room_id) {
            Some(i) => i,
            None => {
                return ;
            },
        };
        let mut room = self.rooms.remove(ri);
        room.enemy = None;
        self.rooms.insert(ri, room);
        proof {
            assert(self@.rooms =~~= w0.rooms.update(
                ri as int,
                RoomModel { enemy: None, ..w0.rooms[ri as int] },
            ));
            assert forall|i: int|
                0 <= i < self@.rooms.len() implies (#[trigger] self@.rooms[i]).id == w0.rooms[i].id
            by {}
            assert forall|i: int, j: int|
                0 <= i < self@.rooms.len() && 0 <= j < (#[trigger] self@.rooms[i]).items.len()
                implies (#[trigger] self@.rooms[i].items[j]).wf() by {
                if i == ri as int {
                    assert(self@.rooms[i].items == w0.rooms[i].items);
                }
            }
            assert forall|i: int, j: int|
                0 <= i < j < self@.cleared.len() implies self@.cleared[i] != self@.cleared[j] by {
                assert(self@.cleared == w0.cleared);
            }
            assert(self.wf());
        }
        self.mark_cleared(room_id);
        proof {
            assert(self@ =~~= spec_mark_enemy_defeated(w0, room_id@));
        }
    }
}

} // verus!
