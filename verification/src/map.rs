//! The map renderer: a breadth-first spatial layout of the room graph and
//! its projection onto a text grid. Purely a view of the world; nothing
//! here mutates game state.
use vstd::prelude::*;
use crate::world::{RoomModel, World, spec_room_index, lemma_room_index, lemma_room_index_first};

verus! {

/// A room id placed on the plane by the layout pass.
pub struct Placed {
    pub id: String,
    pub x: i32,
    pub y: i32,
}

/// Mathematical image of a [`Placed`].
#[verifier::ext_equal]
pub struct PlacedModel {
    pub id: Seq<char>,
    pub x: int,
    pub y: int,
}

impl View for Placed {
    type V = PlacedModel;

    open spec fn view(&self) -> PlacedModel {
        PlacedModel { id: self.id@, x: self.x as int, y: self.y as int }
    }
}

impl DeepView for Placed {
    type V = PlacedModel;

    open spec fn deep_view(&self) -> PlacedModel {
        self.view()
    }
}

/// The unit step a direction name contributes to the layout: the four
/// cardinal names move one cell, anything else stays in place.
pub open spec fn step_of(d: Seq<char>) -> (int, int) {
    if d == "north"@ {
        (0int, -1int)
    } else if d == "south"@ {
        (0int, 1int)
    } else if d == "east"@ {
        (1int, 0int)
    } else if d == "west"@ {
        (-1int, 0int)
    } else {
        (0int, 0int)
    }
}

/// Index of the first placement of `id`, or `-1`.
pub open spec fn spec_placed_index(p: Seq<PlacedModel>, id: Seq<char>) -> int
    decreases p.len(),
{
    if p.len() == 0 {
        -1
    } else if p[0].id == id {
        0
    } else {
        let rest = spec_placed_index(p.drop_first(), id);
        if rest < 0 {
            -1
        } else {
            rest + 1
        }
    }
}

/// Characterisation of [`spec_placed_index`].
pub proof fn lemma_placed_index(p: Seq<PlacedModel>, id: Seq<char>)
    ensures
        spec_placed_index(p, id) >= 0 ==> {
            &&& spec_placed_index(p, id) < p.len()
            &&& p[spec_placed_index(p, id)].id == id
        },
        spec_placed_index(p, id) < 0 ==> forall|j: int|
            0 <= j < p.len() ==> (#[trigger] p[j]).id != id,
    decreases p.len(),
{
    if p.len() > 0 && p[0].id != id {
        let rest = p.drop_first();
        lemma_placed_index(rest, id);
        let k = spec_placed_index(p, id);
        if k >= 0 {
            assert(p[k] == rest[k - 1]);
        } else {
            assert forall|j: int| 0 <= j < p.len() implies (#[trigger] p[j]).id != id by {
                if j >= 1 {
                    assert(p[j] == rest[j - 1]);
                }
            }
        }
    }
}

/// If `i` matches and nothing before it does, the first placement is `i`.
pub proof fn lemma_placed_index_first(p: Seq<PlacedModel>, id: Seq<char>, i: int)
    requires
        0 <= i < p.len(),
        p[i].id == id,
        forall|j: int| 0 <= j < i ==> (#[trigger] p[j]).id != id,
    ensures
        spec_placed_index(p, id) == i,
    decreases p.len(),
{
    if i > 0 {
        assert(p[0].id != id);
        lemma_placed_index_first(p.drop_first(), id, i - 1);
        assert(forall|j: int| 0 <= j < p.len() - 1 ==> p.drop_first()[j] == #[trigger] p[j + 1]);
    }
}

/// Witnesses that entry `k` was first discovered from placed room `j`
/// through its exit `e`: the coordinates are one step (or zero, for a
/// non-cardinal direction) from the parent's, and — this is what makes
/// the discovery breadth-first — no room placed before `j`, and no
/// earlier exit of `j`'s room, reaches `k`'s id. The earliest possible
/// discovery fixes the coordinates; a later path never re-places a room.
pub open spec fn discovery_ok(
    w: Seq<RoomModel>,
    p: Seq<PlacedModel>,
    k: int,
    j: int,
    e: int,
) -> bool {
    let ri = spec_room_index(w, p[j].id);
    &&& 0 <= j < k
    &&& ri >= 0
    &&& 0 <= e < w[ri].exits.len()
    &&& p[k].id == w[ri].exits[e].to
    &&& p[k].x == p[j].x + step_of(w[ri].exits[e].direction).0
    &&& p[k].y == p[j].y + step_of(w[ri].exits[e].direction).1
    &&& forall|j2: int, e2: int|
        (0 <= j2 < j && spec_room_index(w, (#[trigger] p[j2]).id) >= 0 && 0 <= e2 < w[
            spec_room_index(w, p[j2].id)
        ].exits.len()) ==> (#[trigger] w[spec_room_index(w, p[j2].id)].exits[e2]).to != p[k].id
    &&& forall|e2: int| 0 <= e2 < e ==> (#[trigger] w[ri].exits[e2]).to != p[k].id
}

/// Entry `k` was discovered breadth-first from some earlier placement.
pub open spec fn discovered_from(w: Seq<RoomModel>, p: Seq<PlacedModel>, k: int) -> bool {
    exists|j: int, e: int| #![trigger discovery_ok(w, p, k, j, e)] discovery_ok(w, p, k, j, e)
}

/// A breadth-first layout is faithful to `w` and `start`: the start room
/// sits first at the origin, ids are placed at most once, every later
/// entry carries the coordinates of its first possible discovery (see
/// [`discovery_ok`]), and coordinates stay small.
pub open spec fn layout_ok(w: Seq<RoomModel>, start: Seq<char>, p: Seq<PlacedModel>) -> bool {
    &&& p.len() >= 1
    &&& p[0] == (PlacedModel { id: start, x: 0, y: 0 })
    &&& forall|i: int, j: int| 0 <= i < j < p.len() ==> (#[trigger] p[i]).id != (#[trigger] p[j]).id
    &&& forall|k: int| 1 <= k < p.len() ==> discovered_from(w, p, k)
    &&& forall|k: int|
        0 <= k < p.len() ==> -(p.len() as int) <= (#[trigger] p[k]).x <= p.len() && -(
        p.len() as int) <= p[k].y <= p.len()
}

/// Whether some placement carries the id.
pub open spec fn placed_has(p: Seq<PlacedModel>, id: Seq<char>) -> bool {
    exists|k: int| 0 <= k < p.len() && (#[trigger] p[k]).id == id
}

/// Every exit of every placed room has its destination placed too.
pub open spec fn layout_complete(w: Seq<RoomModel>, p: Seq<PlacedModel>) -> bool {
    forall|j: int, e: int|
        (0 <= j < p.len() && spec_room_index(w, (#[trigger] p[j]).id) >= 0 && 0 <= e < w[
            spec_room_index(w, p[j].id)
        ].exits.len()) ==> placed_has(p, (#[trigger] w[spec_room_index(w, p[j].id)].exits[e]).to)
}

/// Sum of the exit counts of all rooms.
pub open spec fn spec_exit_total(rooms: Seq<RoomModel>) -> int
    decreases rooms.len(),
{
    if rooms.len() == 0 {
        0
    } else {
        spec_exit_total(rooms.drop_last()) + rooms.last().exits.len()
    }
}

/// Room bound the layout accepts; together with [`MAX_MAP_EXITS`] it keeps
/// placement counts, grid coordinates and cell indices inside `i32` and
/// `usize` on every platform.
pub const MAX_MAP_ROOMS: usize = 10_000;

/// Per-room exit bound the layout accepts.
pub const MAX_MAP_EXITS: usize = 100;

/// One more than the most placements a layout can create.
pub open spec fn layout_cap(w: Seq<RoomModel>) -> int {
    w.len() + spec_exit_total(w) + 1
}

/// Exit counts sum to something non-negative.
pub proof fn lemma_exit_total_nonneg(rooms: Seq<RoomModel>)
    ensures
        spec_exit_total(rooms) >= 0,
    decreases rooms.len(),
{
    if rooms.len() > 0 {
        lemma_exit_total_nonneg(rooms.drop_last());
    }
}

/// Index of the first placement of `id` at runtime.
fn find_placed(placed: &Vec<Placed>, id: &str) -> (r: Option<usize>)
    ensures
        match r {
            Some(i) => i < placed.len() && i as int == spec_placed_index(placed.deep_view(), id@),
            None => !placed_has(placed.deep_view(), id@),
        },
{
    let mut i: usize = 0;
    while i < placed.len()
        invariant
            0 <= i <= placed.len(),
            placed.deep_view().len() == placed.len(),
            forall|j: int| 0 <= j < i ==> (#[trigger] placed.deep_view()[j]).id != id@,
        decreases placed.len() - i,
    {
        proof {
            assert(placed.deep_view()[i as int] == placed[i as int]@);
        }
        if crate::text::str_eq(placed[i].id.as_str(), id) {
            proof {
                lemma_placed_index_first(placed.deep_view(), id@, i as int);
            }
            return Some(i);
        }
        i = i + 1;
    }
    None
}

/// Lays the rooms reachable from `start` out on the plane, breadth first:
/// the start room sits at the origin and each newly seen exit target is
/// placed one cardinal step from the room it was discovered in (at the
/// same spot for a non-cardinal direction). First placements are final;
/// a room is never re-placed via a later path.
pub fn compute_layout(world: &World, start: &str) -> (r: Vec<Placed>)
    requires
        world.wf(),
        world@.rooms.len() <= MAX_MAP_ROOMS as int,
        forall|i: int|
            0 <= i < world@.rooms.len() ==> (#[trigger] world@.rooms[i]).exits.len()
                <= MAX_MAP_EXITS as int,
    ensures
        layout_ok(world@.rooms, start@, r.deep_view()),
        r@.len() <= layout_cap(world@.rooms),
        r@.len() < layout_cap(world@.rooms) ==> layout_complete(world@.rooms, r.deep_view()),
{
    let nrooms = world.rooms.len();
    let mut cap: usize = nrooms + 1;
    let mut ci: usize = 0;
    while ci < nrooms
        invariant
            0 <= ci <= nrooms,
            nrooms == world@.rooms.len(),
            nrooms <= MAX_MAP_ROOMS as int,
            forall|i: int|
                0 <= i < world@.rooms.len() ==> (#[trigger] world@.rooms[i]).exits.len()
                    <= MAX_MAP_EXITS as int,
            cap as int == world@.rooms.len() + 1 + spec_exit_total(world@.rooms.take(ci as int)),
            cap as int <= world@.rooms.len() + 1 + (MAX_MAP_EXITS as int) * ci,
        decreases nrooms - ci,
    {
        proof {
            assert(world@.rooms[ci as int] == world.rooms[ci as int]@);
            assert(world@.rooms.take(ci as int + 1).drop_last() =~= world@.rooms.take(ci as int));
            assert(world@.rooms.take(ci as int + 1).last() == world@.rooms[ci as int]);
        }
        cap = cap + world.rooms[ci].exits.len();
        ci = ci + 1;
    }
    proof {
        assert(world@.rooms.take(nrooms as int) =~= world@.rooms);
        assert(cap as int == layout_cap(world@.rooms));
        lemma_exit_total_nonneg(world@.rooms);
    }
    let mut placed: Vec<Placed> = Vec::new();
    placed.push(Placed { id: start.to_owned(), x: 0, y: 0 });
    proof {
        assert(placed.deep_view() =~= seq![PlacedModel { id: start@, x: 0, y: 0 }]);
        assert(layout_ok(world@.rooms, start@, placed.deep_view()));
    }
    let mut head: usize = 0;
    let mut skipped: bool = false;
    while head < placed.len()
        invariant
            world.wf(),
            head <= placed.len(),
            1 <= placed.len(),
            placed.deep_view().len() == placed@.len(),
            placed@.len() <= cap,
            cap as int == layout_cap(world@.rooms),
            cap as int <= MAX_MAP_ROOMS as int + 1 + MAX_MAP_EXITS as int * MAX_MAP_ROOMS as int,
            layout_ok(world@.rooms, start@, placed.deep_view()),
            skipped ==> placed@.len() == cap,
            !skipped ==> forall|j: int, e: int|
                (0 <= j < head && spec_room_index(world@.rooms, (#[trigger] placed.deep_view()[j]).id)
                    >= 0 && 0 <= e < world@.rooms[spec_room_index(
                    world@.rooms,
                    placed.deep_view()[j].id,
                )].exits.len()) ==> placed_has(
                    placed.deep_view(),
                    (#[trigger] world@.rooms[spec_room_index(
                        world@.rooms,
                        placed.deep_view()[j].id,
                    )].exits[e]).to,
                ),
        decreases 2 * (cap as int) - head as int - placed@.len() as int,
    {
        let ri_opt = world.find_room(placed[head].id.as_str());
        match ri_opt {
            None => {},
            Some(ri) => {
                proof {
                    assert(world@.rooms[ri as int] == world.rooms[ri as int]@);
                }
                let nexits = world.rooms[ri].exits.len();
                let ghost len0 = placed@.len();
                let mut e: usize = 0;
                while e < nexits
                    invariant
                        world.wf(),
                        head < placed@.len(),
                        placed@.len() >= len0,
                        placed.deep_view().len() == placed@.len(),
                        placed@.len() <= cap,
                        cap as int == layout_cap(world@.rooms),
                        cap as int <= MAX_MAP_ROOMS as int + 1 + MAX_MAP_EXITS as int
                            * MAX_MAP_ROOMS as int,
                        layout_ok(world@.rooms, start@, placed.deep_view()),
                        skipped ==> placed@.len() == cap,
                        ri < world.rooms.len(),
                        world@.rooms.len() == world.rooms.len(),
                        world@.rooms[ri as int] == world.rooms[ri as int]@,
                        ri as int == spec_room_index(
                            world@.rooms,
                            placed.deep_view()[head as int].id,
                        ),
                        0 <= e <= nexits,
                        nexits == world@.rooms[ri as int].exits.len(),
                        !skipped ==> forall|e2: int|
                            0 <= e2 < e ==> placed_has(
                                placed.deep_view(),
                                (#[trigger] world@.rooms[ri as int].exits[e2]).to,
                            ),
                        !skipped ==> forall|j: int, e2: int|
                            (0 <= j < head && spec_room_index(
                                world@.rooms,
                                (#[trigger] placed.deep_view()[j]).id,
                            ) >= 0 && 0 <= e2 < world@.rooms[spec_room_index(
                                world@.rooms,
                                placed.deep_view()[j].id,
                            )].exits.len()) ==> placed_has(
                                placed.deep_view(),
                                (#[trigger] world@.rooms[spec_room_index(
                                    world@.rooms,
                                    placed.deep_view()[j].id,
                                )].exits[e2]).to,
                            ),
                    decreases nexits - e,
                {
                    proof {
                        assert(world@.rooms[ri as int].exits[e as int] == world.rooms[
                            ri as int
                        ].exits[e as int]@);
                    }
                    let ghost p_before = placed.deep_view();
                    let target = &world.rooms[ri].exits[e].to;
                    match find_placed(&placed, target.as_str()) {
                        Some(_) => {
                            proof {
                                crate::map::lemma_placed_index(placed.deep_view(), target@);
                                assert(placed_has(placed.deep_view(), target@));
                            }
                        },
                        None => {
                            if placed.len() < cap {
                                let d = &world.rooms[ri].exits[e].direction;
                                let (dx, dy): (i32, i32) = if crate::text::str_eq(
                                    d.as_str(),
                                    "north",
                                ) {
                                    (0, -1)
                                } else if crate::text::str_eq(d.as_str(), "south") {
                                    (0, 1)
                                } else if crate::text::str_eq(d.as_str(), "east") {
                                    (1, 0)
                                } else if crate::text::str_eq(d.as_str(), "west") {
                                    (-1, 0)
                                } else {
                                    (0, 0)
                                };
                                proof {
                                    assert((dx as int, dy as int) == step_of(d@));
                                    assert(placed.deep_view()[head as int] == placed[
                                        head as int
                                    ]@);
                                    assert(-(placed@.len() as int) <= placed.deep_view()[
                                        head as int
                                    ].x <= placed@.len() as int);
                                    assert(-(placed@.len() as int) <= placed.deep_view()[
                                        head as int
                                    ].y <= placed@.len() as int);
                                }
                                let nx = placed[head].x + dx;
                                let ny = placed[head].y + dy;
                                let entry = Placed { id: target.clone(), x: nx, y: ny };
                                placed.push(entry);
                                proof {
                                    let np = placed.deep_view();
                                    let newk = np.len() - 1;
                                    assert(np =~= p_before.push(
                                        PlacedModel { id: target@, x: nx as int, y: ny as int },
                                    ));
                                    assert(forall|k: int|
                                        0 <= k < p_before.len() ==> np[k] == #[trigger] p_before[k]);
                                    assert(discovery_ok(
                                        world@.rooms,
                                        np,
                                        newk,
                                        head as int,
                                        e as int,
                                    )) by {
                                        assert(np[head as int] == p_before[head as int]);
                                        assert(spec_room_index(world@.rooms, np[head as int].id)
                                            == ri as int);
                                        assert(np[newk].id == world@.rooms[ri as int].exits[
                                            e as int
                                        ].to && np[newk].x == np[head as int].x + step_of(
                                            world@.rooms[ri as int].exits[e as int].direction,
                                        ).0 && np[newk].y == np[head as int].y + step_of(
                                            world@.rooms[ri as int].exits[e as int].direction,
                                        ).1);
                                        assert(!skipped);
                                        assert forall|j2: int, e2: int|
                                            (0 <= j2 < head as int && spec_room_index(
                                                world@.rooms,
                                                (#[trigger] np[j2]).id,
                                            ) >= 0 && 0 <= e2 < world@.rooms[spec_room_index(
                                                world@.rooms,
                                                np[j2].id,
                                            )].exits.len()) implies (#[trigger] world@.rooms[
                                            spec_room_index(world@.rooms, np[j2].id)
                                        ].exits[e2]).to != np[newk].id by {
                                            assert(np[j2] == p_before[j2]);
                                            assert(placed_has(
                                                p_before,
                                                world@.rooms[spec_room_index(
                                                    world@.rooms,
                                                    p_before[j2].id,
                                                )].exits[e2].to,
                                            ));
                                        }
                                        assert forall|e2: int|
                                            0 <= e2 < e implies (#[trigger] world@.rooms[
                                            ri as int
                                        ].exits[e2]).to != np[newk].id by {
                                            assert(placed_has(
                                                p_before,
                                                world@.rooms[ri as int].exits[e2].to,
                                            ));
                                        }
                                    }
                                    assert(discovered_from(world@.rooms, np, newk));
                                    assert forall|k: int| 1 <= k < np.len() implies discovered_from(
                                        world@.rooms,
                                        np,
                                        k,
                                    ) by {
                                        if k < newk {
                                            assert(discovered_from(world@.rooms, p_before, k));
                                            let (j, e2): (int, int) = choose|j: int, e2: int|
                                                discovery_ok(world@.rooms, p_before, k, j, e2);
                                            assert(np[j] == p_before[j] && np[k] == p_before[k]);
                                            assert(discovery_ok(
                                                world@.rooms,
                                                np,
                                                k,
                                                j,
                                                e2,
                                            )) by {
                                                assert forall|j2: int, e22: int|
                                                    (0 <= j2 < j && spec_room_index(
                                                        world@.rooms,
                                                        (#[trigger] np[j2]).id,
                                                    ) >= 0 && 0 <= e22 < world@.rooms[
                                                        spec_room_index(world@.rooms, np[j2].id)
                                                    ].exits.len()) implies (
                                                    #[trigger] world@.rooms[spec_room_index(
                                                        world@.rooms,
                                                        np[j2].id,
                                                    )].exits[e22]).to != np[k].id by {
                                                    assert(np[j2] == p_before[j2]);
                                                }
                                            }
                                            assert(discovered_from(world@.rooms, np, k));
                                        }
                                    }
                                    assert(placed_has(np, target@)) by {
                                        assert(np[newk].id == target@);
                                    }
                                    assert(layout_ok(world@.rooms, start@, np));
                                }
                            } else {
                                skipped = true;
                                proof {
                                    assert(placed@.len() == cap);
                                }
                            }
                        },
                    }
                    proof {
                        if !skipped {
                            assert forall|e2: int|
                                0 <= e2 < e + 1 implies placed_has(
                                placed.deep_view(),
                                (#[trigger] world@.rooms[ri as int].exits[e2]).to,
                            ) by {
                                if e2 < e {
                                    assert(placed_has(
                                        p_before,
                                        world@.rooms[ri as int].exits[e2].to,
                                    ));
                                    let w = choose|k: int|
                                        0 <= k < p_before.len() && (#[trigger] p_before[k]).id
                                            == world@.rooms[ri as int].exits[e2].to;
                                    assert(placed.deep_view()[w] == p_before[w]);
                                }
                            }
                            assert forall|j: int, e2: int|
                                (0 <= j < head && spec_room_index(
                                    world@.rooms,
                                    (#[trigger] placed.deep_view()[j]).id,
                                ) >= 0 && 0 <= e2 < world@.rooms[spec_room_index(
                                    world@.rooms,
                                    placed.deep_view()[j].id,
                                )].exits.len()) implies placed_has(
                                placed.deep_view(),
                                (#[trigger] world@.rooms[spec_room_index(
                                    world@.rooms,
                                    placed.deep_view()[j].id,
                                )].exits[e2]).to,
                            ) by {
                                assert(placed.deep_view()[j] == p_before[j]);
                                assert(placed_has(
                                    p_before,
                                    world@.rooms[spec_room_index(
                                        world@.rooms,
                                        p_before[j].id,
                                    )].exits[e2].to,
                                ));
                                let w = choose|k: int|
                                    0 <= k < p_before.len() && (#[trigger] p_before[k]).id
                                        == world@.rooms[spec_room_index(
                                        world@.rooms,
                                        p_before[j].id,
                                    )].exits[e2].to;
                                assert(placed.deep_view()[w] == p_before[w]);
                            }
                        }
                    }
                    e = e + 1;
                }
            },
        }
        head = head + 1;
        proof {
            if !skipped {
                assert forall|j: int, e2: int|
                    (0 <= j < head && spec_room_index(
                        world@.rooms,
                        (#[trigger] placed.deep_view()[j]).id,
                    ) >= 0 && 0 <= e2 < world@.rooms[spec_room_index(
                        world@.rooms,
                        placed.deep_view()[j].id,
                    )].exits.len()) implies placed_has(
                    placed.deep_view(),
                    (#[trigger] world@.rooms[spec_room_index(
                        world@.rooms,
                        placed.deep_view()[j].id,
                    )].exits[e2]).to,
                ) by {}
            }
        }
    }
    placed
}

/// Smallest x among the placements.
pub open spec fn spec_min_x(p: Seq<PlacedModel>) -> int
    decreases p.len(),
{
    if p.len() <= 1 {
        p[0].x
    } else if p.last().x < spec_min_x(p.drop_last()) {
        p.last().x
    } else {
        spec_min_x(p.drop_last())
    }
}

/// Largest x among the placements.
pub open spec fn spec_max_x(p: Seq<PlacedModel>) -> int
    decreases p.len(),
{
    if p.len() <= 1 {
        p[0].x
    } else if p.last().x > spec_max_x(p.drop_last()) {
        p.last().x
    } else {
        spec_max_x(p.drop_last())
    }
}

/// Smallest y among the placements.
pub open spec fn spec_min_y(p: Seq<PlacedModel>) -> int
    decreases p.len(),
{
    if p.len() <= 1 {
        p[0].y
    } else if p.last().y < spec_min_y(p.drop_last()) {
        p.last().y
    } else {
        spec_min_y(p.drop_last())
    }
}

/// Largest y among the placements.
pub open spec fn spec_max_y(p: Seq<PlacedModel>) -> int
    decreases p.len(),
{
    if p.len() <= 1 {
        p[0].y
    } else if p.last().y > spec_max_y(p.drop_last()) {
        p.last().y
    } else {
        spec_max_y(p.drop_last())
    }
}

/// Length of the longest room id, zero for a world without rooms.
pub open spec fn spec_max_id_len(rooms: Seq<RoomModel>) -> int
    decreases rooms.len(),
{
    if rooms.len() == 0 {
        0
    } else if rooms.last().id.len() > spec_max_id_len(rooms.drop_last()) {
        rooms.last().id.len() as int
    } else {
        spec_max_id_len(rooms.drop_last())
    }
}

/// Width of a map cell: four more than the longest room id of the world,
/// or nine for a world without rooms.
pub open spec fn spec_cell_width(rooms: Seq<RoomModel>) -> int {
    if rooms.len() == 0 {
        9
    } else {
        spec_max_id_len(rooms) + 4
    }
}

/// `s` centred in a field of `w` spaces (left-biased); a string at least
/// as wide as the field stays as it is.
pub open spec fn spec_centered(s: Seq<char>, w: int) -> Seq<char> {
    if s.len() >= w {
        s
    } else {
        let l = (w - s.len()) / 2;
        crate::text::spaces(l as nat) + s + crate::text::spaces((w - s.len() - l) as nat)
    }
}

/// A room's map label: a marker for the player's own room, two spaces for
/// any other, then the id.
pub open spec fn spec_label(id: Seq<char>, current: Seq<char>) -> Seq<char> {
    if id == current {
        "* "@ + id
    } else {
        "  "@ + id
    }
}

/// Index of the first placement sitting on grid cell `(gx, gy)`, or `-1`.
pub open spec fn spec_placed_at(
    p: Seq<PlacedModel>,
    minx: int,
    miny: int,
    gx: int,
    gy: int,
) -> int
    decreases p.len(),
{
    if p.len() == 0 {
        -1
    } else if 2 * (p[0].x - minx) == gx && 2 * (p[0].y - miny) == gy {
        0
    } else {
        let rest = spec_placed_at(p.drop_first(), minx, miny, gx, gy);
        if rest < 0 {
            -1
        } else {
            rest + 1
        }
    }
}

/// Characterisation of [`spec_placed_at`].
pub proof fn lemma_placed_at(p: Seq<PlacedModel>, minx: int, miny: int, gx: int, gy: int)
    ensures
        spec_placed_at(p, minx, miny, gx, gy) >= 0 ==> {
            &&& spec_placed_at(p, minx, miny, gx, gy) < p.len()
            &&& 2 * (p[spec_placed_at(p, minx, miny, gx, gy)].x - minx) == gx
            &&& 2 * (p[spec_placed_at(p, minx, miny, gx, gy)].y - miny) == gy
        },
        spec_placed_at(p, minx, miny, gx, gy) < 0 ==> forall|j: int|
            0 <= j < p.len() ==> !(2 * ((#[trigger] p[j]).x - minx) == gx && 2 * (p[j].y - miny)
                == gy),
    decreases p.len(),
{
    if p.len() > 0 && !(2 * (p[0].x - minx) == gx && 2 * (p[0].y - miny) == gy) {
        let rest = p.drop_first();
        lemma_placed_at(rest, minx, miny, gx, gy);
        let k = spec_placed_at(p, minx, miny, gx, gy);
        if k >= 0 {
            assert(p[k] == rest[k - 1]);
        } else {
            assert forall|j: int|
                0 <= j < p.len() implies !(2 * ((#[trigger] p[j]).x - minx) == gx && 2 * (p[j].y
                - miny) == gy) by {
                if j >= 1 {
                    assert(p[j] == rest[j - 1]);
                }
            }
        }
    }
}

/// If `i` sits on the cell and nothing before it does, the first index is
/// `i`.
pub proof fn lemma_placed_at_first(
    p: Seq<PlacedModel>,
    minx: int,
    miny: int,
    gx: int,
    gy: int,
    i: int,
)
    requires
        0 <= i < p.len(),
        2 * (p[i].x - minx) == gx && 2 * (p[i].y - miny) == gy,
        forall|j: int|
            0 <= j < i ==> !(2 * ((#[trigger] p[j]).x - minx) == gx && 2 * (p[j].y - miny) == gy),
    ensures
        spec_placed_at(p, minx, miny, gx, gy) == i,
    decreases p.len(),
{
    if i > 0 {
        lemma_placed_at_first(p.drop_first(), minx, miny, gx, gy, i - 1);
        assert(forall|j: int| 0 <= j < p.len() - 1 ==> p.drop_first()[j] == #[trigger] p[j + 1]);
    }
}

/// Whether two placed rooms one cardinal step apart are joined by an exit
/// whose connector falls on grid cell `(gx, gy)`.
pub open spec fn spec_link_at(
    w: Seq<RoomModel>,
    p: Seq<PlacedModel>,
    minx: int,
    miny: int,
    gx: int,
    gy: int,
) -> bool {
    exists|j: int, e: int|
        {
            &&& 0 <= j < p.len()
            &&& spec_room_index(w, p[j].id) >= 0
            &&& 0 <= e < w[spec_room_index(w, p[j].id)].exits.len()
            &&& {
                let k = spec_placed_index(
                    p,
                    (#[trigger] w[spec_room_index(w, p[j].id)].exits[e]).to,
                );
                let dx = p[k].x - p[j].x;
                let dy = p[k].y - p[j].y;
                &&& k >= 0
                &&& (dx == 1 && dy == 0) || (dx == -1 && dy == 0) || (dx == 0 && dy == 1) || (dx
                    == 0 && dy == -1)
                &&& gx == 2 * (p[j].x - minx) + dx
                &&& gy == 2 * (p[j].y - miny) + dy
            }
        }
}

/// Content of grid cell `(gx, gy)`: the first room placed there gets its
/// centred label; otherwise a connector glyph if a unit-step link crosses
/// the cell (horizontal on odd columns, vertical elsewhere); otherwise
/// blank.
pub open spec fn spec_cell(
    w: Seq<RoomModel>,
    p: Seq<PlacedModel>,
    current: Seq<char>,
    cw: int,
    minx: int,
    miny: int,
    gx: int,
    gy: int,
) -> Seq<char> {
    let i = spec_placed_at(p, minx, miny, gx, gy);
    if i >= 0 {
        spec_centered(spec_label(p[i].id, current), cw)
    } else if spec_link_at(w, p, minx, miny, gx, gy) {
        if gx % 2 == 1 {
            spec_centered("---"@, cw)
        } else {
            spec_centered("|"@, cw)
        }
    } else {
        crate::text::spaces(cw as nat)
    }
}

/// A rendered row: the cells of row `gy`, columns `0` to `ncols`.
pub open spec fn spec_row(
    w: Seq<RoomModel>,
    p: Seq<PlacedModel>,
    current: Seq<char>,
    cw: int,
    minx: int,
    miny: int,
    gy: int,
    ncols: int,
) -> Seq<char>
    decreases ncols,
{
    if ncols <= 0 {
        Seq::empty()
    } else {
        spec_row(w, p, current, cw, minx, miny, gy, ncols - 1) + spec_cell(
            w,
            p,
            current,
            cw,
            minx,
            miny,
            ncols - 1,
            gy,
        )
    }
}

/// Appends `s` centred in a field of `w` characters.
fn push_centered(out: &mut String, s: &str, w: usize)
    requires
        w <= 100_000,
        s@.len() <= 100_000,
    ensures
        final(out)@ == old(out)@ + spec_centered(s@, w as int),
{
    let n = s.unicode_len();
    if n >= w {
        out.append(s);
        return ;
    }
    let l = (w - n) / 2;
    let r = w - n - l;
    crate::text::push_spaces(out, l);
    out.append(s);
    crate::text::push_spaces(out, r);
    proof {
        assert(out@ =~= old(out)@ + spec_centered(s@, w as int));
    }
}

/// Renders the placed rooms as rows of text: room cells interleaved with
/// connector cells, the player's room marked. Every row is exactly
/// [`spec_row`] of the world and placements.
pub fn render_map(world: &World, placed: &Vec<Placed>, current: &str) -> (r: Vec<String>)
    requires
        world.wf(),
        placed@.len() >= 1,
        placed@.len() <= 1_100_000,
        forall|k: int|
            0 <= k < placed@.len() ==> -1_100_000 <= (#[trigger] placed.deep_view()[k]).x <= 1_100_000
                && -1_100_000 <= placed.deep_view()[k].y <= 1_100_000,
        world@.rooms.len() <= MAX_MAP_ROOMS as int,
        forall|i: int| 0 <= i < world@.rooms.len() ==> (#[trigger] world@.rooms[i]).id.len() <= 1000,
    ensures
        ({
            let p = placed.deep_view();
            let w = world@.rooms;
            let cw = spec_cell_width(w);
            let minx = spec_min_x(p);
            let miny = spec_min_y(p);
            let nrows = 2 * (spec_max_y(p) - miny) + 1;
            let ncols = 2 * (spec_max_x(p) - minx) + 1;
            &&& r@.len() == nrows
            &&& forall|gy: int|
                0 <= gy < nrows ==> (#[trigger] r.deep_view()[gy]) == spec_row(
                    w,
                    p,
                    current@,
                    cw,
                    minx,
                    miny,
                    gy,
                    ncols,
                )
        }),
{
    let ghost p = placed.deep_view();
    let np = placed.len();
    let mut minx: i32 = placed[0].x;
    let mut maxx: i32 = placed[0].x;
    let mut miny: i32 = placed[0].y;
    let mut maxy: i32 = placed[0].y;
    let mut i: usize = 1;
    proof {
        assert(p[0] == placed[0 as int]@);
        assert(p.take(1) =~= seq![p[0]]);
    }
    while i < np
        invariant
            1 <= i <= np,
            np == p.len(),
            p == placed.deep_view(),
            placed@.len() == p.len(),
            minx as int == spec_min_x(p.take(i as int)),
            maxx as int == spec_max_x(p.take(i as int)),
            miny as int == spec_min_y(p.take(i as int)),
            maxy as int == spec_max_y(p.take(i as int)),
        decreases np - i,
    {
        proof {
            assert(p[i as int] == placed[i as int]@);
            assert(p.take(i + 1).drop_last() =~= p.take(i as int));
            assert(p.take(i + 1).last() == p[i as int]);
            assert(p.take(i + 1).len() == i + 1);
        }
        if placed[i].x < minx {
            minx = placed[i].x;
        }
        if placed[i].x > maxx {
            maxx = placed[i].x;
        }
        if placed[i].y < miny {
            miny = placed[i].y;
        }
        if placed[i].y > maxy {
            maxy = placed[i].y;
        }
        i = i + 1;
    }
    proof {
        assert(p.take(np as int) =~= p);
        lemma_min_max_bounds(p);
        assert(-1_100_000 <= spec_min_x(p) <= 1_100_000 && -1_100_000 <= spec_max_x(p) <= 1_100_000
            && -1_100_000 <= spec_min_y(p) <= 1_100_000 && -1_100_000 <= spec_max_y(p) <= 1_100_000) by {
            let kx = choose|k: int| 0 <= k < p.len() && (#[trigger] p[k]).x == spec_min_x(p);
            let kx2 = choose|k: int| 0 <= k < p.len() && (#[trigger] p[k]).x == spec_max_x(p);
            let ky = choose|k: int| 0 <= k < p.len() && (#[trigger] p[k]).y == spec_min_y(p);
            let ky2 = choose|k: int| 0 <= k < p.len() && (#[trigger] p[k]).y == spec_max_y(p);
        }
        assert(spec_min_x(p) <= spec_max_x(p) && spec_min_y(p) <= spec_max_y(p)) by {
            assert(spec_min_x(p) <= p[0].x <= spec_max_x(p));
            assert(spec_min_y(p) <= p[0].y <= spec_max_y(p));
        }
    }
    let nrooms = world.rooms.len();
    let mut maxlen: usize = 0;
    let mut ci: usize = 0;
    while ci < nrooms
        invariant
            0 <= ci <= nrooms,
            nrooms == world@.rooms.len(),
            forall|ii: int|
                0 <= ii < world@.rooms.len() ==> (#[trigger] world@.rooms[ii]).id.len() <= 1000,
            maxlen as int == spec_max_id_len(world@.rooms.take(ci as int)),
            maxlen <= 1000,
        decreases nrooms - ci,
    {
        proof {
            assert(world@.rooms[ci as int] == world.rooms[ci as int]@);
            assert(world@.rooms.take(ci + 1).drop_last() =~= world@.rooms.take(ci as int));
            assert(world@.rooms.take(ci + 1).last() == world@.rooms[ci as int]);
        }
        let idlen = world.rooms[ci].id.unicode_len();
        if idlen > maxlen {
            maxlen = idlen;
        }
        ci = ci + 1;
    }
    let cw: usize = if nrooms == 0 {
        9
    } else {
        maxlen + 4
    };
    proof {
        assert(world@.rooms.take(nrooms as int) =~= world@.rooms);
        assert(cw as int == spec_cell_width(world@.rooms));
    }
    let nrows: usize = (2 * ((maxy as i64) - (miny as i64))) as usize + 1;
    let ncols: usize = (2 * ((maxx as i64) - (minx as i64))) as usize + 1;
    let mut rows: Vec<String> = Vec::new();
    let mut gy: usize = 0;
    while gy < nrows
        invariant
            0 <= gy <= nrows,
            p == placed.deep_view(),
            placed@.len() == p.len(),
            1 <= p.len() <= 1_100_000,
            forall|k: int|
                0 <= k < p.len() ==> -1_100_000 <= (#[trigger] p[k]).x <= 1_100_000 && -1_100_000
                    <= p[k].y <= 1_100_000,
            world.wf(),
            world@.rooms.len() <= MAX_MAP_ROOMS as int,
            minx as int == spec_min_x(p),
            miny as int == spec_min_y(p),
            maxx as int == spec_max_x(p),
            maxy as int == spec_max_y(p),
            spec_min_x(p) <= spec_max_x(p),
            spec_min_y(p) <= spec_max_y(p),
            -1_100_000 <= spec_min_x(p) <= 1_100_000,
            -1_100_000 <= spec_min_y(p) <= 1_100_000,
            -1_100_000 <= spec_max_x(p) <= 1_100_000,
            -1_100_000 <= spec_max_y(p) <= 1_100_000,
            4 <= cw <= 1004,
            cw as int == spec_cell_width(world@.rooms),
            nrows as int == 2 * (spec_max_y(p) - spec_min_y(p)) + 1,
            ncols as int == 2 * (spec_max_x(p) - spec_min_x(p)) + 1,
            nrows <= 5_000_000,
            ncols <= 5_000_000,
            rows@.len() == gy,
            forall|g: int|
                0 <= g < gy ==> (#[trigger] rows.deep_view()[g]) == spec_row(
                    world@.rooms,
                    p,
                    current@,
                    cw as int,
                    minx as int,
                    miny as int,
                    g,
                    ncols as int,
                ),
        decreases nrows - gy,
    {
        let mut row = String::new();
        let mut gx: usize = 0;
        while gx < ncols
            invariant
                0 <= gx <= ncols,
                p == placed.deep_view(),
                placed@.len() == p.len(),
                1 <= p.len() <= 1_100_000,
                forall|k: int|
                    0 <= k < p.len() ==> -1_100_000 <= (#[trigger] p[k]).x <= 1_100_000 && -1_100_000
                        <= p[k].y <= 1_100_000,
                world.wf(),
                world@.rooms.len() <= MAX_MAP_ROOMS as int,
                minx as int == spec_min_x(p),
                miny as int == spec_min_y(p),
                -1_100_000 <= minx <= 1_100_000,
                -1_100_000 <= miny <= 1_100_000,
                nrows <= 5_000_000,
                ncols <= 5_000_000,
                4 <= cw <= 1004,
                cw as int == spec_cell_width(world@.rooms),
                gy < nrows,
                nrows as int == 2 * (spec_max_y(p) - spec_min_y(p)) + 1,
                ncols as int == 2 * (spec_max_x(p) - spec_min_x(p)) + 1,
                row@ == spec_row(
                    world@.rooms,
                    p,
                    current@,
                    cw as int,
                    minx as int,
                    miny as int,
                    gy as int,
                    gx as int,
                ),
            decreases ncols - gx,
        {
            push_cell(&mut row, world, placed, current, cw, minx, miny, gx, gy);
            gx = gx + 1;
        }
        let ghost rdv0 = rows.deep_view();
        let ghost rowv = row@;
        proof {
            assert(forall|g: int|
                0 <= g < gy ==> (#[trigger] rdv0[g]) == spec_row(
                    world@.rooms,
                    p,
                    current@,
                    cw as int,
                    minx as int,
                    miny as int,
                    g,
                    ncols as int,
                ));
            assert(rowv == spec_row(
                world@.rooms,
                p,
                current@,
                cw as int,
                minx as int,
                miny as int,
                gy as int,
                ncols as int,
            ));
        }
        rows.push(row);
        proof {
            assert(rows.deep_view()[gy as int] == rowv);
            assert(forall|g: int| 0 <= g < gy ==> rows.deep_view()[g] == #[trigger] rdv0[g]);
            assert forall|g: int|
                0 <= g < gy + 1 implies (#[trigger] rows.deep_view()[g]) == spec_row(
                world@.rooms,
                p,
                current@,
                cw as int,
                minx as int,
                miny as int,
                g,
                ncols as int,
            ) by {
                if g < gy {
                    assert(rows.deep_view()[g] == rdv0[g]);
                }
            }
        }
        gy = gy + 1;
    }
    rows
}

/// The extrema really bound every placement and are attained.
proof fn lemma_min_max_bounds(p: Seq<PlacedModel>)
    requires
        p.len() >= 1,
    ensures
        forall|k: int|
            0 <= k < p.len() ==> spec_min_x(p) <= (#[trigger] p[k]).x <= spec_max_x(p)
                && spec_min_y(p) <= p[k].y <= spec_max_y(p),
        exists|k: int| 0 <= k < p.len() && (#[trigger] p[k]).x == spec_min_x(p),
        exists|k: int| 0 <= k < p.len() && (#[trigger] p[k]).x == spec_max_x(p),
        exists|k: int| 0 <= k < p.len() && (#[trigger] p[k]).y == spec_min_y(p),
        exists|k: int| 0 <= k < p.len() && (#[trigger] p[k]).y == spec_max_y(p),
    decreases p.len(),
{
    if p.len() == 1 {
        assert(p[0].x == spec_min_x(p));
        assert(p[0].x == spec_max_x(p));
        assert(p[0].y == spec_min_y(p));
        assert(p[0].y == spec_max_y(p));
    } else {
        lemma_min_max_bounds(p.drop_last());
        assert(forall|k: int| 0 <= k < p.len() - 1 ==> p.drop_last()[k] == #[trigger] p[k]);
        assert(p.last() == p[p.len() - 1]);
        assert forall|k: int|
            0 <= k < p.len() implies spec_min_x(p) <= (#[trigger] p[k]).x <= spec_max_x(p)
            && spec_min_y(p) <= p[k].y <= spec_max_y(p) by {
            if k < p.len() - 1 {
                assert(p[k] == p.drop_last()[k]);
            }
        }
    }
}

/// Appends the content of one grid cell, agreeing with [`spec_cell`].
#[verifier::rlimit(100)]
fn push_cell(
    row: &mut String,
    world: &World,
    placed: &Vec<Placed>,
    current: &str,
    cw: usize,
    minx: i32,
    miny: i32,
    gx: usize,
    gy: usize,
)
    requires
        world.wf(),
        1 <= placed@.len() <= 1_100_000,
        forall|k: int|
            0 <= k < placed@.len() ==> -1_100_000 <= (#[trigger] placed.deep_view()[k]).x <= 1_100_000
                && -1_100_000 <= placed.deep_view()[k].y <= 1_100_000,
        -1_100_000 <= minx <= 1_100_000,
        -1_100_000 <= miny <= 1_100_000,
        gx <= 5_000_000,
        gy <= 5_000_000,
        4 <= cw <= 1004,
    ensures
        final(row)@ == old(row)@ + spec_cell(
            world@.rooms,
            placed.deep_view(),
            current@,
            cw as int,
            minx as int,
            miny as int,
            gx as int,
            gy as int,
        ),
{
    let ghost p = placed.deep_view();
    proof {
        lemma_placed_at(p, minx as int, miny as int, gx as int, gy as int);
    }
    // First placement sitting on this cell, if any.
    let np = placed.len();
    let mut t: usize = 0;
    while t < np
        invariant
            0 <= t <= np,
            np == p.len(),
            p == placed.deep_view(),
            placed@.len() == p.len(),
            forall|k: int|
                0 <= k < p.len() ==> -1_100_000 <= (#[trigger] p[k]).x <= 1_100_000 && -1_100_000 <= p[k].y
                    <= 1_100_000,
            -1_100_000 <= minx <= 1_100_000,
            -1_100_000 <= miny <= 1_100_000,
            4 <= cw <= 1004,
            gx <= 5_000_000,
            gy <= 5_000_000,
            row@ == old(row)@,
            forall|j: int|
                0 <= j < t ==> !(2 * ((#[trigger] p[j]).x - minx as int) == gx as int && 2 * (
                p[j].y - miny as int) == gy as int),
        decreases np - t,
    {
        proof {
            assert(p[t as int] == placed[t as int]@);
        }
        let vx = 2 * (placed[t].x as i64 - minx as i64);
        let vy = 2 * (placed[t].y as i64 - miny as i64);
        if vx == gx as i64 && vy == gy as i64 {
            proof {
                assert(2 * (p[t as int].x - minx as int) == gx as int);
                assert(2 * (p[t as int].y - miny as int) == gy as int);
                lemma_placed_at_first(p, minx as int, miny as int, gx as int, gy as int, t as int);
            }
            let mut label = String::new();
            if crate::text::str_eq(placed[t].id.as_str(), current) {
                label.append("* ");
            } else {
                label.append("  ");
            }
            label.append(placed[t].id.as_str());
            proof {
                if p[t as int].id == current@ {
                    assert(label@ =~= spec_label(p[t as int].id, current@));
                } else {
                    assert(label@ =~= spec_label(p[t as int].id, current@));
                }
            }
            if label.as_str().unicode_len() <= 100_000 {
                push_centered(row, label.as_str(), cw);
            } else {
                // Labels beyond the padding width are appended whole, which
                // is what centring does to them as well.
                row.append(label.as_str());
                proof {
                    assert(row@ =~= old(row)@ + spec_centered(label@, cw as int));
                }
            }
            return ;
        }
        t = t + 1;
    }
    // No room here: look for a unit-step link crossing this cell.
    let mut linked: bool = false;
    let mut j: usize = 0;
    while j < np && !linked
        invariant
            0 <= j <= np,
            np == p.len(),
            p == placed.deep_view(),
            placed@.len() == p.len(),
            world.wf(),
            -1_100_000 <= minx <= 1_100_000,
            -1_100_000 <= miny <= 1_100_000,
            forall|k: int|
                0 <= k < p.len() ==> -1_100_000 <= (#[trigger] p[k]).x <= 1_100_000 && -1_100_000 <= p[k].y
                    <= 1_100_000,
            gx <= 5_000_000,
            gy <= 5_000_000,
            row@ == old(row)@,
            linked ==> spec_link_at(
                world@.rooms,
                p,
                minx as int,
                miny as int,
                gx as int,
                gy as int,
            ),
            !linked ==> forall|j2: int, e2: int|
                (0 <= j2 < j && spec_room_index(world@.rooms, (#[trigger] p[j2]).id) >= 0 && 0 <= e2
                    < world@.rooms[spec_room_index(world@.rooms, p[j2].id)].exits.len()) ==> !({
                    let k = spec_placed_index(
                        p,
                        (#[trigger] world@.rooms[spec_room_index(world@.rooms, p[j2].id)].exits[
                            e2
                        ]).to,
                    );
                    let dx = p[k].x - p[j2].x;
                    let dy = p[k].y - p[j2].y;
                    &&& k >= 0
                    &&& (dx == 1 && dy == 0) || (dx == -1 && dy == 0) || (dx == 0 && dy == 1) || (
                    dx == 0 && dy == -1)
                    &&& gx as int == 2 * (p[j2].x - minx as int) + dx
                    &&& gy as int == 2 * (p[j2].y - miny as int) + dy
                }),
        decreases np - j + (if linked { 0int } else { 1int }),
    {
        proof {
            assert(p[j as int] == placed[j as int]@);
        }
        match world.find_room(placed[j].id.as_str()) {
            None => {},
            Some(ri) => {
                proof {
                    assert(world@.rooms[ri as int] == world.rooms[ri as int]@);
                }
                let nexits = world.rooms[ri].exits.len();
                let mut e: usize = 0;
                while e < nexits && !linked
                    invariant
                        0 <= e <= nexits,
                        np == p.len(),
                        p == placed.deep_view(),
                        placed@.len() == p.len(),
                        world.wf(),
                        j < np,
                        -1_100_000 <= minx <= 1_100_000,
                        -1_100_000 <= miny <= 1_100_000,
                        forall|k: int|
                            0 <= k < p.len() ==> -1_100_000 <= (#[trigger] p[k]).x <= 1_100_000
                                && -1_100_000 <= p[k].y <= 1_100_000,
                        gx <= 5_000_000,
                        gy <= 5_000_000,
                        row@ == old(row)@,
                        ri < world.rooms.len(),
                        world@.rooms.len() == world.rooms.len(),
                        world@.rooms[ri as int] == world.rooms[ri as int]@,
                        ri as int == spec_room_index(world@.rooms, p[j as int].id),
                        nexits == world@.rooms[ri as int].exits.len(),
                        linked ==> spec_link_at(
                            world@.rooms,
                            p,
                            minx as int,
                            miny as int,
                            gx as int,
                            gy as int,
                        ),
                        !linked ==> forall|e2: int|
                            0 <= e2 < e ==> !({
                                let k = spec_placed_index(
                                    p,
                                    (#[trigger] world@.rooms[ri as int].exits[e2]).to,
                                );
                                let dx = p[k].x - p[j as int].x;
                                let dy = p[k].y - p[j as int].y;
                                &&& k >= 0
                                &&& (dx == 1 && dy == 0) || (dx == -1 && dy == 0) || (dx == 0 && dy
                                    == 1) || (dx == 0 && dy == -1)
                                &&& gx as int == 2 * (p[j as int].x - minx as int) + dx
                                &&& gy as int == 2 * (p[j as int].y - miny as int) + dy
                            }),
                    decreases nexits - e + (if linked { 0int } else { 1int }),
                {
                    proof {
                        assert(world@.rooms[ri as int].exits[e as int] == world.rooms[
                            ri as int
                        ].exits[e as int]@);
                    }
                    proof {
                        assert(p[j as int] == placed[j as int]@);
                    }
                    match find_placed(placed, world.rooms[ri].exits[e].to.as_str()) {
                        None => {
                            proof {
                                lemma_placed_index(
                                    p,
                                    world@.rooms[ri as int].exits[e as int].to,
                                );
                            }
                        },
                        Some(k) => {
                            proof {
                                assert(p[k as int] == placed[k as int]@);
                            }
                            let dx = placed[k].x as i64 - placed[j].x as i64;
                            let dy = placed[k].y as i64 - placed[j].y as i64;
                            let unit = (dx == 1 && dy == 0) || (dx == -1 && dy == 0) || (dx == 0
                                && dy == 1) || (dx == 0 && dy == -1);
                            let cx = 2 * (placed[j].x as i64 - minx as i64) + dx;
                            let cy = 2 * (placed[j].y as i64 - miny as i64) + dy;
                            if unit && cx == gx as i64 && cy == gy as i64 {
                                linked = true;
                                proof {
                                    let ghost ji = j as int;
                                    let ghost ei = e as int;
                                    let ghost target = world@.rooms[spec_room_index(
                                        world@.rooms,
                                        p[ji].id,
                                    )].exits[ei].to;
                                    assert(0 <= ji < p.len());
                                    assert(spec_room_index(world@.rooms, p[ji].id) == ri as int);
                                    assert(target == world.rooms[ri as int].exits[e as int]@.to);
                                    assert(k as int == spec_placed_index(p, target));
                                    let ghost kk = spec_placed_index(p, target);
                                    assert(p[kk].x - p[ji].x == dx as int);
                                    assert(p[kk].y - p[ji].y == dy as int);
                                    assert(gx as int == 2 * (p[ji].x - minx as int) + (
                                    dx as int));
                                    assert(gy as int == 2 * (p[ji].y - miny as int) + (
                                    dy as int));
                                    assert({
                                        &&& 0 <= ji < p.len()
                                        &&& spec_room_index(world@.rooms, p[ji].id) >= 0
                                        &&& 0 <= ei < world@.rooms[spec_room_index(
                                            world@.rooms,
                                            p[ji].id,
                                        )].exits.len()
                                        &&& {
                                            let kk = spec_placed_index(
                                                p,
                                                world@.rooms[spec_room_index(
                                                    world@.rooms,
                                                    p[ji].id,
                                                )].exits[ei].to,
                                            );
                                            let dxs = p[kk].x - p[ji].x;
                                            let dys = p[kk].y - p[ji].y;
                                            &&& kk >= 0
                                            &&& (dxs == 1 && dys == 0) || (dxs == -1 && dys == 0)
                                                || (dxs == 0 && dys == 1) || (dxs == 0 && dys
                                                == -1)
                                            &&& gx as int == 2 * (p[ji].x - minx as int) + dxs
                                            &&& gy as int == 2 * (p[ji].y - miny as int) + dys
                                        }
                                    });
                                    assert(spec_link_at(
                                        world@.rooms,
                                        p,
                                        minx as int,
                                        miny as int,
                                        gx as int,
                                        gy as int,
                                    ));
                                }
                            }
                        },
                    }
                    e = e + 1;
                }
            },
        }
        j = j + 1;
    }
    if linked {
        proof {
            reveal_strlit("---");
            reveal_strlit("|");
        }
        if gx % 2 == 1 {
            push_centered(row, "---", cw);
        } else {
            push_centered(row, "|", cw);
        }
    } else {
        crate::text::push_spaces(row, cw);
        proof {
            assert(!spec_link_at(world@.rooms, p, minx as int, miny as int, gx as int, gy as int));
        }
    }
}

/// In a two-room world whose only link is one "east" exit, every layout
/// entry is the first room at the origin or the second room one step
/// east.
proof fn lemma_two_room_entry(w: Seq<RoomModel>, p: Seq<PlacedModel>, k: int)
    requires
        w.len() == 2,
        w[0].id != w[1].id,
        w[0].exits.len() == 1,
        w[0].exits[0].direction == "east"@,
        w[0].exits[0].to == w[1].id,
        w[1].exits.len() == 0,
        layout_ok(w, w[0].id, p),
        0 <= k < p.len(),
    ensures
        p[k] == (PlacedModel { id: w[0].id, x: 0, y: 0 }) || p[k] == (PlacedModel {
            id: w[1].id,
            x: 1,
            y: 0,
        }),
    decreases k,
{
    if k > 0 {
        assert(discovered_from(w, p, k));
        let (j, e): (int, int) = choose|j: int, e: int| discovery_ok(w, p, k, j, e);
        lemma_two_room_entry(w, p, j);
        lemma_room_index(w, p[j].id);
        let ri = spec_room_index(w, p[j].id);
        assert(ri == 0 || ri == 1);
        assert(ri == 0);
        assert(e == 0);
        assert(p[j].id == w[0].id);
        if p[j] == (PlacedModel { id: w[1].id, x: 1, y: 0 }) {
            assert(false);
        }
        assert(p[j] == (PlacedModel { id: w[0].id, x: 0, y: 0 }));
        assert(step_of("east"@) == (1int, 0int)) by {
            reveal_strlit("north");
            reveal_strlit("south");
            reveal_strlit("east");
            assert("east"@.len() == 4 && "north"@.len() == 5 && "south"@.len() == 5);
        }
        assert(p[k] == (PlacedModel { id: w[1].id, x: 1, y: 0 }));
    }
}

/// The map of a two-room world joined by a single "east" exit, drawn from
/// the first room: the layout puts the second room exactly one grid step
/// east, and the single rendered row is the first room's marked cell, one
/// horizontal connector, and the second room's cell.
pub fn two_room_east_map(world: &World) -> (r: (Vec<Placed>, Vec<String>))
    requires
        world.wf(),
        world@.rooms.len() == 2,
        world@.rooms[0].exits.len() == 1,
        world@.rooms[0].exits[0].direction == "east"@,
        world@.rooms[0].exits[0].to == world@.rooms[1].id,
        world@.rooms[1].exits.len() == 0,
        world@.rooms[0].id.len() <= 1000,
        world@.rooms[1].id.len() <= 1000,
    ensures
        ({
            let a = world@.rooms[0].id;
            let b = world@.rooms[1].id;
            let cw = spec_cell_width(world@.rooms);
            &&& r.0.deep_view() == seq![
                PlacedModel { id: a, x: 0, y: 0 },
                PlacedModel { id: b, x: 1, y: 0 },
            ]
            &&& r.1@.len() == 1
            &&& r.1.deep_view()[0] == spec_centered("* "@ + a, cw) + spec_centered("---"@, cw)
                + spec_centered("  "@ + b, cw)
        }),
{
    let placed = compute_layout(world, world.rooms[0].id.as_str());
    proof {
        let w = world@.rooms;
        let p = placed.deep_view();
        let a = w[0].id;
        let b = w[1].id;
        assert(w[0] == world.rooms[0 as int]@);
        assert(w[1] == world.rooms[1 as int]@);
        assert(a != b);
        assert forall|k: int| 0 <= k < p.len() implies (#[trigger] p[k]) == (PlacedModel {
            id: a,
            x: 0,
            y: 0,
        }) || p[k] == (PlacedModel { id: b, x: 1, y: 0 }) by {
            lemma_two_room_entry(w, p, k);
        }
        assert(p.len() <= 2) by {
            if p.len() > 2 {
                assert(p[1].id != a && p[2].id != a);
                assert(p[1].id == b && p[2].id == b);
            }
        }
        assert(spec_exit_total(w) == 1) by {
            assert(w.drop_last().drop_last() =~= Seq::<RoomModel>::empty());
            assert(w.drop_last() =~= seq![w[0]]);
            assert(w.last() == w[1]);
            assert(w.drop_last().last() == w[0]);
            assert(spec_exit_total(w.drop_last().drop_last()) == 0);
            assert(spec_exit_total(w.drop_last()) == 1);
        }
        assert(p.len() < layout_cap(w));
        assert(layout_complete(w, p));
        assert(spec_room_index(w, p[0].id) == 0) by {
            lemma_room_index_first(w, a, 0);
        }
        assert(placed_has(p, w[spec_room_index(w, p[0].id)].exits[0].to));
        let bk = choose|k: int| 0 <= k < p.len() && (#[trigger] p[k]).id == b;
        assert(bk == 1);
        assert(p.len() == 2);
        assert(p =~~= seq![
            PlacedModel { id: a, x: 0, y: 0 },
            PlacedModel { id: b, x: 1, y: 0 },
        ]);
    }
    let rows = render_map(world, &placed, world.rooms[0].id.as_str());
    proof {
        let w = world@.rooms;
        let p = placed.deep_view();
        let a = w[0].id;
        let b = w[1].id;
        let cw = spec_cell_width(w);
        assert(p.drop_last() =~= seq![p[0]]);
        assert(p.last() == p[1]);
        assert(p[0].x == 0 && p[0].y == 0 && p[1].x == 1 && p[1].y == 0);
        assert(spec_min_x(p.drop_last()) == 0 && spec_max_x(p.drop_last()) == 0 && spec_min_y(
            p.drop_last(),
        ) == 0 && spec_max_y(p.drop_last()) == 0);
        assert(spec_min_x(p) == 0 && spec_max_x(p) == 1 && spec_min_y(p) == 0 && spec_max_y(p)
            == 0);
        assert(rows@.len() == 1);
        // Cell (0, 0): the first room, marked as current.
        assert(spec_placed_at(p, 0, 0, 0, 0) == 0) by {
            lemma_placed_at_first(p, 0, 0, 0, 0, 0);
        }
        assert(spec_cell(w, p, a, cw, 0, 0, 0, 0) == spec_centered("* "@ + a, cw)) by {
            assert(spec_label(p[0].id, a) == "* "@ + a);
        }
        // Cell (1, 0): the connector.
        assert(spec_placed_at(p, 0, 0, 1, 0) < 0) by {
            lemma_placed_at(p, 0, 0, 1, 0);
            if spec_placed_at(p, 0, 0, 1, 0) >= 0 {
                let i = spec_placed_at(p, 0, 0, 1, 0);
                assert(i == 0 || i == 1);
            }
        }
        assert(spec_placed_index(p, b) == 1) by {
            lemma_placed_index_first(p, b, 1);
        }
        assert(spec_link_at(w, p, 0, 0, 1, 0)) by {
            assert({
                &&& 0 <= 0 < p.len()
                &&& spec_room_index(w, p[0].id) >= 0
                &&& 0 <= 0 < w[spec_room_index(w, p[0].id)].exits.len()
                &&& {
                    let k = spec_placed_index(p, w[spec_room_index(w, p[0].id)].exits[0].to);
                    let dx = p[k].x - p[0].x;
                    let dy = p[k].y - p[0].y;
                    &&& k >= 0
                    &&& (dx == 1 && dy == 0) || (dx == -1 && dy == 0) || (dx == 0 && dy == 1) || (
                    dx == 0 && dy == -1)
                    &&& 1int == 2 * (p[0].x - 0) + dx
                    &&& 0int == 2 * (p[0].y - 0) + dy
                }
            });
        }
        assert(spec_cell(w, p, a, cw, 0, 0, 1, 0) == spec_centered("---"@, cw));
        // Cell (2, 0): the second room.
        assert(spec_placed_at(p, 0, 0, 2, 0) == 1) by {
            lemma_placed_at_first(p, 0, 0, 2, 0, 1);
        }
        assert(spec_cell(w, p, a, cw, 0, 0, 2, 0) == spec_centered("  "@ + b, cw)) by {
            assert(spec_label(p[1].id, a) == "  "@ + b);
        }
        // The single row is the three cells in order.
        assert(rows.deep_view()[0] == spec_row(w, p, a, cw, 0, 0, 0, 3));
        assert(spec_row(w, p, a, cw, 0, 0, 0, 0) == Seq::<char>::empty());
        assert(spec_row(w, p, a, cw, 0, 0, 0, 1) == spec_row(w, p, a, cw, 0, 0, 0, 0) + spec_cell(
            w,
            p,
            a,
            cw,
            0,
            0,
            0,
            0,
        ));
        assert(spec_row(w, p, a, cw, 0, 0, 0, 1) =~= spec_centered("* "@ + a, cw));
        assert(spec_row(w, p, a, cw, 0, 0, 0, 2) == spec_row(w, p, a, cw, 0, 0, 0, 1) + spec_cell(
            w,
            p,
            a,
            cw,
            0,
            0,
            1,
            0,
        ));
        assert(spec_row(w, p, a, cw, 0, 0, 0, 3) == spec_row(w, p, a, cw, 0, 0, 0, 2) + spec_cell(
            w,
            p,
            a,
            cw,
            0,
            0,
            2,
            0,
        ));
        assert(spec_row(w, p, a, cw, 0, 0, 0, 3) =~= spec_centered("* "@ + a, cw) + spec_centered(
            "---"@,
            cw,
        ) + spec_centered("  "@ + b, cw));
    }
    (placed, rows)
}

} // verus!
