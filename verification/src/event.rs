use vstd::prelude::*;

use std::collections::VecDeque;

use crate::item::{Axe, Item, ItemStack, ItemTool, use_events};
use crate::position::{Position, TilePos, f32_is_nan};
use crate::tile_object::{
    TileObject, TileObjectIndex, damage_events, destroy_events, fully_grown_tree, tree_stump, wood,
};
use crate::world::{
    World, WorldState, expand_stacks, items_ordered, place_items, sorted_insert_all, tile_pos,
};

verus! {

#[derive(Debug)]
pub enum WorldEvent {
    // Item
    ItemUse { item: Item, target: TileObjectIndex },
    // Tile object
    TileObjectDamage { tile_object: TileObjectIndex, damage: u32 },
    TileObjectDestroy { tile_object: TileObjectIndex },
    TileObjectReplace { tile_object: TileObjectIndex, new_tile_object: TileObject },
    // World items
    ItemDrop { items: Vec<ItemStack>, pos: TilePos },
}

/// Mathematical model of a world event.
pub enum EventView {
    ItemUse { item: Item, target: usize },
    TileObjectDamage { tile_object: usize, damage: u32 },
    TileObjectDestroy { tile_object: usize },
    TileObjectReplace { tile_object: usize, new_tile_object: TileObject },
    ItemDrop { items: Seq<ItemStack>, pos: TilePos },
}

impl View for WorldEvent {
    type V = EventView;

    open spec fn view(&self) -> EventView {
        match self {
            WorldEvent::ItemUse { item, target } => EventView::ItemUse { item: *item, target: target.0 },
            WorldEvent::TileObjectDamage { tile_object, damage } => EventView::TileObjectDamage {
                tile_object: tile_object.0,
                damage: *damage,
            },
            WorldEvent::TileObjectDestroy { tile_object } => EventView::TileObjectDestroy {
                tile_object: tile_object.0,
            },
            WorldEvent::TileObjectReplace { tile_object, new_tile_object } => {
                EventView::TileObjectReplace {
                    tile_object: tile_object.0,
                    new_tile_object: *new_tile_object,
                }
            },
            WorldEvent::ItemDrop { items, pos } => EventView::ItemDrop { items: items@, pos: *pos },
        }
    }
}

pub open spec fn views(events: Seq<WorldEvent>) -> Seq<EventView> {
    events.map_values(|e: WorldEvent| e@)
}

/// The tile an event is about lies in the world. Only an axe looks at the
/// tile it is used on.
pub open spec fn event_valid(e: EventView, w: WorldState) -> bool {
    match e {
        EventView::ItemUse { item, target } => item matches Item::Tool(ItemTool::Axe(_)) ==> target
            < w.tiles.len(),
        EventView::TileObjectDamage { tile_object, .. } => tile_object < w.tiles.len(),
        EventView::TileObjectDestroy { tile_object } => tile_object < w.tiles.len(),
        EventView::TileObjectReplace { tile_object, .. } => tile_object < w.tiles.len(),
        EventView::ItemDrop { .. } => true,
    }
}

pub open spec fn events_valid(events: Seq<EventView>, w: WorldState) -> bool {
    forall|i: int| 0 <= i < events.len() ==> event_valid(#[trigger] events[i], w)
}

/// The world's tile grid is well formed.
pub open spec fn state_wf(w: WorldState) -> bool {
    w.tiles.len() == w.rows * w.cols
}

/// How many landing spots processing `e` draws: one per unit of a dropped item.
pub open spec fn draws(e: EventView) -> nat {
    match e {
        EventView::ItemDrop { items, .. } => expand_stacks(items).len(),
        _ => 0,
    }
}

/// The tile around which each landing spot that `e` draws is chosen.
pub open spec fn drop_tiles(e: EventView) -> Seq<TilePos> {
    match e {
        EventView::ItemDrop { items, pos } => Seq::new(expand_stacks(items).len(), |_i: int| pos),
        _ => seq![],
    }
}

/// A source of landing spots that can always be asked and never gives a
/// spot at a NaN height.
pub open spec fn places_items<F: Fn(TilePos) -> Position>(drop_position: F) -> bool {
    &&& forall|tile: TilePos| call_requires(drop_position, (tile,))
    &&& forall|tile: TilePos, spot: Position|
        call_ensures(drop_position, (tile,), spot) ==> !f32_is_nan(spot.y)
}

/// `spots[i]` is a spot that `drop_position` may give when asked around `tiles[i]`.
pub open spec fn drawn_from<F: Fn(TilePos) -> Position>(
    drop_position: F,
    tiles: Seq<TilePos>,
    spots: Seq<Position>,
) -> bool {
    &&& spots.len() == tiles.len()
    &&& forall|i: int|
        0 <= i < spots.len() ==> call_ensures(drop_position, (tiles[i],), #[trigger] spots[i])
}

/// What processing event `e` does to world `w`, and the events it sets off.
/// A dropped item's `i`-th unit lands at `spots[i]`.
pub open spec fn step(w: WorldState, e: EventView, spots: Seq<Position>) -> (
    WorldState,
    Seq<EventView>,
) {
    match e {
        EventView::ItemUse { item, target } => (w, use_events(item, target, w.tiles)),
        EventView::TileObjectDamage { tile_object, damage } => match w.tiles[tile_object as int] {
            None => (w, seq![]),
            Some(object) => {
                let hit = TileObject {
                    hp: if object.hp >= damage {
                        (object.hp - damage) as u32
                    } else {
                        0
                    },
                    kind: object.kind,
                };
                (
                    WorldState { tiles: w.tiles.update(tile_object as int, Some(hit)), ..w },
                    damage_events(hit, tile_object),
                )
            },
        },
        EventView::TileObjectDestroy { tile_object } => match w.tiles[tile_object as int] {
            None => (w, seq![]),
            Some(object) => (
                WorldState { tiles: w.tiles.update(tile_object as int, None), ..w },
                destroy_events(object, tile_object, tile_pos(tile_object, w.cols)),
            ),
        },
        EventView::TileObjectReplace { tile_object, new_tile_object } => (
            WorldState { tiles: w.tiles.update(tile_object as int, Some(new_tile_object)), ..w },
            seq![],
        ),
        EventView::ItemDrop { items, pos } => (
            WorldState {
                items: sorted_insert_all(w.items, place_items(expand_stacks(items), spots)),
                ..w
            },
            seq![],
        ),
    }
}

/// How far an event is from settling: every event sets off events of
/// strictly smaller total weight, so processing always comes to an end.
pub open spec fn weight(e: EventView) -> nat {
    match e {
        EventView::ItemUse { .. } => 5,
        EventView::TileObjectDamage { .. } => 4,
        EventView::TileObjectDestroy { .. } => 3,
        EventView::TileObjectReplace { .. } => 1,
        EventView::ItemDrop { .. } => 1,
    }
}

pub open spec fn total_weight(events: Seq<EventView>) -> nat
    decreases events.len(),
{
    if events.len() == 0 {
        0
    } else {
        weight(events[0]) + total_weight(events.drop_first())
    }
}

pub proof fn lemma_total_weight_append(a: Seq<EventView>, b: Seq<EventView>)
    ensures
        total_weight(a + b) == total_weight(a) + total_weight(b),
    decreases a.len(),
{
    if a.len() > 0 {
        assert((a + b).drop_first() =~= a.drop_first() + b);
        lemma_total_weight_append(a.drop_first(), b);
    } else {
        assert(a + b =~= b);
    }
}

/// Every event sets off events of smaller total weight than its own, and
/// those events concern the same tiles, which stay in the world.
pub proof fn lemma_step_settles(w: WorldState, e: EventView, spots: Seq<Position>)
    ensures
        total_weight(step(w, e, spots).1) < weight(e),
        step(w, e, spots).0.rows == w.rows,
        step(w, e, spots).0.cols == w.cols,
        event_valid(e, w) ==> step(w, e, spots).0.tiles.len() == w.tiles.len() && events_valid(
            step(w, e, spots).1,
            step(w, e, spots).0,
        ),
{
    let out = step(w, e, spots).1;
    reveal_with_fuel(total_weight, 3);
    if out.len() > 0 {
        assert(out.drop_first().len() == 0 || out.drop_first().drop_first().len() == 0);
    }
}

/// The world after processing the queue `events` front to back, each event's
/// follow-ups joining the back of the queue, until it is empty; the units
/// dropped on the way land, in turn, at `spots`. Also gives the tile around
/// which each of those spots was asked for.
pub open spec fn run(w: WorldState, events: Seq<EventView>, spots: Seq<Position>) -> (
    WorldState,
    Seq<TilePos>,
)
    decreases total_weight(events),
{
    if events.len() == 0 {
        (w, seq![])
    } else {
        let n = draws(events[0]) as int;
        let (next, follow_ups) = step(w, events[0], spots.take(n));
        proof {
            lemma_step_settles(w, events[0], spots.take(n));
            lemma_total_weight_append(events.drop_first(), follow_ups);
        }
        let (last, tiles) = run(next, events.drop_first() + follow_ups, spots.skip(n));
        (last, drop_tiles(events[0]) + tiles)
    }
}

/// One swing of the axe at a tree takes one hit point off it; nothing else
/// in the world changes while the tree still stands, and nothing drops.
pub proof fn lemma_axe_hits_tree(w: WorldState, target: usize, axe: Axe, spots: Seq<Position>)
    requires
        target < w.tiles.len(),
        w.tiles[target as int] matches Some(tree) && tree.hp > 1,
    ensures
        run(w, seq![EventView::ItemUse { item: Item::Tool(ItemTool::Axe(axe)), target }], spots)
            == ((
            WorldState {
                tiles: w.tiles.update(
                    target as int,
                    Some(
                        TileObject {
                            hp: (w.tiles[target as int].unwrap().hp - 1) as u32,
                            ..w.tiles[target as int].unwrap()
                        },
                    ),
                ),
                ..w
            },
            Seq::<TilePos>::empty(),
        )),
{
    let tree = w.tiles[target as int].unwrap();
    let hit = TileObject { hp: (tree.hp - 1) as u32, ..tree };
    let use_axe = EventView::ItemUse { item: Item::Tool(ItemTool::Axe(axe)), target };
    let damage = EventView::TileObjectDamage { tile_object: target, damage: 1 };
    let after_hit = WorldState { tiles: w.tiles.update(target as int, Some(hit)), ..w };
    let none = spots.take(0);
    assert(spots.skip(0) =~= spots);
    assert(step(w, use_axe, none) == (w, seq![damage]));
    assert(seq![use_axe].drop_first() + seq![damage] =~= seq![damage]);
    assert(step(w, damage, none) == (after_hit, Seq::<EventView>::empty()));
    assert(seq![damage].drop_first() + Seq::<EventView>::empty() =~= Seq::<EventView>::empty());
    assert(run(after_hit, Seq::<EventView>::empty(), spots) == (after_hit, Seq::<TilePos>::empty()));
    assert(drop_tiles(damage) + Seq::<TilePos>::empty() =~= Seq::<TilePos>::empty());
    assert(run(w, seq![damage], spots) == (after_hit, Seq::<TilePos>::empty()));
}

/// The units of one stack of `count` items of a kind.
proof fn lemma_expand_single(stack: ItemStack)
    ensures
        expand_stacks(seq![stack]) =~= Seq::new(stack.count as nat, |_i: int| stack.item),
{
    assert(seq![stack].drop_last() =~= Seq::<ItemStack>::empty());
    assert(expand_stacks(Seq::<ItemStack>::empty()) =~= Seq::<Item>::empty());
}

/// The swing that takes a fully grown tree's last hit point fells it: the
/// tile then holds a stump, and the tree's 12 wood land on the ground around
/// that tile, each at the spot drawn for it and in height order.
pub proof fn lemma_axe_fells_tree(w: WorldState, target: usize, axe: Axe, spots: Seq<Position>)
    requires
        state_wf(w),
        target < w.tiles.len(),
        w.tiles[target as int] == Some(TileObject { hp: 1, ..fully_grown_tree() }),
        spots.len() == 12,
    ensures
        run(w, seq![EventView::ItemUse { item: Item::Tool(ItemTool::Axe(axe)), target }], spots)
            == ((
            WorldState {
                tiles: w.tiles.update(target as int, Some(tree_stump())),
                items: sorted_insert_all(
                    w.items,
                    place_items(Seq::new(12, |_i: int| wood(12).item), spots),
                ),
                ..w
            },
            Seq::new(12, |_i: int| tile_pos(target, w.cols)),
        )),
{
    let felled = TileObject { hp: 0, ..fully_grown_tree() };
    let pos = tile_pos(target, w.cols);
    let use_axe = EventView::ItemUse { item: Item::Tool(ItemTool::Axe(axe)), target };
    let damage = EventView::TileObjectDamage { tile_object: target, damage: 1 };
    let destroy = EventView::TileObjectDestroy { tile_object: target };
    let replace = EventView::TileObjectReplace { tile_object: target, new_tile_object: tree_stump() };
    let drop = EventView::ItemDrop { items: seq![wood(12)], pos };
    let none = spots.take(0);
    let empty = Seq::<EventView>::empty();
    let no_tiles = Seq::<TilePos>::empty();
    let w1 = WorldState { tiles: w.tiles.update(target as int, Some(felled)), ..w };
    let w2 = WorldState { tiles: w.tiles.update(target as int, None), ..w };
    let w3 = WorldState { tiles: w.tiles.update(target as int, Some(tree_stump())), ..w };
    let w4 = WorldState {
        tiles: w.tiles.update(target as int, Some(tree_stump())),
        items: sorted_insert_all(w.items, place_items(Seq::new(12, |_i: int| wood(12).item), spots)),
        ..w
    };
    let tiles12 = Seq::new(12, |_i: int| pos);
    lemma_expand_single(wood(12));
    assert(spots.skip(0) =~= spots);
    assert(spots.take(12) =~= spots);
    assert(spots.skip(12) =~= Seq::<Position>::empty());
    assert(Seq::<Position>::empty().take(0) =~= Seq::<Position>::empty());
    assert(Seq::<Position>::empty().skip(0) =~= Seq::<Position>::empty());
    assert(draws(drop) == 12);
    assert(drop_tiles(drop) =~= tiles12);
    assert(step(w3, drop, spots) == (w4, empty));
    assert(seq![drop].drop_first() + empty =~= empty);
    assert(run(w4, empty, Seq::<Position>::empty()) == (w4, no_tiles));
    assert(tiles12 + no_tiles =~= tiles12);
    assert(run(w3, seq![drop], spots) == (w4, tiles12));
    assert(w2.tiles.update(target as int, Some(tree_stump())) =~= w3.tiles);
    assert(step(w2, replace, none) == (w3, empty));
    assert(seq![replace, drop].drop_first() + empty =~= seq![drop]);
    assert(drop_tiles(replace) + tiles12 =~= tiles12);
    assert(run(w2, seq![replace, drop], spots) == (w4, tiles12));
    assert(w1.tiles.update(target as int, None) =~= w2.tiles);
    assert(step(w1, destroy, none) == (w2, seq![replace, drop]));
    assert(seq![destroy].drop_first() + seq![replace, drop] =~= seq![replace, drop]);
    assert(drop_tiles(destroy) + tiles12 =~= tiles12);
    assert(run(w1, seq![destroy], spots) == (w4, tiles12));
    assert(step(w, damage, none) == (w1, seq![destroy]));
    assert(seq![damage].drop_first() + seq![destroy] =~= seq![destroy]);
    assert(drop_tiles(damage) + tiles12 =~= tiles12);
    assert(run(w, seq![damage], spots) == (w4, tiles12));
    assert(step(w, use_axe, none) == (w, seq![damage]));
    assert(seq![use_axe].drop_first() + seq![damage] =~= seq![damage]);
    assert(drop_tiles(use_axe) + tiles12 =~= tiles12);
}

proof fn lemma_cols_positive(w: WorldState, index: usize)
    requires
        state_wf(w),
        index < w.tiles.len(),
    ensures
        w.cols > 0,
{
    if w.cols == 0 {
        assert(w.rows * w.cols == 0) by (nonlinear_arith)
            requires
                w.cols == 0,
        ;
    }
}

/// The units expanded from the first `s + 1` stacks are those of the first
/// `s` stacks followed by the units of stack `s`.
proof fn lemma_expand_step(stacks: Seq<ItemStack>, s: int)
    requires
        0 <= s < stacks.len(),
    ensures
        expand_stacks(stacks.take(s + 1)) =~= expand_stacks(stacks.take(s)) + Seq::new(
            stacks[s].count as nat,
            |_j: int| stacks[s].item,
        ),
{
    assert(stacks.take(s + 1).drop_last() =~= stacks.take(s));
}

/// Asks `drop_position` for a landing spot around `pos` for each unit of `items`.
fn draw_spots<F: Fn(TilePos) -> Position>(
    items: &Vec<ItemStack>,
    pos: TilePos,
    drop_position: &F,
) -> (r: Vec<Position>)
    requires
        places_items(*drop_position),
    ensures
        drawn_from(
            *drop_position,
            Seq::new(expand_stacks(items@).len(), |_i: int| pos),
            r@,
        ),
        forall|i: int| 0 <= i < r@.len() ==> !f32_is_nan(#[trigger] r@[i].y),
{
    let mut spots: Vec<Position> = Vec::new();
    let mut s: usize = 0;
    while s < items.len()
        invariant
            0 <= s <= items@.len(),
            places_items(*drop_position),
            spots@.len() == expand_stacks(items@.take(s as int)).len(),
            forall|i: int|
                0 <= i < spots@.len() ==> call_ensures(*drop_position, (pos,), #[trigger] spots@[i]),
            forall|i: int| 0 <= i < spots@.len() ==> !f32_is_nan(#[trigger] spots@[i].y),
        decreases items@.len() - s,
    {
        proof {
            lemma_expand_step(items@, s as int);
        }
        let count = items[s].count;
        let mut k: u32 = 0;
        while k < count
            invariant
                0 <= s < items@.len(),
                count == items@[s as int].count,
                k <= count,
                places_items(*drop_position),
                spots@.len() == expand_stacks(items@.take(s as int)).len() + k,
                forall|i: int|
                    0 <= i < spots@.len() ==> call_ensures(
                        *drop_position,
                        (pos,),
                        #[trigger] spots@[i],
                    ),
                forall|i: int| 0 <= i < spots@.len() ==> !f32_is_nan(#[trigger] spots@[i].y),
            decreases count - k,
        {
            let spot = drop_position(pos);
            spots.push(spot);
            k = k + 1;
        }
        s = s + 1;
    }
    proof {
        assert(items@.take(items@.len() as int) =~= items@);
    }
    spots
}

impl WorldEvent {
    /// Carries out the event on `world` and returns the events it sets off.
    /// Dropped items are laid on the ground, each unit at a spot that
    /// `drop_position` gives around the tile where it dropped.
    pub fn process<F: Fn(TilePos) -> Position>(self, world: &mut World, drop_position: &F) -> (r:
        Vec<WorldEvent>)
        requires
            old(world).wf(),
            event_valid(self@, old(world)@),
            places_items(*drop_position),
        ensures
            final(world).wf(),
            exists|spots: Seq<Position>|
                {
                    &&& drawn_from(*drop_position, drop_tiles(self@), spots)
                    &&& (final(world)@, views(r@)) == step(old(world)@, self@, spots)
                },
    {
        let ghost none = Seq::<Position>::empty();
        match self {
            WorldEvent::ItemUse { item, target } => {
                let r = item.on_use(target, world);
                assert(drawn_from(*drop_position, drop_tiles(self@), none));
                r
            },
            WorldEvent::TileObjectDamage { tile_object, damage } => {
                let slot = world.get_mut_tile_object_from_index(tile_object);
                let r = match slot {
                    Some(object) => {
                        object.hp = object.hp.saturating_sub(damage);
                        object.on_damage(damage, tile_object)
                    },
                    None => {
                        let r: Vec<WorldEvent> = vec![];
                        assert(views(r@) =~= seq![]);
                        r
                    },
                };
                proof {
                    if old(world).tile_objects@[tile_object.0 as int] is None {
                        assert(world.tile_objects@ =~= old(world).tile_objects@);
                        assert(world@ =~= old(world)@);
                    }
                    assert(drawn_from(*drop_position, drop_tiles(self@), none));
                }
                r
            },
            WorldEvent::TileObjectDestroy { tile_object } => {
                let removed = world.remove_tile_object(tile_object);
                proof {
                    assert(drawn_from(*drop_position, drop_tiles(self@), none));
                }
                match removed {
                    Some(old_object) => {
                        let mut old_object = old_object;
                        proof {
                            lemma_cols_positive(old(world)@, tile_object.0);
                        }
                        let pos = world.get_tile_object_pos_by_index(tile_object);
                        old_object.on_destroy(tile_object, pos)
                    },
                    None => {
                        let r: Vec<WorldEvent> = vec![];
                        assert(views(r@) =~= seq![]);
                        assert(world@.tiles =~= old(world)@.tiles);
                        r
                    },
                }
            },
            WorldEvent::TileObjectReplace { tile_object, new_tile_object } => {
                world.set_tile_object_with_index(tile_object, new_tile_object);
                let r: Vec<WorldEvent> = vec![];
                assert(views(r@) =~= seq![]);
                assert(drawn_from(*drop_position, drop_tiles(self@), none));
                r
            },
            WorldEvent::ItemDrop { items, pos } => {
                let spots = draw_spots(&items, pos, drop_position);
                let ghost drawn = spots@;
                let ghost stacks = items@;
                world.spawn_world_items(items, spots);
                let r: Vec<WorldEvent> = vec![];
                assert(views(r@) =~= seq![]);
                assert(drop_tiles(self@) =~= Seq::new(expand_stacks(stacks).len(), |_i: int| pos));
                assert(drawn_from(*drop_position, drop_tiles(self@), drawn));
                assert(world@ =~= step(old(world)@, self@, drawn).0);
                r
            },
        }
    }
}

/// A queue of world events that can be worked off against a world.
pub trait EventQueue {
    /// The queued events, front first.
    spec fn events(&self) -> Seq<EventView>;

    /// Processes events front to back, queueing each event's follow-ups at
    /// the back, until the queue is empty. Dropped items are laid on the
    /// ground at spots that `drop_position` gives around the tile where
    /// they dropped.
    fn process<F: Fn(TilePos) -> Position>(&mut self, world: &mut World, drop_position: &F)
        requires
            old(world).wf(),
            events_valid(old(self).events(), old(world)@),
            places_items(*drop_position),
        ensures
            final(world).wf(),
            final(self).events().len() == 0,
            exists|spots: Seq<Position>|
                {
                    &&& drawn_from(
                        *drop_position,
                        run(old(world)@, old(self).events(), spots).1,
                        spots,
                    )
                    &&& final(world)@ == run(old(world)@, old(self).events(), spots).0
                },
    ;
}

impl EventQueue for VecDeque<WorldEvent> {
    open spec fn events(&self) -> Seq<EventView> {
        views(self@)
    }

    fn process<F: Fn(TilePos) -> Position>(&mut self, world: &mut World, drop_position: &F) {
        let ghost w0 = world@;
        let ghost q0 = views(self@);
        let ghost mut drawn = Seq::<Position>::empty();
        let ghost mut asked = Seq::<TilePos>::empty();
        proof {
            assert forall|rest: Seq<Position>| #[trigger] run(w0, q0, drawn + rest) == (
            run(world@, views(self@), rest).0,
            asked + run(world@, views(self@), rest).1,
            ) by {
                assert(drawn + rest =~= rest);
                assert(asked + run(world@, views(self@), rest).1 =~= run(
                    world@,
                    views(self@),
                    rest,
                ).1);
            }
        }
        loop
            invariant
                world.wf(),
                events_valid(views(self@), world@),
                places_items(*drop_position),
                w0 == old(world)@,
                q0 == views(old(self)@),
                drawn_from(*drop_position, asked, drawn),
                forall|rest: Seq<Position>| #[trigger] run(w0, q0, drawn + rest) == (
                run(world@, views(self@), rest).0,
                asked + run(world@, views(self@), rest).1,
                ),
            ensures
                world.wf(),
                views(self@).len() == 0,
                drawn_from(*drop_position, asked, drawn),
                forall|rest: Seq<Position>| #[trigger] run(w0, q0, drawn + rest) == (
                run(world@, views(self@), rest).0,
                asked + run(world@, views(self@), rest).1,
                ),
            decreases total_weight(views(self@)),
        {
            let ghost queue = views(self@);
            match self.pop_front() {
                Some(event) => {
                    let ghost rest = views(self@);
                    let ghost before = world@;
                    proof {
                        assert(queue =~= seq![event@] + rest);
                        assert(queue[0] == event@);
                        assert(queue.drop_first() =~= rest);
                        assert(event_valid(queue[0], world@));
                        assert(events_valid(rest, world@)) by {
                            assert forall|i: int| 0 <= i < rest.len() implies event_valid(
                                #[trigger] rest[i],
                                world@,
                            ) by {
                                assert(rest[i] == queue[i + 1]);
                            }
                        }
                    }
                    let mut follow_ups = event.process(world, drop_position);
                    let ghost spots = choose|spots: Seq<Position>|
                        {
                            &&& drawn_from(*drop_position, drop_tiles(event@), spots)
                            &&& (world@, views(follow_ups@)) == step(before, event@, spots)
                        };
                    let ghost added = views(follow_ups@);
                    proof {
                        lemma_step_settles(before, event@, spots);
                        lemma_total_weight_append(rest, added);
                    }
                    while follow_ups.len() > 0
                        invariant
                            views(self@) + views(follow_ups@) == rest + added,
                        decreases follow_ups.len(),
                    {
                        let e = follow_ups.remove(0);
                        let ghost pending = views(follow_ups@);
                        self.push_back(e);
                        proof {
                            assert(views(self@) + pending =~= rest + added) by {
                                assert(views(self@) + pending =~= views(self@.drop_last()) + (
                                seq![e@] + pending));
                            }
                        }
                    }
                    proof {
                        assert(views(self@) =~= rest + added) by {
                            assert(views(follow_ups@) =~= seq![]);
                        }
                        assert(events_valid(views(self@), world@)) by {
                            assert forall|i: int| 0 <= i < views(self@).len() implies event_valid(
                                #[trigger] views(self@)[i],
                                world@,
                            ) by {
                                if i < rest.len() {
                                    assert(views(self@)[i] == rest[i]);
                                } else {
                                    assert(views(self@)[i] == added[i - rest.len()]);
                                }
                            }
                        }
                        let old_drawn = drawn;
                        let old_asked = asked;
                        drawn = drawn + spots;
                        asked = asked + drop_tiles(event@);
                        assert forall|more: Seq<Position>| #[trigger] run(w0, q0, drawn + more) == (
                        run(world@, views(self@), more).0,
                        asked + run(world@, views(self@), more).1,
                        ) by {
                            let tail = spots + more;
                            assert(drawn + more =~= old_drawn + tail);
                            assert(run(w0, q0, old_drawn + tail) == (
                            run(before, queue, tail).0,
                            old_asked + run(before, queue, tail).1,
                            ));
                            assert(tail.take(spots.len() as int) =~= spots);
                            assert(tail.skip(spots.len() as int) =~= more);
                            assert(draws(queue[0]) == spots.len());
                            assert(asked + run(world@, views(self@), more).1 =~= old_asked + (
                            drop_tiles(event@) + run(world@, views(self@), more).1));
                        }
                        assert(drawn_from(*drop_position, asked, drawn)) by {
                            assert forall|i: int| 0 <= i < drawn.len() implies call_ensures(
                                *drop_position,
                                (asked[i],),
                                #[trigger] drawn[i],
                            ) by {
                                if i < old_drawn.len() {
                                    assert(drawn[i] == old_drawn[i]);
                                    assert(asked[i] == old_asked[i]);
                                } else {
                                    assert(drawn[i] == spots[i - old_drawn.len()]);
                                    assert(asked[i] == drop_tiles(event@)[i - old_drawn.len()]);
                                }
                            }
                        }
                    }
                },
                None => {
                    assert(views(self@) =~= seq![]);
                    break ;
                },
            }
        }
        proof {
            assert(drawn + Seq::<Position>::empty() =~= drawn);
            assert(run(world@, views(self@), Seq::<Position>::empty()) == (
            world@,
            Seq::<TilePos>::empty(),
            ));
            assert(asked + Seq::<TilePos>::empty() =~= asked);
            assert(run(w0, q0, drawn) == (world@, asked));
        }
    }
}

} // verus!
