use vstd::prelude::*;

use crate::event::{EventView, WorldEvent, views};
use core::cmp::Ordering;

use crate::position::{Position, f32_eq, f32_is_nan, f32_lt, is_nan, lt};
use crate::tile_object::{TileObject, TileObjectIndex, TileObjectKind};
use crate::world::World;

verus! {

#[derive(PartialEq, Eq, Structural, Clone, Copy, Debug)]
pub enum Item {
    // Tools
    Tool(ItemTool),
    // Materials
    Resource(ItemResource),
}

#[derive(PartialEq, Eq, Structural, Clone, Copy, Debug)]
pub enum ItemTool {
    Hoe,
    Axe(Axe),
}

#[derive(PartialEq, Eq, Structural, Clone, Copy, Debug)]
pub struct Axe {}

#[derive(PartialEq, Eq, Structural, Clone, Copy, Debug)]
pub enum ItemResource {
    Wood,
}

/// `count` units of one item.
#[derive(PartialEq, Eq, Structural, Clone, Copy, Debug)]
pub struct ItemStack {
    pub item: Item,
    pub count: u32,
}

/// Index into the world's list of items lying on the ground.
#[derive(PartialEq, Eq, Structural, Clone, Copy, Debug)]
pub struct WorldItemIndex(pub usize);

/// An item lying on the ground at a position.
#[derive(Clone, Copy, Debug)]
pub struct WorldItem {
    pub item: Item,
    pub pos: Position,
}

impl PartialEq for WorldItem {
    fn eq(&self, other: &Self) -> (r: bool) {
        self.item == other.item && self.pos == other.pos
    }
}

impl vstd::std_specs::cmp::PartialEqSpecImpl for WorldItem {
    open spec fn obeys_eq_spec() -> bool {
        true
    }

    open spec fn eq_spec(&self, other: &Self) -> bool {
        self.item == other.item && f32_eq(self.pos.x, other.pos.x) && f32_eq(self.pos.y, other.pos.y)
    }
}

impl Eq for WorldItem {

}

/// Items on the ground are ordered by their height, as `f32` numbers order:
/// items at a NaN height are unordered.
impl PartialOrd for WorldItem {
    fn partial_cmp(&self, other: &Self) -> (r: Option<Ordering>) {
        let a = self.pos.y;
        let b = other.pos.y;
        if is_nan(a) || is_nan(b) {
            None
        } else if lt(a, b) {
            Some(Ordering::Less)
        } else if lt(b, a) {
            Some(Ordering::Greater)
        } else {
            Some(Ordering::Equal)
        }
    }
}

impl vstd::std_specs::cmp::PartialOrdSpecImpl for WorldItem {
    open spec fn obeys_partial_cmp_spec() -> bool {
        true
    }

    open spec fn partial_cmp_spec(&self, other: &Self) -> Option<Ordering> {
        let a = self.pos.y;
        let b = other.pos.y;
        if f32_is_nan(a) || f32_is_nan(b) {
            None
        } else if f32_lt(a, b) {
            Some(Ordering::Less)
        } else if f32_lt(b, a) {
            Some(Ordering::Greater)
        } else {
            Some(Ordering::Equal)
        }
    }
}

/// What using `item` on the object at `target` sets off: an axe hits a tree
/// for one point of damage; anything else, or an empty tile, does nothing.
pub open spec fn use_events(item: Item, target: usize, tiles: Seq<Option<TileObject>>) -> Seq<
    EventView,
> {
    match item {
        Item::Tool(ItemTool::Axe(_)) => match tiles[target as int] {
            Some(object) => match object.kind {
                TileObjectKind::Tree(_) => seq![
                    EventView::TileObjectDamage { tile_object: target, damage: 1 },
                ],
            },
            None => seq![],
        },
        _ => seq![],
    }
}

impl Item {
    pub fn on_use(&self, target: TileObjectIndex, world: &mut World) -> (r: Vec<WorldEvent>)
        requires
            *self matches Item::Tool(ItemTool::Axe(_)) ==> target.0 < old(world).tile_objects@.len(),
        ensures
            *final(world) == *old(world),
            views(r@) == use_events(*self, target.0, old(world).tile_objects@),
    {
        match self {
            Item::Tool(tool) => tool.on_use(target, world),
            _ => {
                let r: Vec<WorldEvent> = vec![];
                assert(views(r@) =~= use_events(*self, target.0, old(world).tile_objects@));
                r
            },
        }
    }
}

impl ItemTool {
    fn on_use(&self, target: TileObjectIndex, world: &mut World) -> (r: Vec<WorldEvent>)
        requires
            *self matches ItemTool::Axe(_) ==> target.0 < old(world).tile_objects@.len(),
        ensures
            *final(world) == *old(world),
            views(r@) == use_events(Item::Tool(*self), target.0, old(world).tile_objects@),
    {
        match self {
            ItemTool::Axe(axe) => axe.on_use(target, world),
            _ => {
                let r: Vec<WorldEvent> = vec![];
                assert(views(r@) =~= use_events(
                    Item::Tool(*self),
                    target.0,
                    old(world).tile_objects@,
                ));
                r
            },
        }
    }
}

impl Axe {
    fn on_use(&self, target: TileObjectIndex, world: &mut World) -> (r: Vec<WorldEvent>)
        requires
            target.0 < old(world).tile_objects@.len(),
        ensures
            *final(world) == *old(world),
            views(r@) == use_events(
                Item::Tool(ItemTool::Axe(*self)),
                target.0,
                old(world).tile_objects@,
            ),
    {
        let tile_object = match world.get_tile_object_from_index(target) {
            Some(tile_object) => tile_object,
            None => {
                let r: Vec<WorldEvent> = vec![];
                assert(views(r@) =~= use_events(
                    Item::Tool(ItemTool::Axe(*self)),
                    target.0,
                    old(world).tile_objects@,
                ));
                return r;
            },
        };
        match tile_object.kind {
            TileObjectKind::Tree(_) => {
                let r = vec![WorldEvent::TileObjectDamage { tile_object: target, damage: 1 }];
                assert(views(r@) =~= use_events(
                    Item::Tool(ItemTool::Axe(*self)),
                    target.0,
                    old(world).tile_objects@,
                ));
                r
            },
        }
    }
}

} // verus!
