use vstd::prelude::*;

use crate::event::{EventView, WorldEvent, views};
use crate::item::{Item, ItemResource, ItemStack};
use crate::position::TilePos;

verus! {

/// Index of a tile in the world's row-major tile grid.
#[derive(Clone, Copy, PartialEq, Eq, Structural, Debug)]
pub struct TileObjectIndex(pub usize);

/// Something standing on a tile, such as a tree.
#[derive(Clone, PartialEq, Eq, Structural, Debug)]
pub struct TileObject {
    pub hp: u32,
    pub kind: TileObjectKind,
}

#[derive(Clone, PartialEq, Eq, Structural, Debug)]
pub enum TileObjectKind {
    Tree(TileObjectTree),
}

#[derive(Clone, PartialEq, Eq, Structural, Debug)]
pub struct TileObjectTree {
    pub kind: TileObjectTreeKind,
}

#[derive(Clone, PartialEq, Eq, Structural, Debug)]
pub enum TileObjectTreeKind {
    TreeFullyGrown(TreeFullyGrown),
    TreeStump(TreeStump),
}

#[derive(Clone, PartialEq, Eq, Structural, Debug)]
pub struct TreeFullyGrown;

#[derive(Clone, PartialEq, Eq, Structural, Debug)]
pub struct TreeStump;

/// A fully grown tree: 10 hit points.
pub open spec fn fully_grown_tree() -> TileObject {
    TileObject {
        hp: 10,
        kind: TileObjectKind::Tree(
            TileObjectTree { kind: TileObjectTreeKind::TreeFullyGrown(TreeFullyGrown) },
        ),
    }
}

/// The stump left behind by a felled tree: 5 hit points.
pub open spec fn tree_stump() -> TileObject {
    TileObject {
        hp: 5,
        kind: TileObjectKind::Tree(TileObjectTree { kind: TileObjectTreeKind::TreeStump(TreeStump) }),
    }
}

pub open spec fn wood(count: u32) -> ItemStack {
    ItemStack { item: Item::Resource(ItemResource::Wood), count }
}

/// What a tree leaves behind when destroyed: 12 wood for a grown tree,
/// 5 for a stump.
pub open spec fn tree_drops(tree: TileObjectTree) -> Seq<ItemStack> {
    match tree.kind {
        TileObjectTreeKind::TreeFullyGrown(_) => seq![wood(12)],
        TileObjectTreeKind::TreeStump(_) => seq![wood(5)],
    }
}

pub open spec fn object_drops(object: TileObject) -> Seq<ItemStack> {
    match object.kind {
        TileObjectKind::Tree(tree) => tree_drops(tree),
    }
}

/// Follow-up of a hit on an object: it is destroyed once its hit points are gone.
pub open spec fn damage_events(object: TileObject, index: usize) -> Seq<EventView> {
    if object.hp == 0 {
        seq![EventView::TileObjectDestroy { tile_object: index }]
    } else {
        seq![]
    }
}

/// Follow-up of destroying an object at `index`: a grown tree turns into a
/// stump, and whatever the object held drops at its tile.
pub open spec fn destroy_events(object: TileObject, index: usize, pos: TilePos) -> Seq<EventView> {
    let drop = EventView::ItemDrop { items: object_drops(object), pos };
    match object.kind {
        TileObjectKind::Tree(TileObjectTree { kind: TileObjectTreeKind::TreeFullyGrown(_) }) => seq![
            EventView::TileObjectReplace { tile_object: index, new_tile_object: tree_stump() },
            drop,
        ],
        _ => seq![drop],
    }
}

impl TileObject {
    pub fn on_damage(&mut self, _damage: u32, index: TileObjectIndex) -> (r: Vec<WorldEvent>)
        ensures
            *final(self) == *old(self),
            views(r@) == damage_events(*old(self), index.0),
    {
        if self.hp == 0 {
            let r = vec![WorldEvent::TileObjectDestroy { tile_object: index }];
            assert(views(r@) =~= damage_events(*old(self), index.0));
            r
        } else {
            let r: Vec<WorldEvent> = vec![];
            assert(views(r@) =~= damage_events(*old(self), index.0));
            r
        }
    }

    pub fn on_destroy(&mut self, index: TileObjectIndex, pos: TilePos) -> (r: Vec<WorldEvent>)
        ensures
            *final(self) == *old(self),
            views(r@) == destroy_events(*old(self), index.0, pos),
    {
        let mut events = match &self.kind {
            TileObjectKind::Tree(TileObjectTree { kind: TileObjectTreeKind::TreeFullyGrown(tree) }) => {
                tree.on_destroy(index)
            },
            _ => vec![],
        };
        let ghost first = views(events@);
        // Handle drops
        let drops = self.get_drops();
        let ghost drop_view = EventView::ItemDrop { items: drops@, pos };
        events.push(WorldEvent::ItemDrop { items: drops, pos });
        assert(views(events@) =~= first.push(drop_view));
        assert(views(events@) =~= destroy_events(*old(self), index.0, pos));
        events
    }

    pub fn get_drops(&self) -> (r: Vec<ItemStack>)
        ensures
            r@ == object_drops(*self),
    {
        match &self.kind {
            TileObjectKind::Tree(tree) => tree.get_drops(),
        }
    }
}

impl TileObjectTree {
    pub fn get_drops(&self) -> (r: Vec<ItemStack>)
        ensures
            r@ == tree_drops(*self),
    {
        match &self.kind {
            TileObjectTreeKind::TreeFullyGrown(_) => {
                let r = vec![ItemStack { item: Item::Resource(ItemResource::Wood), count: 12 }];
                assert(r@ =~= tree_drops(*self));
                r
            },
            TileObjectTreeKind::TreeStump(_) => {
                let r = vec![ItemStack { item: Item::Resource(ItemResource::Wood), count: 5 }];
                assert(r@ =~= tree_drops(*self));
                r
            },
        }
    }
}

impl TreeFullyGrown {
    pub fn new() -> (r: TileObject)
        ensures
            r == fully_grown_tree(),
    {
        TileObject {
            hp: 10,
            kind: TileObjectKind::Tree(
                TileObjectTree { kind: TileObjectTreeKind::TreeFullyGrown(TreeFullyGrown) },
            ),
        }
    }

    pub fn on_destroy(&self, index: TileObjectIndex) -> (r: Vec<WorldEvent>)
        ensures
            views(r@) == seq![
                EventView::TileObjectReplace { tile_object: index.0, new_tile_object: tree_stump() },
            ],
    {
        let r = vec![WorldEvent::TileObjectReplace { tile_object: index, new_tile_object: TreeStump::new() }];
        assert(views(r@) =~= seq![
            EventView::TileObjectReplace { tile_object: index.0, new_tile_object: tree_stump() },
        ]);
        r
    }
}

impl TreeStump {
    pub fn new() -> (r: TileObject)
        ensures
            r == tree_stump(),
    {
        TileObject {
            hp: 5,
            kind: TileObjectKind::Tree(TileObjectTree { kind: TileObjectTreeKind::TreeStump(TreeStump) }),
        }
    }
}

} // verus!
