use stardew::grid::Grid;
use stardew::item::{Axe, Item, ItemResource, ItemStack, ItemTool, WorldItem, WorldItemIndex};
use stardew::position::{is_nan, le, lt, Position, TilePos};
use stardew::tile_object::{
    TileObject, TileObjectIndex, TileObjectKind, TileObjectTree, TileObjectTreeKind,
    TreeFullyGrown, TreeStump,
};
use stardew::world::World;

fn wood(count: u32) -> ItemStack {
    ItemStack { item: Item::Resource(ItemResource::Wood), count }
}

fn at(x: f32, y: f32) -> Position {
    Position { x: x.to_bits(), y: y.to_bits() }
}

fn empty_world(rows: usize, cols: usize) -> World {
    World {
        tile_objects: Grid::new(rows, cols),
        world_items: Vec::new(),
    }
}

#[test]
fn float_order_matches_ieee() {
    let values = [
        f32::NEG_INFINITY,
        -3.5,
        -1.0,
        -0.0,
        0.0,
        1e-30,
        0.5,
        2.0,
        1e30,
        f32::INFINITY,
        f32::NAN,
    ];
    for a in values {
        for b in values {
            assert_eq!(le(a.to_bits(), b.to_bits()), a <= b, "{} <= {}", a, b);
            assert_eq!(lt(a.to_bits(), b.to_bits()), a < b, "{} < {}", a, b);
        }
        assert_eq!(is_nan(a.to_bits()), a.is_nan());
    }
}

#[test]
fn trees_and_stumps() {
    let tree = TreeFullyGrown::new();
    assert_eq!(tree.hp, 10);
    assert_eq!(
        tree.kind,
        TileObjectKind::Tree(TileObjectTree {
            kind: TileObjectTreeKind::TreeFullyGrown(TreeFullyGrown)
        })
    );
    assert_eq!(tree.get_drops(), vec![wood(12)]);
    let stump = TreeStump::new();
    assert_eq!(stump.hp, 5);
    assert_eq!(stump.get_drops(), vec![wood(5)]);
    match &stump.kind {
        TileObjectKind::Tree(t) => assert_eq!(t.get_drops(), vec![wood(5)]),
    }
}

#[test]
fn tile_object_index_and_position_round_trip() {
    let world = empty_world(4, 5);
    let index = world.get_tile_object_index(3, 2);
    assert_eq!(index, TileObjectIndex(17));
    assert_eq!(world.get_tile_object_pos_by_index(index), TilePos { x: 2, y: 3 });
}

#[test]
fn tile_objects_are_set_read_and_removed() {
    let mut world = empty_world(2, 2);
    let index = TileObjectIndex(3);
    assert_eq!(world.get_tile_object_from_index(index), &None);
    world.set_tile_object_with_index(index, TreeFullyGrown::new());
    assert_eq!(world.get_tile_object_from_index(index), &Some(TreeFullyGrown::new()));
    if let Some(object) = world.get_mut_tile_object_from_index(index) {
        object.hp = 3;
    }
    let removed: Option<TileObject> = world.remove_tile_object(index);
    assert_eq!(removed.map(|o| o.hp), Some(3));
    assert_eq!(world.remove_tile_object(index), None);
}

#[test]
fn spawned_items_are_kept_ordered_by_height() {
    let mut world = empty_world(1, 1);
    world.spawn_world_items(vec![wood(2)], vec![at(0.0, 3.0), at(1.0, 1.0)]);
    world.spawn_world_items(
        vec![ItemStack { item: Item::Tool(ItemTool::Hoe), count: 1 }, wood(1)],
        vec![at(2.0, 2.0), at(3.0, -0.5)],
    );
    let heights: Vec<f32> = world.world_items.iter().map(|w| f32::from_bits(w.pos.y)).collect();
    assert_eq!(heights, vec![-0.5, 1.0, 2.0, 3.0]);
    assert_eq!(world.world_items[2].item, Item::Tool(ItemTool::Hoe));
}

#[test]
fn spawned_item_goes_after_items_at_the_same_height() {
    let mut world = empty_world(1, 1);
    world.spawn_world_items(vec![wood(1)], vec![at(0.0, 1.0)]);
    world.spawn_world_items(
        vec![ItemStack { item: Item::Tool(ItemTool::Axe(Axe {})), count: 1 }],
        vec![at(5.0, 1.0)],
    );
    assert_eq!(world.world_items[0], WorldItem { item: Item::Resource(ItemResource::Wood), pos: at(0.0, 1.0) });
    assert_eq!(world.world_items[1].pos, at(5.0, 1.0));
}

#[test]
fn world_items_are_read_and_removed_by_index() {
    let mut world = empty_world(1, 1);
    world.spawn_world_items(vec![wood(3)], vec![at(0.0, 0.0), at(0.0, 1.0), at(0.0, 2.0)]);
    assert_eq!(world.get_world_item(WorldItemIndex(1)).pos, at(0.0, 1.0));
    let removed = world.remove_world_item(WorldItemIndex(0));
    assert_eq!(removed.pos, at(0.0, 0.0));
    assert_eq!(world.world_items.len(), 2);
    assert_eq!(world.get_world_item(WorldItemIndex(0)).pos, at(0.0, 1.0));
}

#[test]
fn positions_compare_as_numbers() {
    assert_eq!(at(0.0, -0.0), at(-0.0, 0.0));
    assert_ne!(at(0.0, f32::NAN), at(0.0, f32::NAN));
    assert_ne!(at(1.0, 2.0), at(1.0, 2.5));
}

#[test]
fn world_items_order_by_height() {
    let low = WorldItem { item: Item::Resource(ItemResource::Wood), pos: at(9.0, 1.0) };
    let high = WorldItem { item: Item::Resource(ItemResource::Wood), pos: at(-3.0, 4.0) };
    let lost = WorldItem { item: Item::Resource(ItemResource::Wood), pos: at(0.0, f32::NAN) };
    assert_eq!(low.partial_cmp(&high), Some(std::cmp::Ordering::Less));
    assert_eq!(high.partial_cmp(&low), Some(std::cmp::Ordering::Greater));
    assert_eq!(low.partial_cmp(&low), Some(std::cmp::Ordering::Equal));
    assert_eq!(low.partial_cmp(&lost), None);
    assert!(low < high);
    assert!(low == WorldItem { item: Item::Resource(ItemResource::Wood), pos: at(9.0, 1.0) });
}
