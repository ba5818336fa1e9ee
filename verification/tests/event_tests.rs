use std::collections::VecDeque;

use stardew::event::{EventQueue, WorldEvent};
use stardew::game::{process_events, GameState};
use stardew::grid::Grid;
use stardew::item::{Axe, Item, ItemResource, ItemStack, ItemTool};
use stardew::position::{Position, TilePos};
use stardew::tile_object::{TileObjectIndex, TreeFullyGrown, TreeStump};
use stardew::world::World;

fn wood(count: u32) -> ItemStack {
    ItemStack { item: Item::Resource(ItemResource::Wood), count }
}

/// Lands dropped units a quarter tile below and to the right of their tile.
fn spot(tile: TilePos) -> Position {
    Position { x: (tile.x as f32 + 0.25).to_bits(), y: (tile.y as f32 + 0.25).to_bits() }
}

fn heights(world: &World) -> Vec<f32> {
    world.world_items.iter().map(|w| f32::from_bits(w.pos.y)).collect()
}

fn axe() -> Item {
    Item::Tool(ItemTool::Axe(Axe {}))
}

fn world_with_tree(rows: usize, cols: usize, index: usize) -> World {
    let mut world = World {
        tile_objects: Grid::new(rows, cols),
        world_items: Vec::new(),
    };
    world.set_tile_object_with_index(TileObjectIndex(index), TreeFullyGrown::new());
    world
}

#[test]
fn axe_on_tree_deals_one_damage() {
    let mut world = world_with_tree(2, 2, 1);
    let events = axe().on_use(TileObjectIndex(1), &mut world);
    assert_eq!(events.len(), 1);
    match &events[0] {
        WorldEvent::TileObjectDamage { tile_object, damage } => {
            assert_eq!(*tile_object, TileObjectIndex(1));
            assert_eq!(*damage, 1);
        }
        other => panic!("unexpected event {:?}", other),
    }
    assert!(axe().on_use(TileObjectIndex(0), &mut world).is_empty());
    assert!(Item::Tool(ItemTool::Hoe).on_use(TileObjectIndex(1), &mut world).is_empty());
    assert!(Item::Resource(ItemResource::Wood).on_use(TileObjectIndex(1), &mut world).is_empty());
}

#[test]
fn damage_lowers_hit_points_saturating() {
    let mut world = world_with_tree(1, 2, 0);
    let events = WorldEvent::TileObjectDamage { tile_object: TileObjectIndex(0), damage: 4 }
        .process(&mut world, &spot);
    assert!(events.is_empty());
    assert_eq!(world.get_tile_object_from_index(TileObjectIndex(0)).as_ref().unwrap().hp, 6);
    let events = WorldEvent::TileObjectDamage { tile_object: TileObjectIndex(0), damage: 100 }
        .process(&mut world, &spot);
    assert_eq!(world.get_tile_object_from_index(TileObjectIndex(0)).as_ref().unwrap().hp, 0);
    assert_eq!(events.len(), 1);
    assert!(matches!(
        events[0],
        WorldEvent::TileObjectDestroy { tile_object: TileObjectIndex(0) }
    ));
    let events = WorldEvent::TileObjectDamage { tile_object: TileObjectIndex(1), damage: 1 }
        .process(&mut world, &spot);
    assert!(events.is_empty());
}

#[test]
fn destroying_a_tree_leaves_a_stump_and_drops_wood() {
    let mut world = world_with_tree(3, 4, 6);
    let events = WorldEvent::TileObjectDestroy { tile_object: TileObjectIndex(6) }.process(&mut world, &spot);
    assert_eq!(world.get_tile_object_from_index(TileObjectIndex(6)), &None);
    assert_eq!(events.len(), 2);
    match &events[0] {
        WorldEvent::TileObjectReplace { tile_object, new_tile_object } => {
            assert_eq!(*tile_object, TileObjectIndex(6));
            assert_eq!(*new_tile_object, TreeStump::new());
        }
        other => panic!("unexpected event {:?}", other),
    }
    match &events[1] {
        WorldEvent::ItemDrop { items, pos } => {
            assert_eq!(items, &vec![wood(12)]);
            assert_eq!(*pos, TilePos { x: 2, y: 1 });
        }
        other => panic!("unexpected event {:?}", other),
    }
    assert!(WorldEvent::TileObjectDestroy { tile_object: TileObjectIndex(6) }
        .process(&mut world, &spot)
        .is_empty());
}

#[test]
fn destroying_a_stump_only_drops_wood() {
    let mut stump = TreeStump::new();
    let events = stump.on_destroy(TileObjectIndex(2), TilePos { x: 2, y: 0 });
    assert_eq!(events.len(), 1);
    match &events[0] {
        WorldEvent::ItemDrop { items, .. } => assert_eq!(items, &vec![wood(5)]),
        other => panic!("unexpected event {:?}", other),
    }
}

#[test]
fn on_damage_reports_destruction_only_at_zero() {
    let mut tree = TreeFullyGrown::new();
    assert!(tree.on_damage(1, TileObjectIndex(0)).is_empty());
    tree.hp = 0;
    assert_eq!(tree.on_damage(1, TileObjectIndex(0)).len(), 1);
}

#[test]
fn replace_and_drop_events_change_the_world() {
    let mut world = world_with_tree(1, 3, 0);
    let events = WorldEvent::TileObjectReplace {
        tile_object: TileObjectIndex(2),
        new_tile_object: TreeStump::new(),
    }
    .process(&mut world, &spot);
    assert!(events.is_empty());
    assert_eq!(world.get_tile_object_from_index(TileObjectIndex(2)), &Some(TreeStump::new()));
    let events = WorldEvent::ItemDrop { items: vec![wood(3)], pos: TilePos { x: 0, y: 0 } }
        .process(&mut world, &spot);
    assert!(events.is_empty());
    assert_eq!(world.world_items.len(), 3);
    assert!(world.world_items.iter().all(|w| w.pos == spot(TilePos { x: 0, y: 0 })));
}

#[test]
fn ten_axe_swings_fell_a_tree() {
    let mut world = world_with_tree(2, 3, 4);
    let mut queue: VecDeque<WorldEvent> = VecDeque::new();
    for _ in 0..9 {
        queue.push_back(WorldEvent::ItemUse { item: axe(), target: TileObjectIndex(4) });
    }
    queue.process(&mut world, &spot);
    assert!(queue.is_empty());
    assert_eq!(world.get_tile_object_from_index(TileObjectIndex(4)).as_ref().unwrap().hp, 1);
    assert!(world.world_items.is_empty());
    queue.push_back(WorldEvent::ItemUse { item: axe(), target: TileObjectIndex(4) });
    queue.process(&mut world, &spot);
    assert_eq!(world.get_tile_object_from_index(TileObjectIndex(4)), &Some(TreeStump::new()));
    assert_eq!(world.world_items.len(), 12);
    assert!(world
        .world_items
        .iter()
        .all(|w| w.item == Item::Resource(ItemResource::Wood) && w.pos == spot(TilePos { x: 1, y: 1 })));
}

#[test]
fn five_more_swings_clear_the_stump() {
    let mut world = world_with_tree(1, 1, 0);
    world.set_tile_object_with_index(TileObjectIndex(0), TreeStump::new());
    let mut queue: VecDeque<WorldEvent> = VecDeque::new();
    for _ in 0..5 {
        queue.push_back(WorldEvent::ItemUse { item: axe(), target: TileObjectIndex(0) });
    }
    queue.push_back(WorldEvent::ItemUse { item: axe(), target: TileObjectIndex(0) });
    queue.process(&mut world, &spot);
    assert_eq!(world.get_tile_object_from_index(TileObjectIndex(0)), &None);
    assert_eq!(world.world_items.len(), 5);
    assert_eq!(heights(&world), vec![0.25; 5]);
}

#[test]
fn on_action_queues_an_axe_swing_and_process_events_applies_it() {
    let mut game = GameState::init();
    game.on_action(1, 1);
    assert!(game.event_queue.is_empty());
    game.world = Some(world_with_tree(2, 3, 4));
    game.map_data = Some(stardew::map::MapWorldData { tiles: Grid::new(2, 3) });
    game.on_action(1, 1);
    assert_eq!(game.event_queue.len(), 1);
    match &game.event_queue[0] {
        WorldEvent::ItemUse { item, target } => {
            assert_eq!(*item, axe());
            assert_eq!(*target, TileObjectIndex(4));
        }
        other => panic!("unexpected event {:?}", other),
    }
    process_events(&mut game, &spot);
    assert!(game.event_queue.is_empty());
    let world = game.world.as_ref().unwrap();
    assert_eq!(world.get_tile_object_from_index(TileObjectIndex(4)).as_ref().unwrap().hp, 9);
}

#[test]
fn felled_tree_wood_lies_in_height_order() {
    let mut world = world_with_tree(1, 1, 0);
    world.set_tile_object_with_index(
        TileObjectIndex(0),
        stardew::tile_object::TileObject { hp: 1, kind: TreeFullyGrown::new().kind },
    );
    world.spawn_world_items(vec![wood(1)], vec![Position { x: 0, y: (0.5f32).to_bits() }]);
    let mut queue: VecDeque<WorldEvent> = VecDeque::new();
    queue.push_back(WorldEvent::ItemUse { item: axe(), target: TileObjectIndex(0) });
    let next = std::cell::Cell::new(0.0f32);
    let scatter = |tile: TilePos| {
        let y = next.get();
        next.set(if y > 0.0 { -y } else { 1.0 - y });
        Position { x: (tile.x as f32).to_bits(), y: y.to_bits() }
    };
    queue.process(&mut world, &scatter);
    assert!(queue.is_empty());
    assert_eq!(world.get_tile_object_from_index(TileObjectIndex(0)), &Some(TreeStump::new()));
    assert_eq!(world.world_items.len(), 13);
    let h = heights(&world);
    assert!(h.windows(2).all(|p| p[0] <= p[1]), "{:?}", h);
    assert_eq!(h.iter().filter(|y| **y == 0.5).count(), 1);
}
