use stardew::game::GameState;
use stardew::grid::Grid;
use stardew::input::{zoom_in, zoom_out};
use stardew::item::{Axe, Item, ItemResource, ItemStack, ItemTool, WorldItemIndex};
use stardew::map::{
    load_map, MapLoadError, MapType, MapWorldData, PropertyValue, Tile, TiledLayer, TiledMap,
    TiledTile, TiledTileLayer,
};
use stardew::player::{Inventory, Player};
use stardew::position::Position;
use stardew::render::{
    choose_render_object, draw_order, item_texture_key, tile_object_texture_key, tile_texture_key,
    RenderObject,
};
use stardew::system::{can_pickup_all, pickup_world_items};
use stardew::tile_object::{TreeFullyGrown, TreeStump};
use stardew::world::World;

fn wood(count: u32) -> ItemStack {
    ItemStack { item: Item::Resource(ItemResource::Wood), count }
}

fn at(x: f32, y: f32) -> Position {
    Position { x: x.to_bits(), y: y.to_bits() }
}

fn named(id: &str) -> Option<TiledTile> {
    Some(TiledTile { id: Some(PropertyValue::StringValue(id.to_string())) })
}

fn world_with_items(count: u32) -> World {
    let mut world = World {
        tile_objects: Grid::new(1, 1),
        world_items: Vec::new(),
    };
    let positions = (0..count).map(|i| at(0.0, i as f32)).collect();
    world.spawn_world_items(vec![wood(count)], positions);
    world
}

#[test]
fn inventory_merges_stacks_of_the_same_item() {
    let mut inventory = Inventory::new();
    assert_eq!(inventory.iter().count(), 0);
    inventory.add_items(wood(3));
    inventory.add_items(ItemStack { item: Item::Tool(ItemTool::Axe(Axe {})), count: 1 });
    inventory.add_items(wood(4));
    let stacks: Vec<ItemStack> = inventory.iter().copied().collect();
    assert_eq!(
        stacks,
        vec![wood(7), ItemStack { item: Item::Tool(ItemTool::Axe(Axe {})), count: 1 }]
    );
}

#[test]
fn picking_up_moves_an_item_into_the_inventory() {
    let mut player = Player::new();
    assert_eq!(player.pos, at(0.0, 0.0));
    let mut world = world_with_items(2);
    player.pickup_world_item(&mut world, WorldItemIndex(1));
    assert_eq!(world.world_items.len(), 1);
    assert_eq!(world.world_items[0].pos, at(0.0, 0.0));
    assert_eq!(player.inventory.iter().copied().collect::<Vec<_>>(), vec![wood(1)]);
}

#[test]
fn pickup_world_items_takes_indices_in_turn() {
    let mut game = GameState::init();
    game.world = Some(world_with_items(4));
    // Index 1 is taken from the list as it is after index 0 was removed.
    pickup_world_items(&mut game, vec![WorldItemIndex(0), WorldItemIndex(1)]);
    let world = game.world.as_ref().unwrap();
    let heights: Vec<f32> = world.world_items.iter().map(|w| f32::from_bits(w.pos.y)).collect();
    assert_eq!(heights, vec![1.0, 3.0]);
    assert_eq!(game.player.inventory.iter().copied().collect::<Vec<_>>(), vec![wood(2)]);
}

#[test]
fn tiled_tiles_map_to_game_tiles() {
    assert_eq!(Tile::from_tiled_tile(&named("farm_grass").unwrap()), Some(Tile::Grass));
    assert_eq!(
        Tile::from_tiled_tile(&named("farm_dirt").unwrap()),
        Some(Tile::Dirt { is_tilled: false })
    );
    assert_eq!(Tile::from_tiled_tile(&named("farm_water").unwrap()), None);
    assert_eq!(Tile::from_tiled_tile(&TiledTile { id: None }), None);
    assert_eq!(Tile::from_tiled_tile(&TiledTile { id: Some(PropertyValue::Other) }), None);
}

#[test]
fn hoeing_tills_dirt_only() {
    let mut dirt = Tile::Dirt { is_tilled: false };
    dirt.on_hoe();
    assert_eq!(dirt, Tile::Dirt { is_tilled: true });
    dirt.on_hoe();
    assert_eq!(dirt, Tile::Dirt { is_tilled: true });
    let mut grass = Tile::Grass;
    grass.on_hoe();
    assert_eq!(grass, Tile::Grass);
    let mut empty = Tile::default();
    empty.on_hoe();
    assert_eq!(empty, Tile::Empty);
}

fn small_map() -> TiledMap {
    TiledMap {
        width: 3,
        height: 2,
        layers: vec![
            TiledLayer::Tiles(TiledTileLayer {
                width: 3,
                height: 2,
                tiles: vec![
                    named("farm_grass"),
                    named("farm_grass"),
                    None,
                    named("farm_dirt"),
                    None,
                    None,
                ],
            }),
            TiledLayer::Other,
            TiledLayer::Tiles(TiledTileLayer {
                width: 3,
                height: 2,
                tiles: vec![None, named("farm_dirt"), None, None, None, named("farm_grass")],
            }),
        ],
    }
}

#[test]
fn map_layers_fill_the_tile_grid() {
    let data = MapWorldData::load(&small_map()).unwrap();
    assert_eq!(data.tiles.rows(), 2);
    assert_eq!(data.tiles.cols(), 3);
    let expected = [
        Tile::Grass,
        Tile::Dirt { is_tilled: false },
        Tile::Empty,
        Tile::Dirt { is_tilled: false },
        Tile::Empty,
        Tile::Grass,
    ];
    for (i, tile) in expected.iter().enumerate() {
        assert_eq!(data.tiles.get_by_index(i), tile);
    }
}

#[test]
fn map_with_an_unknown_tile_is_refused() {
    let mut map = small_map();
    map.layers.push(TiledLayer::Tiles(TiledTileLayer {
        width: 3,
        height: 2,
        tiles: vec![None, None, None, None, named("lava"), None],
    }));
    assert_eq!(MapWorldData::load(&map).err(), Some(MapLoadError::InvalidTile { row: 1, col: 1 }));
}

#[test]
fn layer_larger_than_the_map_is_refused() {
    let map = TiledMap {
        width: 1,
        height: 1,
        layers: vec![TiledLayer::Tiles(TiledTileLayer {
            width: 1,
            height: 2,
            tiles: vec![named("farm_grass"), named("farm_dirt")],
        })],
    };
    assert_eq!(MapWorldData::load(&map).err(), Some(MapLoadError::OutOfMap { row: 1, col: 0 }));
}

#[test]
fn trees_stand_where_the_roll_is_zero() {
    let world = MapWorldData::plant_trees(2, 2, &vec![0, 5, 99, 0]);
    assert_eq!(world.tile_objects.get_by_index(0), &Some(TreeFullyGrown::new()));
    assert_eq!(world.tile_objects.get_by_index(1), &None);
    assert_eq!(world.tile_objects.get_by_index(2), &None);
    assert_eq!(world.tile_objects.get_by_index(3), &Some(TreeFullyGrown::new()));
    assert!(world.world_items.is_empty());
}

#[test]
fn random_world_has_only_trees() {
    let map = small_map();
    let world = MapWorldData::load_world(&map);
    assert_eq!(world.tile_objects.rows(), 2);
    assert_eq!(world.tile_objects.cols(), 3);
    for i in 0..6 {
        let tile = world.tile_objects.get_by_index(i);
        assert!(tile.is_none() || tile == &Some(TreeFullyGrown::new()));
    }
}

#[test]
fn load_map_installs_map_and_world() {
    let mut game = GameState::init();
    game.player.pos = at(3.0, 4.0);
    load_map(&small_map(), &mut game).unwrap();
    assert_eq!(game.player.pos, at(0.0, 0.0));
    assert_eq!(game.map_data.as_ref().unwrap().tiles.cols(), 3);
    assert_eq!(game.world.as_ref().unwrap().tile_objects.rows(), 2);
    assert_eq!(MapType::Farm.get_tiled_path(), "tiled/farm.tmx");
}

#[test]
fn texture_keys() {
    let key = tile_texture_key(&Tile::Dirt { is_tilled: true }).unwrap();
    assert_eq!((key.tileset, key.id), ("farm", 2));
    let key = tile_texture_key(&Tile::Grass).unwrap();
    assert_eq!((key.tileset, key.id), ("farm", 0));
    assert!(tile_texture_key(&Tile::Empty).is_none());
    let key = tile_object_texture_key(&TreeStump::new());
    assert_eq!((key.tileset, key.id), ("objects", 1));
    let key = tile_object_texture_key(&TreeFullyGrown::new());
    assert_eq!((key.tileset, key.id), ("objects", 0));
    let key = item_texture_key(&Item::Resource(ItemResource::Wood)).unwrap();
    assert_eq!((key.tileset, key.id), ("items", 0));
    assert!(item_texture_key(&Item::Tool(ItemTool::Hoe)).is_none());
}

#[test]
fn draw_order_goes_from_top_to_bottom() {
    let b = |y: f32| Some(y.to_bits());
    assert_eq!(choose_render_object(b(2.0), b(1.5), b(3.0)), Some(RenderObject::WorldItem));
    assert_eq!(choose_render_object(b(2.0), b(2.0), b(3.0)), Some(RenderObject::TileObject));
    assert_eq!(choose_render_object(b(2.0), b(2.5), b(1.0)), Some(RenderObject::PlayerCharacter));
    assert_eq!(choose_render_object(None, None, b(1.0)), Some(RenderObject::PlayerCharacter));
    assert_eq!(choose_render_object(None, b(7.0), None), Some(RenderObject::WorldItem));
    assert_eq!(choose_render_object(None, None, None), None);
}

#[test]
fn zoom_stays_at_least_one() {
    assert_eq!(zoom_in(1), 2);
    assert_eq!(zoom_out(2), 1);
    assert_eq!(zoom_out(1), 1);
    assert_eq!(zoom_out(zoom_in(5)), 5);
}

#[test]
fn random_trees_are_rare_but_present() {
    macroquad::rand::srand(7);
    let map = TiledMap { width: 100, height: 100, layers: Vec::new() };
    let world = MapWorldData::load_world(&map);
    let trees = (0..10_000)
        .filter(|i| world.tile_objects.get_by_index(*i).is_some())
        .count();
    assert!(trees > 0, "no tree at all");
    assert!(trees < 500, "{} trees", trees);
}

#[test]
fn draw_order_merges_by_height() {
    let ys = |v: &[f32]| v.iter().map(|y| y.to_bits()).collect::<Vec<u32>>();
    let order = draw_order(&ys(&[0.0, 2.0, 2.0]), &ys(&[-1.0, 2.0, 5.0]), (1.0f32).to_bits());
    let (t, w, p) = (RenderObject::TileObject, RenderObject::WorldItem, RenderObject::PlayerCharacter);
    assert_eq!(order, vec![w, t, p, t, t, w, w]);
    assert_eq!(draw_order(&vec![], &vec![], 0), vec![p]);
}

#[test]
fn pickup_feasibility_is_decided() {
    let world = world_with_items(3);
    let inventory = Inventory::new();
    assert!(can_pickup_all(&inventory, &world.world_items, &vec![WorldItemIndex(0), WorldItemIndex(1)]));
    assert!(!can_pickup_all(&inventory, &world.world_items, &vec![WorldItemIndex(1), WorldItemIndex(2)]));
    assert!(can_pickup_all(&inventory, &world.world_items, &vec![]));
    let mut full = Inventory::new();
    full.add_items(ItemStack { item: Item::Resource(ItemResource::Wood), count: u32::MAX });
    assert!(!can_pickup_all(&full, &world.world_items, &vec![WorldItemIndex(0)]));
}
