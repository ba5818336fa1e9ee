use vstd::prelude::*;
use vstd::arithmetic::div_mod::lemma_fundamental_div_mod_converse;

use crate::game::GameState;
use crate::grid::Grid;
use crate::position::Position;
use crate::tile_object::{TileObject, TreeFullyGrown, fully_grown_tree};
use crate::world::World;

verus! {

pub enum MapType {
    Farm,
}

impl MapType {
    /// Path of the Tiled map file for this map.
    pub fn get_tiled_path(&self) -> (r: &'static str)
        ensures
            r == "tiled/farm.tmx",
    {
        match self {
            MapType::Farm => "tiled/farm.tmx",
        }
    }
}

/// What the game reads of a Tiled map: its size in tiles and its layers,
/// bottom first.
pub struct TiledMap {
    pub width: u32,
    pub height: u32,
    pub layers: Vec<TiledLayer>,
}

pub enum TiledLayer {
    Tiles(TiledTileLayer),
    /// Object, image and group layers, which hold no map tiles.
    Other,
}

/// A finite tile layer: `tiles[row * width + col]` is the tile at `(row, col)`.
pub struct TiledTileLayer {
    pub width: u32,
    pub height: u32,
    pub tiles: Vec<Option<TiledTile>>,
}

/// A tileset tile as the game reads it: the value of its `id` property.
pub struct TiledTile {
    pub id: Option<PropertyValue>,
}

pub enum PropertyValue {
    StringValue(String),
    /// Any value that is not a string.
    Other,
}

#[derive(Clone, Copy, PartialEq, Eq, Structural, Debug)]
pub enum MapLoadError {
    /// The tile at `(row, col)` of a layer has no or an unknown `id` property.
    InvalidTile { row: usize, col: usize },
    /// The tile at `(row, col)` of a layer falls outside the map.
    OutOfMap { row: usize, col: usize },
}

#[derive(Clone, PartialEq, Eq, Structural, Debug)]
pub enum Tile {
    Empty,
    Grass,
    Dirt { is_tilled: bool },
}

impl Default for Tile {
    fn default() -> (r: Tile)
        ensures
            r == Tile::Empty,
    {
        Tile::Empty
    }
}

pub struct MapWorldData {
    pub tiles: Grid<Tile>,
}

impl TiledMap {
    /// Each tile layer lists one entry per cell.
    pub open spec fn wf(&self) -> bool {
        forall|i: int|
            0 <= i < self.layers@.len() ==> (#[trigger] self.layers@[i] matches TiledLayer::Tiles(
                l,
            ) ==> l.tiles@.len() == l.width * l.height)
    }
}

/// The tile a Tiled tile id names.
pub open spec fn tile_for_id(id: Seq<char>) -> Option<Tile> {
    if id == "farm_grass"@ {
        Some(Tile::Grass)
    } else if id == "farm_dirt"@ {
        Some(Tile::Dirt { is_tilled: false })
    } else {
        None
    }
}

pub open spec fn tile_of(tile: TiledTile) -> Option<Tile> {
    match tile.id {
        Some(PropertyValue::StringValue(s)) => tile_for_id(s@),
        _ => None,
    }
}

/// The map's cells after placing the first `n` cells of `layer`, row by row,
/// into `cells` (a grid with `cols` columns), or the first error met.
pub open spec fn fill_layer(
    cells: Result<Seq<Tile>, MapLoadError>,
    cols: usize,
    layer: TiledTileLayer,
    n: nat,
) -> Result<Seq<Tile>, MapLoadError>
    decreases n,
{
    if n == 0 {
        cells
    } else {
        match fill_layer(cells, cols, layer, (n - 1) as nat) {
            Err(e) => Err(e),
            Ok(g) => {
                let k = n - 1;
                let row = k / (layer.width as int);
                let col = k % (layer.width as int);
                match layer.tiles@[k] {
                    None => Ok(g),
                    Some(t) => match tile_of(t) {
                        None => Err(MapLoadError::InvalidTile { row: row as usize, col: col as usize }),
                        Some(tile) => {
                            let index = row * cols + col;
                            if index < g.len() {
                                Ok(g.update(index, tile))
                            } else {
                                Err(MapLoadError::OutOfMap { row: row as usize, col: col as usize })
                            }
                        },
                    },
                }
            },
        }
    }
}

/// The map's cells after placing every tile layer, bottom first.
pub open spec fn fill_layers(
    cells: Result<Seq<Tile>, MapLoadError>,
    cols: usize,
    layers: Seq<TiledLayer>,
) -> Result<Seq<Tile>, MapLoadError>
    decreases layers.len(),
{
    if layers.len() == 0 {
        cells
    } else {
        let below = fill_layers(cells, cols, layers.drop_last());
        match layers.last() {
            TiledLayer::Tiles(l) => fill_layer(below, cols, l, (l.width * l.height) as nat),
            TiledLayer::Other => below,
        }
    }
}

/// The cells of a map: empty everywhere, then filled in from its layers.
pub open spec fn map_cells(map: TiledMap) -> Result<Seq<Tile>, MapLoadError> {
    fill_layers(
        Ok(Seq::new((map.height * map.width) as nat, |_i: int| Tile::Empty)),
        map.width as usize,
        map.layers@,
    )
}

/// Row-major facts for the cell `(row, col)` of a layer `width` wide.
proof fn lemma_row_major(width: int, height: int, row: int, col: int)
    requires
        0 <= row < height,
        0 <= col < width,
    ensures
        0 <= row * width + col < width * height,
        (row * width + col) / width == row,
        (row * width + col) % width == col,
        row * width + col + 1 == if col + 1 == width {
            (row + 1) * width
        } else {
            row * width + col + 1
        },
{
    assert(row * width + col < width * height) by (nonlinear_arith)
        requires
            0 <= row < height,
            0 <= col < width,
    ;
    assert(0 <= row * width) by (nonlinear_arith)
        requires
            0 <= row,
            0 <= width,
    ;
    assert((row + 1) * width == row * width + width) by (nonlinear_arith);
    lemma_fundamental_div_mod_converse(row * width + col, width, row, col);
}

/// `macroquad::rand::gen_range` on `i32`. It computes
/// `low + (high - low) * (rand() / 2^32)` in `f64` and truncates the result to
/// `i32`, where `rand()` is the next output of the global generator. For
/// `0 <= low < high <= 2^20` every step of that computation is exact, so the
/// result lies in `low..high`. Which value comes out depends on the
/// generator's state, and nothing more is claimed of it.
#[verifier::external_body]
fn gen_range_i32(low: i32, high: i32) -> (r: i32)
    requires
        0 <= low < high <= 0x10_0000,
    ensures
        low <= r < high,
{
    macroquad::rand::gen_range(low, high)
}

/// The Tiled tile id of a tile kind, if it has one.
fn get_tile_from_id(tile_id: &str) -> (r: Option<Tile>)
    ensures
        r == tile_for_id(tile_id@),
{
    let id = tile_id.to_owned();
    if id == "farm_grass".to_owned() {
        Some(Tile::Grass)
    } else if id == "farm_dirt".to_owned() {
        Some(Tile::Dirt { is_tilled: false })
    } else {
        None
    }
}

impl Tile {
    /// The tile that a Tiled tile stands for, read from its `id` property.
    pub fn from_tiled_tile(tile: &TiledTile) -> (r: Option<Tile>)
        ensures
            r == tile_of(*tile),
    {
        match &tile.id {
            Some(PropertyValue::StringValue(id)) => get_tile_from_id(id.as_str()),
            _ => None,
        }
    }

    // Actions
    /// Tills dirt; any other tile stays as it is.
    pub fn on_hoe(&mut self)
        ensures
            *final(self) == match *old(self) {
                Tile::Dirt { .. } => Tile::Dirt { is_tilled: true },
                other => other,
            },
    {
        match self {
            Tile::Dirt { is_tilled } => *is_tilled = true,
            _ => (),
        }
    }
}

impl MapWorldData {
    /// The map's tile grid: `height` rows of `width` tiles, empty but where a
    /// tile layer places a tile; later layers cover earlier ones.
    pub fn load(tiled_map: &TiledMap) -> (r: Result<MapWorldData, MapLoadError>)
        requires
            tiled_map.wf(),
            tiled_map.height * tiled_map.width <= usize::MAX,
        ensures
            match r {
                Ok(data) => {
                    &&& data.tiles.wf()
                    &&& data.tiles.rows() == tiled_map.height
                    &&& data.tiles.cols() == tiled_map.width
                    &&& map_cells(*tiled_map) == Ok::<Seq<Tile>, MapLoadError>(data.tiles@)
                },
                Err(e) => map_cells(*tiled_map) == Err::<Seq<Tile>, MapLoadError>(e),
            },
    {
        let rows = tiled_map.height as usize;
        let cols = tiled_map.width as usize;
        let mut grid: Grid<Tile> = Grid::new(rows, cols);
        let grid_len = rows * cols;
        proof {
            assert(grid@ =~= Seq::new((tiled_map.height * tiled_map.width) as nat, |_i: int| Tile::Empty))
                by {
                assert forall|i: int| 0 <= i < grid@.len() implies grid@[i] == Tile::Empty by {
                    assert(call_ensures(Tile::default, (), grid@[i]));
                }
            }
        }
        let layers = &tiled_map.layers;
        let mut li: usize = 0;
        while li < layers.len()
            invariant
                0 <= li <= layers@.len(),
                layers@ == tiled_map.layers@,
                tiled_map.wf(),
                grid.wf(),
                grid.rows() == rows,
                grid.cols() == cols,
                grid_len == rows * cols,
                rows == tiled_map.height,
                cols == tiled_map.width,
                map_cells(*tiled_map) == fill_layers(
                    Ok(Seq::new((tiled_map.height * tiled_map.width) as nat, |_i: int| Tile::Empty)),
                    cols,
                    layers@,
                ),
                fill_layers(
                    Ok(Seq::new((tiled_map.height * tiled_map.width) as nat, |_i: int| Tile::Empty)),
                    cols,
                    layers@.take(li as int),
                ) == Ok::<Seq<Tile>, MapLoadError>(grid@),
            decreases layers@.len() - li,
        {
            let ghost start = Ok::<Seq<Tile>, MapLoadError>(
                Seq::new((tiled_map.height * tiled_map.width) as nat, |_i: int| Tile::Empty),
            );
            proof {
                assert(layers@.take(li as int + 1).drop_last() =~= layers@.take(li as int));
            }
            match &layers[li] {
                TiledLayer::Tiles(layer) => {
                    let width = layer.width as usize;
                    let height = layer.height as usize;
                    proof {
                        assert(layer.tiles@.len() == layer.width * layer.height) by {
                            assert(layers@[li as int] matches TiledLayer::Tiles(l) && l == layer);
                        }
                    }
                    let mut row: usize = 0;
                    while row < height
                        invariant
                            0 <= li < layers@.len(),
                            layers@ == tiled_map.layers@,
                            layers@[li as int] == TiledLayer::Tiles(*layer),
                            start == Ok::<Seq<Tile>, MapLoadError>(
                                Seq::new((tiled_map.height * tiled_map.width) as nat, |_i: int| Tile::Empty),
                            ),
                            map_cells(*tiled_map) == fill_layers(start, cols, layers@),
                            cols == tiled_map.width,
                            0 <= row <= height,
                            width == layer.width,
                            height == layer.height,
                            layer.tiles@.len() == width * height,
                            grid.wf(),
                            grid.rows() == rows,
                            grid.cols() == cols,
                            grid_len == rows * cols,
                            fill_layer(
                                fill_layers(start, cols, layers@.take(li as int)),
                                cols,
                                *layer,
                                (row * width) as nat,
                            ) == Ok::<Seq<Tile>, MapLoadError>(grid@),
                        decreases height - row,
                    {
                        let mut col: usize = 0;
                        while col < width
                            invariant
                                0 <= li < layers@.len(),
                                layers@ == tiled_map.layers@,
                                layers@[li as int] == TiledLayer::Tiles(*layer),
                                start == Ok::<Seq<Tile>, MapLoadError>(
                                    Seq::new((tiled_map.height * tiled_map.width) as nat, |_i: int| Tile::Empty),
                                ),
                                map_cells(*tiled_map) == fill_layers(start, cols, layers@),
                                cols == tiled_map.width,
                                0 <= row < height,
                                0 <= col <= width,
                                width == layer.width,
                                height == layer.height,
                                layer.tiles@.len() == width * height,
                                grid.wf(),
                                grid.rows() == rows,
                                grid.cols() == cols,
                                grid_len == rows * cols,
                                fill_layer(
                                    fill_layers(start, cols, layers@.take(li as int)),
                                    cols,
                                    *layer,
                                    (row * width + col) as nat,
                                ) == Ok::<Seq<Tile>, MapLoadError>(grid@),
                            decreases width - col,
                        {
                            proof {
                                lemma_row_major(width as int, height as int, row as int, col as int);
                                assert(layer.tiles@.len() == layer.tiles.len());
                            }
                            let index = row * width + col;
                            let ghost k = index as int;
                            match &layer.tiles[index] {
                                Some(tiled_tile) => {
                                    match Tile::from_tiled_tile(tiled_tile) {
                                        Some(tile) => {
                                            let inside = match row.checked_mul(cols) {
                                                Some(p) => match p.checked_add(col) {
                                                    Some(ix) => ix < grid_len,
                                                    None => false,
                                                },
                                                None => false,
                                            };
                                            if inside {
                                                grid.set(row, col, tile);
                                            } else {
                                                proof {
                                                    assert(layers@.take(li as int + 1).drop_last()
                                                        =~= layers@.take(li as int));
                                                    assert(layers@.take(li as int + 1).last()
                                                        == layers@[li as int]);
                                                    assert(fill_layer(
                                                        fill_layers(start, cols, layers@.take(li as int)),
                                                        cols,
                                                        *layer,
                                                        (k + 1) as nat,
                                                    ) == Err::<Seq<Tile>, MapLoadError>(MapLoadError::OutOfMap { row, col }));
                                                    lemma_fill_layer_err(
                                                        fill_layers(start, cols, layers@.take(li as int)),
                                                        cols,
                                                        *layer,
                                                        (k + 1) as nat,
                                                        (width * height) as nat,
                                                    );
                                                    lemma_fill_layers_err(
                                                        start,
                                                        cols,
                                                        layers@,
                                                        li as int,
                                                    );
                                                }
                                                return Err(MapLoadError::OutOfMap { row, col });
                                            }
                                        },
                                        None => {
                                            proof {
                                                assert(layers@.take(li as int + 1).drop_last()
                                                    =~= layers@.take(li as int));
                                                assert(layers@.take(li as int + 1).last()
                                                    == layers@[li as int]);
                                                assert(fill_layer(
                                                    fill_layers(start, cols, layers@.take(li as int)),
                                                    cols,
                                                    *layer,
                                                    (k + 1) as nat,
                                                ) == Err::<Seq<Tile>, MapLoadError>(MapLoadError::InvalidTile { row, col }));
                                                lemma_fill_layer_err(
                                                    fill_layers(start, cols, layers@.take(li as int)),
                                                    cols,
                                                    *layer,
                                                    (k + 1) as nat,
                                                    (width * height) as nat,
                                                );
                                                lemma_fill_layers_err(start, cols, layers@, li as int);
                                            }
                                            return Err(MapLoadError::InvalidTile { row, col });
                                        },
                                    }
                                },
                                None => {},
                            }
                            col = col + 1;
                        }
                        proof {
                            assert(row * width + width == (row + 1) * width) by (nonlinear_arith);
                        }
                        row = row + 1;
                    }
                    proof {
                        assert(height * width == width * height) by (nonlinear_arith);
                    }
                },
                TiledLayer::Other => {},
            }
            li = li + 1;
        }
        proof {
            assert(layers@.take(layers@.len() as int) =~= layers@);
        }
        Ok(MapWorldData { tiles: grid })
    }

    /// A world of `height` rows and `width` columns holding a fully grown
    /// tree on each tile whose roll is 0 (`rolls[row * width + col]`), and
    /// nothing else.
    pub fn plant_trees(height: usize, width: usize, rolls: &Vec<i32>) -> (r: World)
        requires
            height * width <= usize::MAX,
            rolls@.len() == height * width,
        ensures
            r.wf(),
            r.tile_objects.rows() == height,
            r.tile_objects.cols() == width,
            forall|i: int|
                0 <= i < r.tile_objects@.len() ==> #[trigger] r.tile_objects@[i] == if rolls@[i]
                    == 0 {
                    Some(fully_grown_tree())
                } else {
                    None
                },
            r.world_items@.len() == 0,
    {
        let mut tile_objects: Grid<Option<TileObject>> = Grid::new(height, width);
        let len = height * width;
        let mut i: usize = 0;
        while i < len
            invariant
                len == height * width,
                rolls@.len() == len,
                tile_objects.wf(),
                tile_objects.rows() == height,
                tile_objects.cols() == width,
                0 <= i <= len,
                forall|j: int|
                    0 <= j < i ==> #[trigger] tile_objects@[j] == if rolls@[j] == 0 {
                        Some(fully_grown_tree())
                    } else {
                        None
                    },
                forall|j: int|
                    i <= j < len ==> call_ensures(
                        Option::<TileObject>::default,
                        (),
                        #[trigger] tile_objects@[j],
                    ),
            decreases len - i,
        {
            proof {
                assert(call_ensures(Option::<TileObject>::default, (), tile_objects@[i as int]));
            }
            if rolls[i] == 0 {
                tile_objects.set_by_index(i, Some(TreeFullyGrown::new()));
            } else {
                tile_objects.set_by_index(i, None);
            }
            i = i + 1;
        }
        let world_items = Vec::new();
        World { tile_objects, world_items }
    }

    /// A world the size of the map with a fully grown tree on about one tile
    /// in a hundred, chosen at random.
    pub fn load_world(tiled_map: &TiledMap) -> (r: World)
        requires
            tiled_map.height * tiled_map.width <= usize::MAX,
        ensures
            r.wf(),
            r.tile_objects.rows() == tiled_map.height,
            r.tile_objects.cols() == tiled_map.width,
            forall|i: int|
                0 <= i < r.tile_objects@.len() ==> #[trigger] r.tile_objects@[i] == Some(
                    fully_grown_tree(),
                ) || r.tile_objects@[i] is None,
            r.world_items@.len() == 0,
    {
        let width = tiled_map.width as usize;
        let height = tiled_map.height as usize;
        let len = height * width;
        // Randomly generate trees
        let mut rolls: Vec<i32> = Vec::new();
        let mut i: usize = 0;
        while i < len
            invariant
                0 <= i <= len,
                rolls@.len() == i,
            decreases len - i,
        {
            rolls.push(gen_range_i32(0, 100));
            i = i + 1;
        }
        Self::plant_trees(height, width, &rolls)
    }
}

proof fn lemma_fill_layer_err(
    cells: Result<Seq<Tile>, MapLoadError>,
    cols: usize,
    layer: TiledTileLayer,
    n: nat,
    m: nat,
)
    requires
        n <= m,
        fill_layer(cells, cols, layer, n) is Err,
    ensures
        fill_layer(cells, cols, layer, m) == fill_layer(cells, cols, layer, n),
    decreases m - n,
{
    if n < m {
        lemma_fill_layer_err(cells, cols, layer, n, (m - 1) as nat);
    }
}

proof fn lemma_fill_layers_err(
    start: Result<Seq<Tile>, MapLoadError>,
    cols: usize,
    layers: Seq<TiledLayer>,
    li: int,
)
    requires
        0 <= li < layers.len(),
        fill_layers(start, cols, layers.take(li + 1)) is Err,
    ensures
        fill_layers(start, cols, layers) == fill_layers(start, cols, layers.take(li + 1)),
    decreases layers.len() - li,
{
    if li + 1 < layers.len() {
        assert(layers.drop_last().take(li + 1) =~= layers.take(li + 1));
        lemma_fill_layers_err(start, cols, layers.drop_last(), li);
        if fill_layers(start, cols, layers.drop_last()) is Err {
            let l = layers.last();
            match l {
                TiledLayer::Tiles(t) => {
                    lemma_fill_layer_err(
                        fill_layers(start, cols, layers.drop_last()),
                        cols,
                        t,
                        0,
                        (t.width * t.height) as nat,
                    );
                },
                TiledLayer::Other => {},
            }
        }
    } else {
        assert(layers.take(li + 1) =~= layers);
    }
}

/// Cell `k` of `layer` (row-major) holds a tile, and reading the layer into a
/// grid with `cols` columns puts that tile at cell `c` of the grid.
pub open spec fn layer_places(layer: TiledTileLayer, cols: usize, k: int, c: int) -> bool {
    &&& 0 <= k < layer.width * layer.height
    &&& layer.tiles@[k] is Some
    &&& (k / (layer.width as int)) * cols + k % (layer.width as int) == c
}

/// Cell `k` of layer `li` places a tile at cell `c` of a grid with `cols`
/// columns.
pub open spec fn layers_place(layers: Seq<TiledLayer>, cols: usize, li: int, k: int, c: int) -> bool {
    &&& 0 <= li < layers.len()
    &&& layers[li] matches TiledLayer::Tiles(l) && layer_places(l, cols, k, c)
}

/// Cell `k` of layer `li` of `map` places a tile at cell `c` of the map.
pub open spec fn map_places(map: TiledMap, li: int, k: int, c: int) -> bool {
    layers_place(map.layers@, map.width as usize, li, k, c)
}

/// The tile that cell `k` of layer `li` of `map` holds.
pub open spec fn map_tile(map: TiledMap, li: int, k: int) -> TiledTile {
    map.layers@[li]->Tiles_0.tiles@[k]->Some_0
}

/// Reading a layer into a grid that already failed leaves the failure.
proof fn lemma_fill_layer_keeps_err(e: MapLoadError, cols: usize, layer: TiledTileLayer, n: nat)
    ensures
        fill_layer(Err(e), cols, layer, n) == Err::<Seq<Tile>, MapLoadError>(e),
    decreases n,
{
    if n > 0 {
        lemma_fill_layer_keeps_err(e, cols, layer, (n - 1) as nat);
    }
}

/// Reading the first `n` cells of a layer keeps the grid's length; a grid
/// cell that none of them places keeps its tile.
proof fn lemma_fill_layer_untouched(
    cells: Seq<Tile>,
    cols: usize,
    layer: TiledTileLayer,
    n: nat,
    c: int,
)
    requires
        n <= layer.width * layer.height,
        fill_layer(Ok(cells), cols, layer, n) is Ok,
    ensures
        fill_layer(Ok(cells), cols, layer, n)->Ok_0.len() == cells.len(),
        0 <= c < cells.len() && (forall|k: int| 0 <= k < n ==> !#[trigger] layer_places(layer, cols, k, c))
            ==> fill_layer(Ok(cells), cols, layer, n)->Ok_0[c] == cells[c],
    decreases n,
{
    if n > 0 {
        let m = (n - 1) as nat;
        lemma_fill_layer_step(cells, cols, layer, n);
        lemma_fill_layer_untouched(cells, cols, layer, m, c);
        if forall|k: int| 0 <= k < n ==> !#[trigger] layer_places(layer, cols, k, c) {
            assert(!layer_places(layer, cols, m as int, c));
        }
    }
}

/// One more cell of a layer: the grid read so far did not fail, and the
/// cell either places its tile at its grid cell or changes nothing.
proof fn lemma_fill_layer_step(cells: Seq<Tile>, cols: usize, layer: TiledTileLayer, n: nat)
    requires
        0 < n <= layer.width * layer.height,
        fill_layer(Ok(cells), cols, layer, n) is Ok,
    ensures
        ({
            let m = (n - 1) as nat;
            let before = fill_layer(Ok(cells), cols, layer, m);
            let after = fill_layer(Ok(cells), cols, layer, n)->Ok_0;
            let k = m as int;
            let c = (k / (layer.width as int)) * cols + k % (layer.width as int);
            &&& before is Ok
            &&& after.len() == before->Ok_0.len()
            &&& if layer_places(layer, cols, k, c) {
                &&& 0 <= c < after.len()
                &&& Some(after[c]) == tile_of(layer.tiles@[k]->Some_0)
                &&& forall|d: int| 0 <= d < after.len() && d != c ==> #[trigger] after[d] == before->Ok_0[d]
            } else {
                after == before->Ok_0
            }
        }),
{
    let m = (n - 1) as nat;
    let before = fill_layer(Ok(cells), cols, layer, m);
    let k = m as int;
    let row = k / (layer.width as int);
    let col = k % (layer.width as int);
    let c = row * cols + col;
    assert(layer.width > 0 && 0 <= row * cols) by (nonlinear_arith)
        requires
            0 <= k < layer.width * layer.height,
            row == k / (layer.width as int),
            0 <= cols,
    ;
    match before {
        Err(e) => {
            assert(fill_layer(Ok(cells), cols, layer, n) == Err::<Seq<Tile>, MapLoadError>(e));
        },
        Ok(g) => {
            let after = fill_layer(Ok(cells), cols, layer, n)->Ok_0;
            match layer.tiles@[k] {
                None => {
                    assert(!layer_places(layer, cols, k, c));
                    assert(after == g);
                },
                Some(t) => match tile_of(t) {
                    None => {},
                    Some(tile) => {
                        assert(c < g.len());
                        assert(after == g.update(c, tile));
                        assert(layer_places(layer, cols, k, c));
                        assert(after[c] == tile);
                    },
                },
            }
        },
    }
}

/// Reading the first `n` cells of a layer leaves at grid cell `c` the tile of
/// the last of them that places one there.
proof fn lemma_fill_layer_last(
    cells: Seq<Tile>,
    cols: usize,
    layer: TiledTileLayer,
    n: nat,
    c: int,
    k: int,
)
    requires
        n <= layer.width * layer.height,
        fill_layer(Ok(cells), cols, layer, n) is Ok,
        0 <= k < n,
        layer_places(layer, cols, k, c),
        forall|k2: int| k < k2 < n ==> !#[trigger] layer_places(layer, cols, k2, c),
    ensures
        0 <= c < cells.len(),
        Some(fill_layer(Ok(cells), cols, layer, n)->Ok_0[c]) == tile_of(layer.tiles@[k]->Some_0),
    decreases n,
{
    let m = (n - 1) as nat;
    lemma_fill_layer_step(cells, cols, layer, n);
    lemma_fill_layer_untouched(cells, cols, layer, m, c);
    if k < m {
        lemma_fill_layer_last(cells, cols, layer, m, c, k);
        assert(!layer_places(layer, cols, m as int, c));
    }
}

/// Reading the layers below the top one did not fail when reading them all
/// did not.
proof fn lemma_fill_layers_below(cells: Seq<Tile>, cols: usize, layers: Seq<TiledLayer>)
    requires
        layers.len() > 0,
        fill_layers(Ok(cells), cols, layers) is Ok,
    ensures
        fill_layers(Ok(cells), cols, layers.drop_last()) is Ok,
{
    let below = fill_layers(Ok(cells), cols, layers.drop_last());
    if below is Err {
        if let TiledLayer::Tiles(l) = layers.last() {
            lemma_fill_layer_keeps_err(below->Err_0, cols, l, (l.width * l.height) as nat);
        }
    }
}

/// Reading all layers keeps the grid's length; a grid cell at which no layer
/// places a tile keeps its tile.
proof fn lemma_fill_layers_untouched(
    cells: Seq<Tile>,
    cols: usize,
    layers: Seq<TiledLayer>,
    c: int,
)
    requires
        fill_layers(Ok(cells), cols, layers) is Ok,
    ensures
        fill_layers(Ok(cells), cols, layers)->Ok_0.len() == cells.len(),
        0 <= c < cells.len() && (forall|li: int, k: int|
            !#[trigger] layers_place(layers, cols, li, k, c)) ==> fill_layers(
            Ok(cells),
            cols,
            layers,
        )->Ok_0[c] == cells[c],
    decreases layers.len(),
{
    if layers.len() > 0 {
        let rest = layers.drop_last();
        lemma_fill_layers_below(cells, cols, layers);
        lemma_fill_layers_untouched(cells, cols, rest, c);
        let b = fill_layers(Ok(cells), cols, rest)->Ok_0;
        let top = layers.len() - 1;
        if let TiledLayer::Tiles(l) = layers.last() {
            lemma_fill_layer_untouched(b, cols, l, (l.width * l.height) as nat, c);
        }
        if 0 <= c < cells.len() && (forall|li: int, k: int|
            !#[trigger] layers_place(layers, cols, li, k, c)) {
            assert forall|li: int, k: int| !#[trigger] layers_place(rest, cols, li, k, c) by {
                if 0 <= li < rest.len() {
                    assert(rest[li] == layers[li]);
                    assert(!layers_place(layers, cols, li, k, c));
                }
            }
            if let TiledLayer::Tiles(l) = layers.last() {
                assert forall|k: int| 0 <= k < l.width * l.height implies !#[trigger] layer_places(
                    l,
                    cols,
                    k,
                    c,
                ) by {
                    assert(!layers_place(layers, cols, top, k, c));
                }
            }
        }
    }
}

/// After reading all layers, a grid cell holds the tile of the last cell, in
/// layer order and then row-major order, that places one there.
proof fn lemma_fill_layers_last(
    cells: Seq<Tile>,
    cols: usize,
    layers: Seq<TiledLayer>,
    c: int,
    li: int,
    k: int,
)
    requires
        fill_layers(Ok(cells), cols, layers) is Ok,
        layers_place(layers, cols, li, k, c),
        forall|li2: int, k2: int|
            #[trigger] layers_place(layers, cols, li2, k2, c) ==> li2 < li || (li2 == li && k2 <= k),
    ensures
        0 <= c < cells.len(),
        Some(fill_layers(Ok(cells), cols, layers)->Ok_0[c]) == tile_of(
            layers[li]->Tiles_0.tiles@[k]->Some_0,
        ),
    decreases layers.len(),
{
    let rest = layers.drop_last();
    let top = layers.len() - 1;
    lemma_fill_layers_below(cells, cols, layers);
    lemma_fill_layers_untouched(cells, cols, rest, c);
    let b = fill_layers(Ok(cells), cols, rest)->Ok_0;
    if li == top {
        let l = layers[top]->Tiles_0;
        assert(layers.last() == layers[top]);
        assert forall|k2: int| k < k2 < l.width * l.height implies !#[trigger] layer_places(
            l,
            cols,
            k2,
            c,
        ) by {
            if layer_places(l, cols, k2, c) {
                assert(layers_place(layers, cols, top, k2, c));
            }
        }
        lemma_fill_layer_last(b, cols, l, (l.width * l.height) as nat, c, k);
    } else {
        assert(rest[li] == layers[li]);
        assert forall|li2: int, k2: int| #[trigger] layers_place(rest, cols, li2, k2, c) implies li2
            < li || (li2 == li && k2 <= k) by {
            assert(rest[li2] == layers[li2]);
            assert(layers_place(layers, cols, li2, k2, c));
        }
        lemma_fill_layers_last(cells, cols, rest, c, li, k);
        if let TiledLayer::Tiles(l) = layers.last() {
            assert forall|k2: int| 0 <= k2 < l.width * l.height implies !#[trigger] layer_places(
                l,
                cols,
                k2,
                c,
            ) by {
                if layer_places(l, cols, k2, c) {
                    assert(layers_place(layers, cols, top, k2, c));
                }
            }
            lemma_fill_layer_untouched(b, cols, l, (l.width * l.height) as nat, c);
        }
    }
}

/// Later tile layers cover earlier ones: in the cells of a loaded map, cell
/// `c` holds the tile of the last layer cell that places a tile there,
/// taking the layers bottom first and each layer's cells row by row.
pub proof fn lemma_load_top_layer_wins(map: TiledMap, cells: Seq<Tile>, c: int, li: int, k: int)
    requires
        map_cells(map) == Ok::<Seq<Tile>, MapLoadError>(cells),
        map_places(map, li, k, c),
        forall|li2: int, k2: int|
            #[trigger] map_places(map, li2, k2, c) ==> li2 < li || (li2 == li && k2 <= k),
    ensures
        cells.len() == map.height * map.width,
        0 <= c < cells.len(),
        Some(cells[c]) == tile_of(map_tile(map, li, k)),
{
    let start = Seq::new((map.height * map.width) as nat, |_i: int| Tile::Empty);
    assert forall|li2: int, k2: int|
        #[trigger] layers_place(map.layers@, map.width as usize, li2, k2, c) implies li2 < li || (
        li2 == li && k2 <= k) by {
        assert(map_places(map, li2, k2, c));
    }
    lemma_fill_layers_untouched(start, map.width as usize, map.layers@, c);
    lemma_fill_layers_last(start, map.width as usize, map.layers@, c, li, k);
}

/// A cell of a loaded map at which no tile layer places a tile is empty.
pub proof fn lemma_load_unplaced_empty(map: TiledMap, cells: Seq<Tile>, c: int)
    requires
        map_cells(map) == Ok::<Seq<Tile>, MapLoadError>(cells),
        0 <= c < cells.len(),
        forall|li: int, k: int| !#[trigger] map_places(map, li, k, c),
    ensures
        cells.len() == map.height * map.width,
        cells[c] == Tile::Empty,
{
    let start = Seq::new((map.height * map.width) as nat, |_i: int| Tile::Empty);
    assert forall|li: int, k: int| !#[trigger] layers_place(map.layers@, map.width as usize, li, k, c) by {
        assert(!map_places(map, li, k, c));
    }
    lemma_fill_layers_untouched(start, map.width as usize, map.layers@, c);
}

/// Builds the tile grid and the world for `tiled_map` and puts them, with
/// the player at the origin, into `game_state`.
pub fn load_map(tiled_map: &TiledMap, game_state: &mut GameState) -> (r: Result<(), MapLoadError>)
    requires
        tiled_map.wf(),
        tiled_map.height * tiled_map.width <= usize::MAX,
    ensures
        match r {
            Ok(()) => {
                &&& final(game_state).map_data matches Some(data) && data.tiles.wf()
                    && data.tiles.rows() == tiled_map.height && data.tiles.cols() == tiled_map.width
                    && map_cells(*tiled_map) == Ok::<Seq<Tile>, MapLoadError>(data.tiles@)
                &&& final(game_state).world matches Some(world) && world.wf()
                    && world.tile_objects.rows() == tiled_map.height
                    && world.tile_objects.cols() == tiled_map.width && world.world_items@.len() == 0
                    && forall|i: int|
                    0 <= i < world.tile_objects@.len() ==> #[trigger] world.tile_objects@[i]
                        == Some(fully_grown_tree()) || world.tile_objects@[i] is None
                &&& final(game_state).player.pos == (Position { x: 0, y: 0 })
                &&& final(game_state).player.inventory@ == old(game_state).player.inventory@
                &&& final(game_state).event_queue@ == old(game_state).event_queue@
            },
            Err(e) => {
                &&& map_cells(*tiled_map) == Err::<Seq<Tile>, MapLoadError>(e)
                &&& *final(game_state) == *old(game_state)
            },
        },
{
    let map_world_data = match MapWorldData::load(tiled_map) {
        Ok(data) => data,
        Err(e) => {
            return Err(e);
        },
    };
    let world_data = MapWorldData::load_world(tiled_map);
    game_state.map_data = Some(map_world_data);
    game_state.player.pos = Position::zero();
    game_state.world = Some(world_data);
    Ok(())
}

} // verus!
