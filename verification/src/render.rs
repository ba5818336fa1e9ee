use vstd::prelude::*;

use crate::item::{Item, ItemResource};
use crate::map::Tile;
use crate::position::{f32_is_nan, f32_lt, f32_rank, lt};
use crate::tile_object::{TileObject, TileObjectKind, TileObjectTreeKind};

verus! {

/// Where a texture is found: the tileset's name and the tile id in it.
#[derive(Clone, Copy, Debug)]
pub struct TextureKey {
    pub tileset: &'static str,
    pub id: u32,
}

/// The three kinds of things drawn over the map, back to front.
#[derive(Clone, Copy, PartialEq, Eq, Structural, Debug)]
pub enum RenderObject {
    TileObject,
    WorldItem,
    PlayerCharacter,
}

/// Texture of a map tile: grass, dirt and tilled dirt are tiles 0, 1 and 2
/// of the `farm` tileset; an empty tile has none.
pub fn tile_texture_key(tile: &Tile) -> (r: Option<TextureKey>)
    ensures
        match *tile {
            Tile::Grass => r matches Some(k) && k.tileset == "farm" && k.id == 0,
            Tile::Dirt { is_tilled: false } => r matches Some(k) && k.tileset == "farm" && k.id == 1,
            Tile::Dirt { is_tilled: true } => r matches Some(k) && k.tileset == "farm" && k.id == 2,
            Tile::Empty => r is None,
        },
{
    match tile {
        Tile::Grass => Some(TextureKey { tileset: "farm", id: 0 }),
        Tile::Dirt { is_tilled: false } => Some(TextureKey { tileset: "farm", id: 1 }),
        Tile::Dirt { is_tilled: true } => Some(TextureKey { tileset: "farm", id: 2 }),
        _ => None,
    }
}

/// Texture of an object standing on a tile: a grown tree is tile 0 and a
/// stump tile 1 of the `objects` textures.
pub fn tile_object_texture_key(tile_object: &TileObject) -> (r: TextureKey)
    ensures
        r.tileset == "objects",
        r.id == match tile_object.kind {
            TileObjectKind::Tree(tree) => match tree.kind {
                TileObjectTreeKind::TreeFullyGrown(_) => 0u32,
                TileObjectTreeKind::TreeStump(_) => 1u32,
            },
        },
{
    match &tile_object.kind {
        TileObjectKind::Tree(tree) => match tree.kind {
            TileObjectTreeKind::TreeFullyGrown(_) => TextureKey { tileset: "objects", id: 0 },
            TileObjectTreeKind::TreeStump(_) => TextureKey { tileset: "objects", id: 1 },
        },
    }
}

/// Texture of an item: wood is tile 0 of the `items` textures; tools have none.
pub fn item_texture_key(item: &Item) -> (r: Option<TextureKey>)
    ensures
        match *item {
            Item::Resource(ItemResource::Wood) => r matches Some(k) && k.tileset == "items" && k.id
                == 0,
            Item::Tool(_) => r is None,
        },
{
    match item {
        Item::Resource(resource) => match resource {
            ItemResource::Wood => Some(TextureKey { tileset: "items", id: 0 }),
        },
        _ => None,
    }
}

/// Which of the next tile object, the next world item and the player is drawn
/// next, given the height (`y`, as `f32` bits) of each one still to draw: the
/// tile object unless the item is strictly higher up on the screen, and the
/// player if strictly above the one chosen so far.
pub open spec fn render_choice(
    tile_object_y: Option<u32>,
    world_item_y: Option<u32>,
    player_y: Option<u32>,
) -> Option<RenderObject> {
    let (first, first_y) = match tile_object_y {
        Some(y) => (Some(RenderObject::TileObject), Some(y)),
        None => (None, None),
    };
    let (second, second_y) = match world_item_y {
        Some(y) => if first_y is None || f32_lt(y, first_y.unwrap()) {
            (Some(RenderObject::WorldItem), Some(y))
        } else {
            (first, first_y)
        },
        None => (first, first_y),
    };
    match player_y {
        Some(y) => if second_y is None || f32_lt(y, second_y.unwrap()) {
            Some(RenderObject::PlayerCharacter)
        } else {
            second
        },
        None => second,
    }
}

/// Picks what to draw next when drawing tile objects, world items and the
/// player back to front (see `render_choice`).
pub fn choose_render_object(
    tile_object_y: Option<u32>,
    world_item_y: Option<u32>,
    player_y: Option<u32>,
) -> (r: Option<RenderObject>)
    ensures
        r == render_choice(tile_object_y, world_item_y, player_y),
        r is Some <==> (tile_object_y is Some || world_item_y is Some || player_y is Some),
        r == Some(RenderObject::TileObject) ==> tile_object_y is Some,
        r == Some(RenderObject::WorldItem) ==> world_item_y is Some,
        r == Some(RenderObject::PlayerCharacter) ==> player_y is Some,
{
    let mut render_object: Option<RenderObject> = None;
    let mut min_y: Option<u32> = None;
    // Compare y order
    if let Some(y) = tile_object_y {
        render_object = Some(RenderObject::TileObject);
        min_y = Some(y);
    }
    if let Some(y) = world_item_y {
        let below = match min_y {
            Some(m) => lt(y, m),
            None => true,
        };
        if below {
            render_object = Some(RenderObject::WorldItem);
            min_y = Some(y);
        }
    }
    if let Some(y) = player_y {
        let below = match min_y {
            Some(m) => lt(y, m),
            None => true,
        };
        if below {
            render_object = Some(RenderObject::PlayerCharacter);
        }
    }
    render_object
}

/// When every height given is a number, the one chosen to draw next is the
/// highest up on the screen (least `y`); on a tie the tile object goes
/// before the world item, and both before the player.
pub proof fn lemma_render_choice_lowest(
    tile_object_y: Option<u32>,
    world_item_y: Option<u32>,
    player_y: Option<u32>,
)
    requires
        tile_object_y matches Some(y) ==> !f32_is_nan(y),
        world_item_y matches Some(y) ==> !f32_is_nan(y),
        player_y matches Some(y) ==> !f32_is_nan(y),
    ensures
        ({
            let r = render_choice(tile_object_y, world_item_y, player_y);
            &&& r == Some(RenderObject::TileObject) ==> {
                &&& world_item_y matches Some(i) ==> f32_rank(tile_object_y.unwrap()) <= f32_rank(i)
                &&& player_y matches Some(p) ==> f32_rank(tile_object_y.unwrap()) <= f32_rank(p)
            }
            &&& r == Some(RenderObject::WorldItem) ==> {
                &&& tile_object_y matches Some(t) ==> f32_rank(world_item_y.unwrap()) < f32_rank(t)
                &&& player_y matches Some(p) ==> f32_rank(world_item_y.unwrap()) <= f32_rank(p)
            }
            &&& r == Some(RenderObject::PlayerCharacter) ==> {
                &&& tile_object_y matches Some(t) ==> f32_rank(player_y.unwrap()) < f32_rank(t)
                &&& world_item_y matches Some(i) ==> f32_rank(player_y.unwrap()) < f32_rank(i)
            }
        }),
{
}

pub open spec fn first_of(ys: Seq<u32>) -> Option<u32> {
    if ys.len() > 0 {
        Some(ys[0])
    } else {
        None
    }
}

/// The order in which tile objects at heights `tile_object_ys`, world items
/// at heights `world_item_ys` (each list in its own order) and the player at
/// `player_y`, if still to draw, are drawn: each time, `render_choice` picks
/// among the next of each.
pub open spec fn draw_sequence(
    tile_object_ys: Seq<u32>,
    world_item_ys: Seq<u32>,
    player_y: Option<u32>,
) -> Seq<RenderObject>
    decreases tile_object_ys.len() + world_item_ys.len() + if player_y is Some {
        1int
    } else {
        0int
    },
{
    match render_choice(first_of(tile_object_ys), first_of(world_item_ys), player_y) {
        Some(RenderObject::TileObject) => if tile_object_ys.len() > 0 {
            seq![RenderObject::TileObject] + draw_sequence(
                tile_object_ys.drop_first(),
                world_item_ys,
                player_y,
            )
        } else {
            seq![]
        },
        Some(RenderObject::WorldItem) => if world_item_ys.len() > 0 {
            seq![RenderObject::WorldItem] + draw_sequence(
                tile_object_ys,
                world_item_ys.drop_first(),
                player_y,
            )
        } else {
            seq![]
        },
        Some(RenderObject::PlayerCharacter) => if player_y is Some {
            seq![RenderObject::PlayerCharacter] + draw_sequence(tile_object_ys, world_item_ys, None)
        } else {
            seq![]
        },
        None => seq![],
    }
}

/// How many times `kind` occurs in `order`.
pub open spec fn count_kind(order: Seq<RenderObject>, kind: RenderObject) -> nat
    decreases order.len(),
{
    if order.len() == 0 {
        0
    } else {
        (if order[0] == kind {
            1nat
        } else {
            0nat
        }) + count_kind(order.drop_first(), kind)
    }
}

proof fn lemma_count_kind_prepend(x: RenderObject, rest: Seq<RenderObject>, kind: RenderObject)
    ensures
        count_kind(seq![x] + rest, kind) == (if x == kind {
            1nat
        } else {
            0nat
        }) + count_kind(rest, kind),
{
    assert((seq![x] + rest).drop_first() =~= rest);
}

/// Every tile object, every world item and the player are drawn exactly once.
pub proof fn lemma_draw_sequence_counts(
    tile_object_ys: Seq<u32>,
    world_item_ys: Seq<u32>,
    player_y: Option<u32>,
)
    ensures
        count_kind(draw_sequence(tile_object_ys, world_item_ys, player_y), RenderObject::TileObject)
            == tile_object_ys.len(),
        count_kind(draw_sequence(tile_object_ys, world_item_ys, player_y), RenderObject::WorldItem)
            == world_item_ys.len(),
        count_kind(
            draw_sequence(tile_object_ys, world_item_ys, player_y),
            RenderObject::PlayerCharacter,
        ) == if player_y is Some {
            1nat
        } else {
            0nat
        },
        draw_sequence(tile_object_ys, world_item_ys, player_y).len() == tile_object_ys.len()
            + world_item_ys.len() + if player_y is Some {
            1int
        } else {
            0int
        },
    decreases tile_object_ys.len() + world_item_ys.len() + if player_y is Some {
        1int
    } else {
        0int
    },
{
    let order = draw_sequence(tile_object_ys, world_item_ys, player_y);
    match render_choice(first_of(tile_object_ys), first_of(world_item_ys), player_y) {
        Some(RenderObject::TileObject) => {
            let rest = tile_object_ys.drop_first();
            lemma_draw_sequence_counts(rest, world_item_ys, player_y);
            let tail = draw_sequence(rest, world_item_ys, player_y);
            lemma_count_kind_prepend(RenderObject::TileObject, tail, RenderObject::TileObject);
            lemma_count_kind_prepend(RenderObject::TileObject, tail, RenderObject::WorldItem);
            lemma_count_kind_prepend(RenderObject::TileObject, tail, RenderObject::PlayerCharacter);
        },
        Some(RenderObject::WorldItem) => {
            let rest = world_item_ys.drop_first();
            lemma_draw_sequence_counts(tile_object_ys, rest, player_y);
            let tail = draw_sequence(tile_object_ys, rest, player_y);
            lemma_count_kind_prepend(RenderObject::WorldItem, tail, RenderObject::TileObject);
            lemma_count_kind_prepend(RenderObject::WorldItem, tail, RenderObject::WorldItem);
            lemma_count_kind_prepend(RenderObject::WorldItem, tail, RenderObject::PlayerCharacter);
        },
        Some(RenderObject::PlayerCharacter) => {
            lemma_draw_sequence_counts(tile_object_ys, world_item_ys, None);
            let tail = draw_sequence(tile_object_ys, world_item_ys, None);
            lemma_count_kind_prepend(RenderObject::PlayerCharacter, tail, RenderObject::TileObject);
            lemma_count_kind_prepend(RenderObject::PlayerCharacter, tail, RenderObject::WorldItem);
            lemma_count_kind_prepend(
                RenderObject::PlayerCharacter,
                tail,
                RenderObject::PlayerCharacter,
            );
        },
        None => {},
    }
}

/// The order in which to draw the tile objects at heights `tile_object_ys`
/// (row-major), the world items at heights `world_item_ys` (as they lie) and
/// the player at `player_y`, back to front (see `draw_sequence`).
pub fn draw_order(tile_object_ys: &Vec<u32>, world_item_ys: &Vec<u32>, player_y: u32) -> (r: Vec<
    RenderObject,
>)
    ensures
        r@ == draw_sequence(tile_object_ys@, world_item_ys@, Some(player_y)),
{
    let mut order: Vec<RenderObject> = Vec::new();
    let mut t: usize = 0;
    let mut i: usize = 0;
    let mut player: Option<u32> = Some(player_y);
    proof {
        assert(tile_object_ys@.skip(0) =~= tile_object_ys@);
        assert(world_item_ys@.skip(0) =~= world_item_ys@);
        assert(order@ + draw_sequence(tile_object_ys@, world_item_ys@, Some(player_y))
            =~= draw_sequence(tile_object_ys@, world_item_ys@, Some(player_y)));
    }
    loop
        invariant
            0 <= t <= tile_object_ys@.len(),
            0 <= i <= world_item_ys@.len(),
            order@ + draw_sequence(
                tile_object_ys@.skip(t as int),
                world_item_ys@.skip(i as int),
                player,
            ) == draw_sequence(tile_object_ys@, world_item_ys@, Some(player_y)),
        ensures
            order@ == draw_sequence(tile_object_ys@, world_item_ys@, Some(player_y)),
        decreases tile_object_ys@.len() - t + world_item_ys@.len() - i + if player is Some {
            1int
        } else {
            0int
        },
    {
        let ghost ts = tile_object_ys@.skip(t as int);
        let ghost is = world_item_ys@.skip(i as int);
        let next_tile = if t < tile_object_ys.len() {
            Some(tile_object_ys[t])
        } else {
            None
        };
        let next_item = if i < world_item_ys.len() {
            Some(world_item_ys[i])
        } else {
            None
        };
        assert(next_tile == first_of(ts));
        assert(next_item == first_of(is));
        match choose_render_object(next_tile, next_item, player) {
            Some(RenderObject::TileObject) => {
                proof {
                    assert(ts.drop_first() =~= tile_object_ys@.skip(t as int + 1));
                    assert(order@.push(RenderObject::TileObject) + draw_sequence(
                        ts.drop_first(),
                        is,
                        player,
                    ) =~= order@ + (seq![RenderObject::TileObject] + draw_sequence(
                        ts.drop_first(),
                        is,
                        player,
                    )));
                }
                order.push(RenderObject::TileObject);
                t = t + 1;
            },
            Some(RenderObject::WorldItem) => {
                proof {
                    assert(is.drop_first() =~= world_item_ys@.skip(i as int + 1));
                    assert(order@.push(RenderObject::WorldItem) + draw_sequence(
                        ts,
                        is.drop_first(),
                        player,
                    ) =~= order@ + (seq![RenderObject::WorldItem] + draw_sequence(
                        ts,
                        is.drop_first(),
                        player,
                    )));
                }
                order.push(RenderObject::WorldItem);
                i = i + 1;
            },
            Some(RenderObject::PlayerCharacter) => {
                proof {
                    assert(order@.push(RenderObject::PlayerCharacter) + draw_sequence(ts, is, None)
                        =~= order@ + (seq![RenderObject::PlayerCharacter] + draw_sequence(
                        ts,
                        is,
                        None,
                    )));
                }
                order.push(RenderObject::PlayerCharacter);
                player = None;
            },
            None => {
                assert(order@ + draw_sequence(ts, is, player) =~= order@);
                break ;
            },
        }
    }
    order
}

/// The heights of the objects in `draw_sequence`, in the same order.
pub open spec fn draw_heights(
    tile_object_ys: Seq<u32>,
    world_item_ys: Seq<u32>,
    player_y: Option<u32>,
) -> Seq<u32>
    decreases tile_object_ys.len() + world_item_ys.len() + if player_y is Some {
        1int
    } else {
        0int
    },
{
    match render_choice(first_of(tile_object_ys), first_of(world_item_ys), player_y) {
        Some(RenderObject::TileObject) => if tile_object_ys.len() > 0 {
            seq![tile_object_ys[0]] + draw_heights(
                tile_object_ys.drop_first(),
                world_item_ys,
                player_y,
            )
        } else {
            seq![]
        },
        Some(RenderObject::WorldItem) => if world_item_ys.len() > 0 {
            seq![world_item_ys[0]] + draw_heights(
                tile_object_ys,
                world_item_ys.drop_first(),
                player_y,
            )
        } else {
            seq![]
        },
        Some(RenderObject::PlayerCharacter) => if player_y is Some {
            seq![player_y.unwrap()] + draw_heights(tile_object_ys, world_item_ys, None)
        } else {
            seq![]
        },
        None => seq![],
    }
}

/// Place of a kind among objects at the same height: tile objects first,
/// then world items, then the player.
pub open spec fn tie_rank(kind: RenderObject) -> int {
    match kind {
        RenderObject::TileObject => 0,
        RenderObject::WorldItem => 1,
        RenderObject::PlayerCharacter => 2,
    }
}

/// An object of `kind` at height `y` is drawn no later than one of `other_kind`
/// at `other_y`: it is higher up, or as high and of a kind drawn first on ties.
pub open spec fn drawn_no_later(y: u32, kind: RenderObject, other_y: u32, other_kind: RenderObject) -> bool {
    f32_rank(y) < f32_rank(other_y) || (f32_rank(y) == f32_rank(other_y) && tie_rank(kind)
        <= tie_rank(other_kind))
}

/// No height is NaN, and the heights never decrease.
pub open spec fn heights_ordered(ys: Seq<u32>) -> bool {
    &&& forall|i: int| 0 <= i < ys.len() ==> !f32_is_nan(#[trigger] ys[i])
    &&& forall|i: int, j: int|
        0 <= i <= j < ys.len() ==> f32_rank(#[trigger] ys[i]) <= f32_rank(#[trigger] ys[j])
}

proof fn lemma_prepend_index<A>(x: A, rest: Seq<A>, j: int)
    requires
        0 < j <= rest.len(),
    ensures
        (seq![x] + rest)[j] == rest[j - 1],
        (seq![x] + rest)[0] == x,
        (seq![x] + rest).len() == rest.len() + 1,
{
}

/// If an object at `y` of `kind` is drawn no later than every object still to
/// draw, it is drawn no later than every object in the rest of the order.
proof fn lemma_draw_bounded(
    tile_object_ys: Seq<u32>,
    world_item_ys: Seq<u32>,
    player_y: Option<u32>,
    y: u32,
    kind: RenderObject,
)
    requires
        forall|k: int| 0 <= k < tile_object_ys.len() ==> !f32_is_nan(#[trigger] tile_object_ys[k]),
        forall|k: int| 0 <= k < world_item_ys.len() ==> !f32_is_nan(#[trigger] world_item_ys[k]),
        player_y matches Some(p) ==> !f32_is_nan(p),
        forall|k: int|
            0 <= k < tile_object_ys.len() ==> drawn_no_later(
                y,
                kind,
                #[trigger] tile_object_ys[k],
                RenderObject::TileObject,
            ),
        forall|k: int|
            0 <= k < world_item_ys.len() ==> drawn_no_later(
                y,
                kind,
                #[trigger] world_item_ys[k],
                RenderObject::WorldItem,
            ),
        player_y matches Some(p) ==> drawn_no_later(y, kind, p, RenderObject::PlayerCharacter),
    ensures
        draw_heights(tile_object_ys, world_item_ys, player_y).len() == draw_sequence(
            tile_object_ys,
            world_item_ys,
            player_y,
        ).len(),
        forall|j: int|
            0 <= j < draw_sequence(tile_object_ys, world_item_ys, player_y).len() ==> drawn_no_later(
                y,
                kind,
                #[trigger] draw_heights(tile_object_ys, world_item_ys, player_y)[j],
                draw_sequence(tile_object_ys, world_item_ys, player_y)[j],
            ),
    decreases tile_object_ys.len() + world_item_ys.len() + if player_y is Some {
        1int
    } else {
        0int
    },
{
    let order = draw_sequence(tile_object_ys, world_item_ys, player_y);
    let heights = draw_heights(tile_object_ys, world_item_ys, player_y);
    match render_choice(first_of(tile_object_ys), first_of(world_item_ys), player_y) {
        Some(RenderObject::TileObject) => {
            let rest = tile_object_ys.drop_first();
            lemma_draw_bounded(rest, world_item_ys, player_y, y, kind);
            let to = draw_sequence(rest, world_item_ys, player_y);
            let th = draw_heights(rest, world_item_ys, player_y);
            assert forall|j: int| 0 <= j < order.len() implies drawn_no_later(
                y,
                kind,
                #[trigger] heights[j],
                order[j],
            ) by {
                if j > 0 {
                    lemma_prepend_index(RenderObject::TileObject, to, j);
                    lemma_prepend_index(tile_object_ys[0], th, j);
                }
            }
        },
        Some(RenderObject::WorldItem) => {
            let rest = world_item_ys.drop_first();
            lemma_draw_bounded(tile_object_ys, rest, player_y, y, kind);
            let to = draw_sequence(tile_object_ys, rest, player_y);
            let th = draw_heights(tile_object_ys, rest, player_y);
            assert forall|j: int| 0 <= j < order.len() implies drawn_no_later(
                y,
                kind,
                #[trigger] heights[j],
                order[j],
            ) by {
                if j > 0 {
                    lemma_prepend_index(RenderObject::WorldItem, to, j);
                    lemma_prepend_index(world_item_ys[0], th, j);
                }
            }
        },
        Some(RenderObject::PlayerCharacter) => {
            lemma_draw_bounded(tile_object_ys, world_item_ys, None, y, kind);
            let to = draw_sequence(tile_object_ys, world_item_ys, None);
            let th = draw_heights(tile_object_ys, world_item_ys, None);
            assert forall|j: int| 0 <= j < order.len() implies drawn_no_later(
                y,
                kind,
                #[trigger] heights[j],
                order[j],
            ) by {
                if j > 0 {
                    lemma_prepend_index(RenderObject::PlayerCharacter, to, j);
                    lemma_prepend_index(player_y.unwrap(), th, j);
                }
            }
        },
        None => {},
    }
}

/// Drawing goes from the top of the screen down: when the tile objects and
/// the world items each come in nondecreasing height and no height is NaN,
/// the heights in draw order never decrease, and among objects at one height
/// tile objects are drawn first, then world items, then the player.
pub proof fn lemma_draw_sequence_back_to_front(
    tile_object_ys: Seq<u32>,
    world_item_ys: Seq<u32>,
    player_y: Option<u32>,
)
    requires
        heights_ordered(tile_object_ys),
        heights_ordered(world_item_ys),
        player_y matches Some(p) ==> !f32_is_nan(p),
    ensures
        draw_heights(tile_object_ys, world_item_ys, player_y).len() == draw_sequence(
            tile_object_ys,
            world_item_ys,
            player_y,
        ).len(),
        forall|i: int, j: int|
            0 <= i < j < draw_sequence(tile_object_ys, world_item_ys, player_y).len()
                ==> drawn_no_later(
                #[trigger] draw_heights(tile_object_ys, world_item_ys, player_y)[i],
                draw_sequence(tile_object_ys, world_item_ys, player_y)[i],
                #[trigger] draw_heights(tile_object_ys, world_item_ys, player_y)[j],
                draw_sequence(tile_object_ys, world_item_ys, player_y)[j],
            ),
    decreases tile_object_ys.len() + world_item_ys.len() + if player_y is Some {
        1int
    } else {
        0int
    },
{
    let ts = tile_object_ys;
    let is = world_item_ys;
    let order = draw_sequence(ts, is, player_y);
    let heights = draw_heights(ts, is, player_y);
    lemma_render_choice_lowest(first_of(ts), first_of(is), player_y);
    match render_choice(first_of(ts), first_of(is), player_y) {
        Some(RenderObject::TileObject) => {
            let y = ts[0];
            let rest = ts.drop_first();
            assert forall|k: int| 0 <= k < rest.len() implies !f32_is_nan(#[trigger] rest[k]) by {
                assert(rest[k] == ts[k + 1]);
            }
            assert forall|k: int, l: int| 0 <= k <= l < rest.len() implies f32_rank(
                #[trigger] rest[k],
            ) <= f32_rank(#[trigger] rest[l]) by {
                assert(rest[k] == ts[k + 1]);
                assert(rest[l] == ts[l + 1]);
            }
            assert forall|k: int| 0 <= k < rest.len() implies drawn_no_later(
                y,
                RenderObject::TileObject,
                #[trigger] rest[k],
                RenderObject::TileObject,
            ) by {
                assert(rest[k] == ts[k + 1]);
                assert(f32_rank(ts[0]) <= f32_rank(ts[k + 1]));
            }
            assert forall|k: int| 0 <= k < is.len() implies drawn_no_later(
                y,
                RenderObject::TileObject,
                #[trigger] is[k],
                RenderObject::WorldItem,
            ) by {
                assert(f32_rank(is[0]) <= f32_rank(is[k]));
            }
            lemma_draw_bounded(rest, is, player_y, y, RenderObject::TileObject);
            lemma_draw_sequence_back_to_front(rest, is, player_y);
            let to = draw_sequence(rest, is, player_y);
            let th = draw_heights(rest, is, player_y);
            assert forall|i: int, j: int| 0 <= i < j < order.len() implies drawn_no_later(
                #[trigger] heights[i],
                order[i],
                #[trigger] heights[j],
                order[j],
            ) by {
                lemma_prepend_index(RenderObject::TileObject, to, j);
                lemma_prepend_index(y, th, j);
                if i > 0 {
                    lemma_prepend_index(RenderObject::TileObject, to, i);
                    lemma_prepend_index(y, th, i);
                    assert(drawn_no_later(th[i - 1], to[i - 1], th[j - 1], to[j - 1]));
                } else {
                    assert(drawn_no_later(y, RenderObject::TileObject, th[j - 1], to[j - 1]));
                }
            }
        },
        Some(RenderObject::WorldItem) => {
            let y = is[0];
            let rest = is.drop_first();
            assert forall|k: int| 0 <= k < rest.len() implies !f32_is_nan(#[trigger] rest[k]) by {
                assert(rest[k] == is[k + 1]);
            }
            assert forall|k: int, l: int| 0 <= k <= l < rest.len() implies f32_rank(
                #[trigger] rest[k],
            ) <= f32_rank(#[trigger] rest[l]) by {
                assert(rest[k] == is[k + 1]);
                assert(rest[l] == is[l + 1]);
            }
            assert forall|k: int| 0 <= k < rest.len() implies drawn_no_later(
                y,
                RenderObject::WorldItem,
                #[trigger] rest[k],
                RenderObject::WorldItem,
            ) by {
                assert(rest[k] == is[k + 1]);
                assert(f32_rank(is[0]) <= f32_rank(is[k + 1]));
            }
            assert forall|k: int| 0 <= k < ts.len() implies drawn_no_later(
                y,
                RenderObject::WorldItem,
                #[trigger] ts[k],
                RenderObject::TileObject,
            ) by {
                assert(f32_rank(ts[0]) <= f32_rank(ts[k]));
            }
            lemma_draw_bounded(ts, rest, player_y, y, RenderObject::WorldItem);
            lemma_draw_sequence_back_to_front(ts, rest, player_y);
            let to = draw_sequence(ts, rest, player_y);
            let th = draw_heights(ts, rest, player_y);
            assert forall|i: int, j: int| 0 <= i < j < order.len() implies drawn_no_later(
                #[trigger] heights[i],
                order[i],
                #[trigger] heights[j],
                order[j],
            ) by {
                lemma_prepend_index(RenderObject::WorldItem, to, j);
                lemma_prepend_index(y, th, j);
                if i > 0 {
                    lemma_prepend_index(RenderObject::WorldItem, to, i);
                    lemma_prepend_index(y, th, i);
                    assert(drawn_no_later(th[i - 1], to[i - 1], th[j - 1], to[j - 1]));
                } else {
                    assert(drawn_no_later(y, RenderObject::WorldItem, th[j - 1], to[j - 1]));
                }
            }
        },
        Some(RenderObject::PlayerCharacter) => {
            let y = player_y.unwrap();
            assert forall|k: int| 0 <= k < ts.len() implies drawn_no_later(
                y,
                RenderObject::PlayerCharacter,
                #[trigger] ts[k],
                RenderObject::TileObject,
            ) by {
                assert(f32_rank(ts[0]) <= f32_rank(ts[k]));
            }
            assert forall|k: int| 0 <= k < is.len() implies drawn_no_later(
                y,
                RenderObject::PlayerCharacter,
                #[trigger] is[k],
                RenderObject::WorldItem,
            ) by {
                assert(f32_rank(is[0]) <= f32_rank(is[k]));
            }
            lemma_draw_bounded(ts, is, None, y, RenderObject::PlayerCharacter);
            lemma_draw_sequence_back_to_front(ts, is, None);
            let to = draw_sequence(ts, is, None);
            let th = draw_heights(ts, is, None);
            assert forall|i: int, j: int| 0 <= i < j < order.len() implies drawn_no_later(
                #[trigger] heights[i],
                order[i],
                #[trigger] heights[j],
                order[j],
            ) by {
                lemma_prepend_index(RenderObject::PlayerCharacter, to, j);
                lemma_prepend_index(y, th, j);
                if i > 0 {
                    lemma_prepend_index(RenderObject::PlayerCharacter, to, i);
                    lemma_prepend_index(y, th, i);
                    assert(drawn_no_later(th[i - 1], to[i - 1], th[j - 1], to[j - 1]));
                } else {
                    assert(drawn_no_later(y, RenderObject::PlayerCharacter, th[j - 1], to[j - 1]));
                }
            }
        },
        None => {},
    }
}

} // verus!
