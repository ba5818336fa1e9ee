use vstd::prelude::*;

use crate::grid::Grid;
use crate::item::{Item, ItemStack, WorldItem, WorldItemIndex};
use crate::position::{Position, TilePos, f32_is_nan, f32_le, f32_rank, le};
use crate::tile_object::{TileObject, TileObjectIndex};

verus! {

pub struct World {
    pub tile_objects: Grid<Option<TileObject>>,
    /// Items lying on the ground, ordered by their `y` coordinate so that
    /// they can be drawn back to front.
    pub world_items: Vec<WorldItem>,
}

/// Mathematical model of a world.
#[verifier::ext_equal]
pub struct WorldState {
    pub tiles: Seq<Option<TileObject>>,
    pub rows: usize,
    pub cols: usize,
    pub items: Seq<WorldItem>,
}

impl View for World {
    type V = WorldState;

    open spec fn view(&self) -> WorldState {
        WorldState {
            tiles: self.tile_objects@,
            rows: self.tile_objects.rows(),
            cols: self.tile_objects.cols(),
            items: self.world_items@,
        }
    }
}

/// No item lies at a NaN height, and items are ordered by height, lowest
/// `y` first.
pub open spec fn items_ordered(items: Seq<WorldItem>) -> bool {
    &&& forall|i: int| 0 <= i < items.len() ==> !f32_is_nan(#[trigger] items[i].pos.y)
    &&& forall|i: int, j: int|
        0 <= i <= j < items.len() ==> f32_rank(#[trigger] items[i].pos.y) <= f32_rank(
            #[trigger] items[j].pos.y,
        )
}

/// Number of items whose height is at most `y`.
pub open spec fn count_at_or_below(items: Seq<WorldItem>, y: u32) -> nat
    decreases items.len(),
{
    if items.len() == 0 {
        0
    } else {
        count_at_or_below(items.drop_last(), y) + if f32_le(items.last().pos.y, y) {
            1nat
        } else {
            0nat
        }
    }
}

/// `items` with `item` inserted after every item at or below its height.
pub open spec fn sorted_insert(items: Seq<WorldItem>, item: WorldItem) -> Seq<WorldItem> {
    items.insert(count_at_or_below(items, item.pos.y) as int, item)
}

/// `items` with each of `new_items` inserted in turn by `sorted_insert`.
pub open spec fn sorted_insert_all(items: Seq<WorldItem>, new_items: Seq<WorldItem>) -> Seq<
    WorldItem,
>
    decreases new_items.len(),
{
    if new_items.len() == 0 {
        items
    } else {
        sorted_insert(sorted_insert_all(items, new_items.drop_last()), new_items.last())
    }
}

/// The items of the stacks, one entry per unit, in stack order.
pub open spec fn expand_stacks(stacks: Seq<ItemStack>) -> Seq<Item>
    decreases stacks.len(),
{
    if stacks.len() == 0 {
        seq![]
    } else {
        expand_stacks(stacks.drop_last()) + Seq::new(
            stacks.last().count as nat,
            |_j: int| stacks.last().item,
        )
    }
}

/// Pairs the `i`-th item with the `i`-th position.
pub open spec fn place_items(items: Seq<Item>, positions: Seq<Position>) -> Seq<WorldItem> {
    Seq::new(items.len(), |i: int| WorldItem { item: items[i], pos: positions[i] })
}

/// Coordinates of the tile at row-major `index` in a grid with `cols` columns.
pub open spec fn tile_pos(index: usize, cols: usize) -> TilePos {
    TilePos { x: (index % cols) as usize, y: (index / cols) as usize }
}

/// Laying items on the ground adds exactly those items: afterwards the ground
/// holds each item as many times as before plus as many times as it was laid.
pub proof fn lemma_sorted_insert_all_contents(items: Seq<WorldItem>, new_items: Seq<WorldItem>)
    ensures
        sorted_insert_all(items, new_items).to_multiset() =~= items.to_multiset().add(
            new_items.to_multiset(),
        ),
    decreases new_items.len(),
{
    broadcast use vstd::multiset::group_multiset_axioms;

    if new_items.len() == 0 {
        vstd::seq_lib::to_multiset_len(new_items);
        vstd::multiset::lemma_multiset_empty_len(new_items.to_multiset());
    } else {
        let rest = new_items.drop_last();
        let last = new_items.last();
        let before = sorted_insert_all(items, rest);
        lemma_sorted_insert_all_contents(items, rest);
        lemma_count_le_len(before, last.pos.y);
        vstd::seq_lib::to_multiset_insert(before, count_at_or_below(before, last.pos.y) as int, last);
        vstd::seq_lib::to_multiset_build(rest, last);
        assert(rest.push(last) =~= new_items);
    }
}

/// The index of the tile in column `col` of row `row` leads back to that
/// column and row.
pub proof fn lemma_index_pos_roundtrip(cols: usize, row: usize, col: usize)
    requires
        col < cols,
        row * cols + col <= usize::MAX,
    ensures
        tile_pos((row * cols + col) as usize, cols) == (TilePos { x: col, y: row }),
{
    vstd::arithmetic::div_mod::lemma_fundamental_div_mod_converse(
        (row * cols + col) as int,
        cols as int,
        row as int,
        col as int,
    );
}

/// In a sequence ordered by height, the items at or below `y` form a prefix
/// whose length is their count.
proof fn lemma_count_prefix(items: Seq<WorldItem>, y: u32, p: int)
    requires
        0 <= p <= items.len(),
        forall|j: int| 0 <= j < p ==> f32_le(#[trigger] items[j].pos.y, y),
        forall|j: int| p <= j < items.len() ==> !f32_le(#[trigger] items[j].pos.y, y),
    ensures
        count_at_or_below(items, y) == p,
    decreases items.len(),
{
    if items.len() > 0 {
        let last = items.len() - 1;
        if p == items.len() {
            assert(f32_le(items[last].pos.y, y));
            lemma_count_prefix(items.drop_last(), y, p - 1);
        } else {
            assert(!f32_le(items[last].pos.y, y));
            lemma_count_prefix(items.drop_last(), y, p);
        }
    }
}

impl World {
    pub open spec fn wf(&self) -> bool {
        &&& self.tile_objects.wf()
        &&& items_ordered(self.world_items@)
    }

    // Tile objects

    /// Column and row of the tile at `index`.
    pub fn get_tile_object_pos_by_index(&self, index: TileObjectIndex) -> (r: TilePos)
        requires
            self.tile_objects.cols() > 0,
        ensures
            r == tile_pos(index.0, self.tile_objects.cols()),
    {
        let cols = self.tile_objects.cols();
        TilePos { x: index.0 % cols, y: index.0 / cols }
    }

    pub fn get_tile_object_from_index(&self, index: TileObjectIndex) -> (r: &Option<TileObject>)
        requires
            index.0 < self.tile_objects@.len(),
        ensures
            *r == self.tile_objects@[index.0 as int],
    {
        self.tile_objects.get_by_index(index.0)
    }

    pub fn get_mut_tile_object_from_index(&mut self, index: TileObjectIndex) -> (r: &mut Option<
        TileObject,
    >)
        requires
            index.0 < old(self).tile_objects@.len(),
        ensures
            *r == old(self).tile_objects@[index.0 as int],
            final(self).tile_objects@ == old(self).tile_objects@.update(index.0 as int, *final(r)),
            final(self).tile_objects.rows() == old(self).tile_objects.rows(),
            final(self).tile_objects.cols() == old(self).tile_objects.cols(),
            final(self).world_items == old(self).world_items,
    {
        self.tile_objects.get_mut_by_index(index.0)
    }

    pub fn set_tile_object_with_index(&mut self, index: TileObjectIndex, tile_object: TileObject)
        requires
            index.0 < old(self).tile_objects@.len(),
        ensures
            final(self).tile_objects@ == old(self).tile_objects@.update(
                index.0 as int,
                Some(tile_object),
            ),
            final(self).tile_objects.rows() == old(self).tile_objects.rows(),
            final(self).tile_objects.cols() == old(self).tile_objects.cols(),
            final(self).world_items == old(self).world_items,
    {
        self.tile_objects.set_by_index(index.0, Some(tile_object));
    }

    /// Empties the tile at `index` and returns what stood on it.
    pub fn remove_tile_object(&mut self, index: TileObjectIndex) -> (r: Option<TileObject>)
        requires
            index.0 < old(self).tile_objects@.len(),
        ensures
            r == old(self).tile_objects@[index.0 as int],
            final(self).tile_objects@ == old(self).tile_objects@.update(index.0 as int, None),
            final(self).tile_objects.rows() == old(self).tile_objects.rows(),
            final(self).tile_objects.cols() == old(self).tile_objects.cols(),
            final(self).world_items == old(self).world_items,
    {
        self.tile_objects.replace_by_index(index.0, None)
    }

    pub fn get_tile_object_index(&self, row: usize, col: usize) -> (r: TileObjectIndex)
        requires
            row * self.tile_objects.cols() + col <= usize::MAX,
        ensures
            r.0 == row * self.tile_objects.cols() + col,
    {
        assert(0 <= row * self.tile_objects.cols()) by (nonlinear_arith);
        TileObjectIndex(row * self.tile_objects.cols() + col)
    }

    // World items

    /// Position at which an item at height `y` goes: after every item at or
    /// below it.
    fn insertion_point(&self, y: u32) -> (r: usize)
        requires
            items_ordered(self.world_items@),
            !f32_is_nan(y),
        ensures
            r == count_at_or_below(self.world_items@, y),
    {
        let items = &self.world_items;
        let mut lo: usize = 0;
        let mut hi: usize = items.len();
        while lo < hi
            invariant
                0 <= lo <= hi <= items@.len(),
                items_ordered(items@),
                !f32_is_nan(y),
                forall|j: int| 0 <= j < lo ==> f32_le(#[trigger] items@[j].pos.y, y),
                forall|j: int| hi <= j < items@.len() ==> !f32_le(#[trigger] items@[j].pos.y, y),
            decreases hi - lo,
        {
            let mid = lo + (hi - lo) / 2;
            if le(items[mid].pos.y, y) {
                assert forall|j: int| 0 <= j < mid + 1 implies f32_le(
                    #[trigger] items@[j].pos.y,
                    y,
                ) by {
                    assert(f32_rank(items@[j].pos.y) <= f32_rank(items@[mid as int].pos.y));
                }
                lo = mid + 1;
            } else {
                assert forall|j: int| mid <= j < items@.len() implies !f32_le(
                    #[trigger] items@[j].pos.y,
                    y,
                ) by {
                    assert(f32_rank(items@[mid as int].pos.y) <= f32_rank(items@[j].pos.y));
                }
                hi = mid;
            }
        }
        proof {
            lemma_count_prefix(items@, y, lo as int);
        }
        lo
    }

    /// Inserts `item` after every item at or below its height.
    fn insert_world_item(&mut self, item: WorldItem)
        requires
            items_ordered(old(self).world_items@),
            !f32_is_nan(item.pos.y),
        ensures
            items_ordered(final(self).world_items@),
            final(self).world_items@ == sorted_insert(old(self).world_items@, item),
            final(self).tile_objects == old(self).tile_objects,
    {
        let index = self.insertion_point(item.pos.y);
        let ghost before = self.world_items@;
        proof {
            let p = index as int;
            lemma_count_le_len(before, item.pos.y);
            // The items at or below `item` form the prefix before `index`.
            assert forall|j: int| 0 <= j < p implies f32_le(#[trigger] before[j].pos.y, item.pos.y)
                by {
                if !f32_le(before[j].pos.y, item.pos.y) {
                    assert forall|k: int| j <= k < before.len() implies !f32_le(
                        #[trigger] before[k].pos.y,
                        item.pos.y,
                    ) by {
                        assert(f32_rank(before[j].pos.y) <= f32_rank(before[k].pos.y));
                    }
                    lemma_count_prefix_bound(before, item.pos.y, j);
                }
            }
            assert forall|j: int| p <= j < before.len() implies !f32_le(
                #[trigger] before[j].pos.y,
                item.pos.y,
            ) by {
                if f32_le(before[j].pos.y, item.pos.y) {
                    assert forall|k: int| 0 <= k <= j implies f32_le(
                        #[trigger] before[k].pos.y,
                        item.pos.y,
                    ) by {
                        assert(f32_rank(before[k].pos.y) <= f32_rank(before[j].pos.y));
                    }
                    lemma_count_prefix_lower(before, item.pos.y, j + 1);
                }
            }
        }
        self.world_items.insert(index, item);
        proof {
            let after = self.world_items@;
            let p = index as int;
            assert(after == before.insert(p, item));
            assert forall|i: int, j: int| 0 <= i <= j < after.len() implies f32_rank(
                #[trigger] after[i].pos.y,
            ) <= f32_rank(#[trigger] after[j].pos.y) by {
                if i < p && j > p {
                    assert(after[i] == before[i]);
                    assert(after[j] == before[j - 1]);
                    assert(f32_le(before[i].pos.y, item.pos.y));
                    assert(!f32_le(before[j - 1].pos.y, item.pos.y));
                } else if i < p && j == p {
                    assert(f32_le(before[i].pos.y, item.pos.y));
                } else if i == p && j > p {
                    assert(!f32_le(before[j - 1].pos.y, item.pos.y));
                } else if i > p {
                    assert(after[i] == before[i - 1]);
                    assert(after[j] == before[j - 1]);
                } else if j < p {
                    assert(after[i] == before[i]);
                    assert(after[j] == before[j]);
                }
            }
            assert forall|i: int| 0 <= i < after.len() implies !f32_is_nan(
                #[trigger] after[i].pos.y,
            ) by {
                if i < p {
                    assert(after[i] == before[i]);
                } else if i > p {
                    assert(after[i] == before[i - 1]);
                }
            }
        }
    }

    /// Lays the items of `items` on the ground, one entry per unit in stack
    /// order; the `i`-th one lands at `positions[i]` and is inserted after
    /// every item at or below its height.
    pub fn spawn_world_items(&mut self, items: Vec<ItemStack>, positions: Vec<Position>)
        requires
            items_ordered(old(self).world_items@),
            positions@.len() == expand_stacks(items@).len(),
            forall|i: int| 0 <= i < positions@.len() ==> !f32_is_nan(#[trigger] positions@[i].y),
        ensures
            items_ordered(final(self).world_items@),
            final(self).world_items@ == sorted_insert_all(
                old(self).world_items@,
                place_items(expand_stacks(items@), positions@),
            ),
            final(self).tile_objects == old(self).tile_objects,
    {
        let ghost all = place_items(expand_stacks(items@), positions@);
        let ghost start = self.world_items@;
        let mut placed: usize = 0;
        let mut s: usize = 0;
        while s < items.len()
            invariant
                items_ordered(self.world_items@),
                self.tile_objects == old(self).tile_objects,
                start == old(self).world_items@,
                all == place_items(expand_stacks(items@), positions@),
                positions@.len() == expand_stacks(items@).len(),
                forall|i: int| 0 <= i < positions@.len() ==> !f32_is_nan(#[trigger] positions@[i].y),
                0 <= s <= items@.len(),
                placed == expand_stacks(items@.take(s as int)).len(),
                expand_stacks(items@.take(s as int)) =~= expand_stacks(items@).take(placed as int),
                placed <= positions@.len(),
                self.world_items@ == sorted_insert_all(start, all.take(placed as int)),
            decreases items@.len() - s,
        {
            let stack = items[s];
            proof {
                lemma_expand_take_step(items@, s as int);
            }
            let mut k: u32 = 0;
            while k < stack.count
                invariant
                    items_ordered(self.world_items@),
                    self.tile_objects == old(self).tile_objects,
                    all == place_items(expand_stacks(items@), positions@),
                    positions@.len() == expand_stacks(items@).len(),
                    forall|i: int|
                        0 <= i < positions@.len() ==> !f32_is_nan(#[trigger] positions@[i].y),
                    0 <= s < items@.len(),
                    stack == items@[s as int],
                    k <= stack.count,
                    placed == expand_stacks(items@.take(s as int)).len() + k,
                    expand_stacks(items@.take(s as int + 1)) =~= expand_stacks(items@).take(
                        expand_stacks(items@.take(s as int)).len() + stack.count,
                    ),
                    expand_stacks(items@.take(s as int + 1)) =~= expand_stacks(
                        items@.take(s as int),
                    ) + Seq::new(stack.count as nat, |_j: int| stack.item),
                    expand_stacks(items@.take(s as int + 1)).len() <= positions@.len(),
                    self.world_items@ == sorted_insert_all(start, all.take(placed as int)),
                decreases stack.count - k,
            {
                let ghost before = all.take(placed as int);
                let world_item = WorldItem { item: stack.item, pos: positions[placed] };
                proof {
                    assert(expand_stacks(items@)[placed as int] == stack.item) by {
                        assert(expand_stacks(items@.take(s as int + 1))[placed as int]
                            == stack.item);
                    }
                    assert(all[placed as int] == world_item);
                    assert(all.take(placed as int + 1).drop_last() =~= before);
                }
                self.insert_world_item(world_item);
                assert(placed < positions.len());
                placed = placed + 1;
                k = k + 1;
            }
            s = s + 1;
        }
        proof {
            assert(items@.take(items@.len() as int) =~= items@);
            assert(all.take(placed as int) =~= all);
        }
    }

    pub fn get_world_item(&self, index: WorldItemIndex) -> (r: &WorldItem)
        requires
            index.0 < self.world_items@.len(),
        ensures
            *r == self.world_items@[index.0 as int],
    {
        &self.world_items[index.0]
    }

    pub fn remove_world_item(&mut self, index: WorldItemIndex) -> (r: WorldItem)
        requires
            index.0 < old(self).world_items@.len(),
        ensures
            items_ordered(old(self).world_items@) ==> items_ordered(final(self).world_items@),
            r == old(self).world_items@[index.0 as int],
            final(self).world_items@ == old(self).world_items@.remove(index.0 as int),
            final(self).tile_objects == old(self).tile_objects,
    {
        let ghost before = self.world_items@;
        let r = self.world_items.remove(index.0);
        proof {
            if items_ordered(before) {
                let after = self.world_items@;
                let p = index.0 as int;
                assert forall|i: int, j: int| 0 <= i <= j < after.len() implies f32_rank(
                    #[trigger] after[i].pos.y,
                ) <= f32_rank(#[trigger] after[j].pos.y) by {
                    let bi = if i < p { i } else { i + 1 };
                    let bj = if j < p { j } else { j + 1 };
                    assert(after[i] == before[bi]);
                    assert(after[j] == before[bj]);
                    assert(f32_rank(before[bi].pos.y) <= f32_rank(before[bj].pos.y));
                }
                assert forall|i: int| 0 <= i < after.len() implies !f32_is_nan(
                    #[trigger] after[i].pos.y,
                ) by {
                    let bi = if i < p { i } else { i + 1 };
                    assert(after[i] == before[bi]);
                }
            }
        }
        r
    }
}

/// In a sequence ordered by height, once one item is above `y` the count of
/// items at or below `y` is at most its index.
proof fn lemma_count_prefix_bound(items: Seq<WorldItem>, y: u32, j: int)
    requires
        0 <= j < items.len(),
        forall|k: int| j <= k < items.len() ==> !f32_le(#[trigger] items[k].pos.y, y),
    ensures
        count_at_or_below(items, y) <= j,
    decreases items.len(),
{
    if items.len() - 1 > j {
        assert(!f32_le(items[items.len() - 1].pos.y, y));
        lemma_count_prefix_bound(items.drop_last(), y, j);
    } else {
        lemma_count_le_len(items.drop_last(), y);
    }
}

/// If the first `p` items are at or below `y`, at least `p` items are.
proof fn lemma_count_prefix_lower(items: Seq<WorldItem>, y: u32, p: int)
    requires
        0 <= p <= items.len(),
        forall|k: int| 0 <= k < p ==> f32_le(#[trigger] items[k].pos.y, y),
    ensures
        count_at_or_below(items, y) >= p,
    decreases items.len(),
{
    if items.len() > 0 {
        if p == items.len() {
            assert(f32_le(items[items.len() - 1].pos.y, y));
            lemma_count_prefix_lower(items.drop_last(), y, p - 1);
        } else {
            lemma_count_prefix_lower(items.drop_last(), y, p);
        }
    }
}

proof fn lemma_count_le_len(items: Seq<WorldItem>, y: u32)
    ensures
        count_at_or_below(items, y) <= items.len(),
    decreases items.len(),
{
    if items.len() > 0 {
        lemma_count_le_len(items.drop_last(), y);
    }
}

/// Expanding one more stack appends its units.
proof fn lemma_expand_take_step(stacks: Seq<ItemStack>, s: int)
    requires
        0 <= s < stacks.len(),
        expand_stacks(stacks.take(s)) =~= expand_stacks(stacks).take(expand_stacks(stacks.take(s)).len() as int),
    ensures
        expand_stacks(stacks.take(s + 1)) =~= expand_stacks(stacks.take(s)) + Seq::new(
            stacks[s].count as nat,
            |_j: int| stacks[s].item,
        ),
        expand_stacks(stacks.take(s + 1)) =~= expand_stacks(stacks).take(
            expand_stacks(stacks.take(s + 1)).len() as int,
        ),
        expand_stacks(stacks.take(s + 1)).len() <= expand_stacks(stacks).len(),
{
    assert(stacks.take(s + 1).drop_last() =~= stacks.take(s));
    lemma_expand_prefix(stacks, s + 1);
}

/// Expanding a prefix of the stacks gives a prefix of the expansion.
proof fn lemma_expand_prefix(stacks: Seq<ItemStack>, s: int)
    requires
        0 <= s <= stacks.len(),
    ensures
        expand_stacks(stacks.take(s)) =~= expand_stacks(stacks).take(
            expand_stacks(stacks.take(s)).len() as int,
        ),
        expand_stacks(stacks.take(s)).len() <= expand_stacks(stacks).len(),
    decreases stacks.len(),
{
    if s == stacks.len() {
        assert(stacks.take(s) =~= stacks);
    } else {
        lemma_expand_prefix(stacks.drop_last(), s);
        assert(stacks.drop_last().take(s) =~= stacks.take(s));
    }
}

} // verus!
