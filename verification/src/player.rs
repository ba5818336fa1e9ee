use vstd::prelude::*;

use crate::item::{Item, ItemStack, WorldItem, WorldItemIndex};
use crate::position::Position;
use crate::world::{World, items_ordered};
use vstd::std_specs::iter::IteratorSpec;

verus! {

pub struct Player {
    pub pos: Position,
    pub inventory: Inventory,
}

/// The player's items, one stack per kind of item, in the order in which
/// the kinds were first picked up.
pub struct Inventory {
    items: Vec<ItemStack>,
}

impl View for Inventory {
    type V = Seq<ItemStack>;

    closed spec fn view(&self) -> Seq<ItemStack> {
        self.items@
    }
}

/// Index of the first stack of `item`, or `stacks.len()` when there is none.
pub open spec fn stack_index(stacks: Seq<ItemStack>, item: Item) -> int
    decreases stacks.len(),
{
    if stacks.len() == 0 {
        0
    } else if stacks[0].item == item {
        0
    } else {
        1 + stack_index(stacks.drop_first(), item)
    }
}

/// Adding `stack` does not overflow the count of an existing stack.
pub open spec fn can_add(stacks: Seq<ItemStack>, stack: ItemStack) -> bool {
    let i = stack_index(stacks, stack.item);
    i < stacks.len() ==> stacks[i].count + stack.count <= u32::MAX
}

/// `stacks` after adding `stack`: its count joins the first stack of the same
/// item, or it is appended when there is none.
pub open spec fn add_stack(stacks: Seq<ItemStack>, stack: ItemStack) -> Seq<ItemStack> {
    let i = stack_index(stacks, stack.item);
    if i < stacks.len() {
        stacks.update(
            i,
            ItemStack { item: stack.item, count: (stacks[i].count + stack.count) as u32 },
        )
    } else {
        stacks.push(stack)
    }
}

/// No two stacks hold the same item.
pub open spec fn distinct_items(stacks: Seq<ItemStack>) -> bool {
    forall|i: int, j: int|
        0 <= i < j < stacks.len() ==> #[trigger] stacks[i].item != #[trigger] stacks[j].item
}

/// How many units of `item` the stacks hold together.
pub open spec fn count_of(stacks: Seq<ItemStack>, item: Item) -> int
    decreases stacks.len(),
{
    if stacks.len() == 0 {
        0
    } else {
        count_of(stacks.drop_last(), item) + if stacks.last().item == item {
            stacks.last().count as int
        } else {
            0int
        }
    }
}

/// How many of the items in `items` are `item`.
pub open spec fn world_count_of(items: Seq<WorldItem>, item: Item) -> int
    decreases items.len(),
{
    if items.len() == 0 {
        0
    } else {
        world_count_of(items.drop_last(), item) + if items.last().item == item {
            1int
        } else {
            0int
        }
    }
}

proof fn lemma_stack_index(stacks: Seq<ItemStack>, item: Item)
    ensures
        0 <= stack_index(stacks, item) <= stacks.len(),
        stack_index(stacks, item) < stacks.len() ==> stacks[stack_index(stacks, item)].item == item,
        forall|j: int| 0 <= j < stack_index(stacks, item) ==> #[trigger] stacks[j].item != item,
    decreases stacks.len(),
{
    if stacks.len() > 0 && stacks[0].item != item {
        lemma_stack_index(stacks.drop_first(), item);
        assert forall|j: int| 0 <= j < stack_index(stacks, item) implies #[trigger] stacks[j].item
            != item by {
            if j > 0 {
                assert(stacks[j] == stacks.drop_first()[j - 1]);
            }
        }
    }
}

/// Updating one stack changes the count of its item by the difference.
proof fn lemma_count_of_update(stacks: Seq<ItemStack>, i: int, new: ItemStack, item: Item)
    requires
        0 <= i < stacks.len(),
    ensures
        count_of(stacks.update(i, new), item) == count_of(stacks, item) - (if stacks[i].item
            == item {
            stacks[i].count as int
        } else {
            0
        }) + (if new.item == item {
            new.count as int
        } else {
            0
        }),
    decreases stacks.len(),
{
    let updated = stacks.update(i, new);
    if i == stacks.len() - 1 {
        assert(updated.drop_last() =~= stacks.drop_last());
    } else {
        assert(updated.drop_last() =~= stacks.drop_last().update(i, new));
        lemma_count_of_update(stacks.drop_last(), i, new, item);
    }
}

proof fn lemma_count_of_push(stacks: Seq<ItemStack>, new: ItemStack, item: Item)
    ensures
        count_of(stacks.push(new), item) == count_of(stacks, item) + (if new.item == item {
            new.count as int
        } else {
            0
        }),
{
    assert(stacks.push(new).drop_last() =~= stacks);
}

/// Adding a stack raises the count of its item by the stack's count and
/// leaves every other count as it was.
pub proof fn lemma_add_stack_counts(stacks: Seq<ItemStack>, stack: ItemStack, item: Item)
    requires
        can_add(stacks, stack),
    ensures
        count_of(add_stack(stacks, stack), item) == count_of(stacks, item) + (if stack.item
            == item {
            stack.count as int
        } else {
            0
        }),
{
    lemma_stack_index(stacks, stack.item);
    let i = stack_index(stacks, stack.item);
    if i < stacks.len() {
        lemma_count_of_update(
            stacks,
            i,
            ItemStack { item: stack.item, count: (stacks[i].count + stack.count) as u32 },
            item,
        );
    } else {
        lemma_count_of_push(stacks, stack, item);
    }
}

/// Adding a stack keeps the inventory at one stack per item.
pub proof fn lemma_add_stack_distinct(stacks: Seq<ItemStack>, stack: ItemStack)
    requires
        distinct_items(stacks),
    ensures
        distinct_items(add_stack(stacks, stack)),
{
    lemma_stack_index(stacks, stack.item);
    let i = stack_index(stacks, stack.item);
    let r = add_stack(stacks, stack);
    if i >= stacks.len() {
        assert forall|a: int, b: int| 0 <= a < b < r.len() implies #[trigger] r[a].item
            != #[trigger] r[b].item by {
            if b == stacks.len() {
                assert(r[a] == stacks[a]);
            } else {
                assert(r[a] == stacks[a]);
                assert(r[b] == stacks[b]);
            }
        }
    }
}

/// Removing the `i`-th item lowers its item's count by one.
proof fn lemma_world_count_remove(items: Seq<WorldItem>, i: int, item: Item)
    requires
        0 <= i < items.len(),
    ensures
        world_count_of(items.remove(i), item) == world_count_of(items, item) - (if items[i].item
            == item {
            1int
        } else {
            0
        }),
    decreases items.len(),
{
    let removed = items.remove(i);
    if i == items.len() - 1 {
        assert(removed =~= items.drop_last());
    } else {
        assert(removed.drop_last() =~= items.drop_last().remove(i));
        lemma_world_count_remove(items.drop_last(), i, item);
    }
}

/// Picking up the `i`-th item moves it from the ground into the inventory:
/// for every kind of item, the units in the inventory plus those on the
/// ground stay the same.
pub proof fn lemma_pickup_conserves(
    stacks: Seq<ItemStack>,
    items: Seq<WorldItem>,
    i: int,
    item: Item,
)
    requires
        0 <= i < items.len(),
        can_add(stacks, ItemStack { item: items[i].item, count: 1 }),
    ensures
        count_of(add_stack(stacks, ItemStack { item: items[i].item, count: 1 }), item)
            + world_count_of(items.remove(i), item) == count_of(stacks, item) + world_count_of(
            items,
            item,
        ),
{
    lemma_add_stack_counts(stacks, ItemStack { item: items[i].item, count: 1 }, item);
    lemma_world_count_remove(items, i, item);
}


/// `j` is the first stack of `item` (or the end) when no stack before it holds
/// `item` and the stack at `j`, if any, does.
proof fn lemma_stack_index_unique(stacks: Seq<ItemStack>, item: Item, j: int)
    requires
        0 <= j <= stacks.len(),
        forall|k: int| 0 <= k < j ==> #[trigger] stacks[k].item != item,
        j < stacks.len() ==> stacks[j].item == item,
    ensures
        stack_index(stacks, item) == j,
{
    lemma_stack_index(stacks, item);
    let i = stack_index(stacks, item);
    if i < j {
        assert(stacks[i].item != item);
    } else if i > j {
        assert(stacks[j].item != item);
    }
}

/// Where the first stack of `item` is after adding `stack`: where it was, or
/// at the end when there was none.
proof fn lemma_stack_index_after_add(stacks: Seq<ItemStack>, stack: ItemStack, item: Item)
    ensures
        stack_index(add_stack(stacks, stack), item) == if stack_index(stacks, item) < stacks.len() {
            stack_index(stacks, item)
        } else if item == stack.item {
            stacks.len() as int
        } else {
            add_stack(stacks, stack).len() as int
        },
{
    lemma_stack_index(stacks, item);
    lemma_stack_index(stacks, stack.item);
    let after = add_stack(stacks, stack);
    let j = if stack_index(stacks, item) < stacks.len() {
        stack_index(stacks, item)
    } else if item == stack.item {
        stacks.len() as int
    } else {
        after.len() as int
    };
    assert forall|k: int| 0 <= k < j implies #[trigger] after[k].item != item by {
        if k < stacks.len() {
            assert(stacks[k].item != item);
        }
    }
    lemma_stack_index_unique(after, item, j);
}

/// Adding two stacks gives the same stacks in either order (only two newly
/// appended stacks may swap places), and either way each item's count grows
/// by the counts of the added stacks of that item.
pub proof fn lemma_add_stacks_commute(stacks: Seq<ItemStack>, a: ItemStack, b: ItemStack, item: Item)
    requires
        can_add(stacks, a),
        can_add(add_stack(stacks, a), b),
        can_add(stacks, b),
        can_add(add_stack(stacks, b), a),
    ensures
        add_stack(add_stack(stacks, a), b).to_multiset() =~= add_stack(
            add_stack(stacks, b),
            a,
        ).to_multiset(),
        count_of(add_stack(add_stack(stacks, a), b), item) == count_of(stacks, item) + (if a.item
            == item {
            a.count as int
        } else {
            0
        }) + (if b.item == item {
            b.count as int
        } else {
            0
        }),
        count_of(add_stack(add_stack(stacks, b), a), item) == count_of(
            add_stack(add_stack(stacks, a), b),
            item,
        ),
{
    let ab = add_stack(add_stack(stacks, a), b);
    let ba = add_stack(add_stack(stacks, b), a);
    lemma_stack_index(stacks, a.item);
    lemma_stack_index(stacks, b.item);
    lemma_stack_index_after_add(stacks, a, b.item);
    lemma_stack_index_after_add(stacks, b, a.item);
    lemma_add_stack_counts(stacks, a, item);
    lemma_add_stack_counts(add_stack(stacks, a), b, item);
    lemma_add_stack_counts(stacks, b, item);
    lemma_add_stack_counts(add_stack(stacks, b), a, item);
    let ia = stack_index(stacks, a.item);
    let ib = stack_index(stacks, b.item);
    let n = stacks.len();
    if ia == n && ib == n && a.item != b.item {
        assert(ab =~= stacks.push(a).push(b));
        assert(ba =~= stacks.push(b).push(a));
        vstd::seq_lib::to_multiset_build(stacks.push(a), b);
        vstd::seq_lib::to_multiset_build(stacks.push(b), a);
        vstd::seq_lib::to_multiset_build(stacks, a);
        vstd::seq_lib::to_multiset_build(stacks, b);
        broadcast use vstd::multiset::group_multiset_axioms;

        assert(ab.to_multiset() =~= ba.to_multiset());
    } else {
        assert(ab =~= ba);
    }
}

/// A stack can be added exactly when the merged count stays within `u32`:
/// when the first stack holding its item, if there is one, can take its count
/// without overflowing.
pub proof fn lemma_can_add_exactly_without_overflow(stacks: Seq<ItemStack>, stack: ItemStack)
    ensures
        can_add(stacks, stack) <==> forall|i: int|
            0 <= i < stacks.len() && stacks[i].item == stack.item && (forall|j: int|
                0 <= j < i ==> #[trigger] stacks[j].item != stack.item) ==> #[trigger] stacks[i].count
                + stack.count <= u32::MAX,
        (forall|i: int| 0 <= i < stacks.len() ==> #[trigger] stacks[i].item != stack.item)
            ==> can_add(stacks, stack),
{
    lemma_stack_index(stacks, stack.item);
    let f = stack_index(stacks, stack.item);
    if f < stacks.len() {
        assert forall|i: int|
            0 <= i < stacks.len() && stacks[i].item == stack.item && (forall|j: int|
                0 <= j < i ==> #[trigger] stacks[j].item != stack.item) implies i == f by {
            if i < f {
                assert(stacks[i].item != stack.item);
            } else if i > f {
                assert(stacks[f].item != stack.item);
            }
        }
    }
}

/// When the inventory holds one stack per item, a stack can be added exactly
/// when the inventory's count of its item plus its own count fits in `u32`.
pub proof fn lemma_can_add_by_count(stacks: Seq<ItemStack>, stack: ItemStack)
    requires
        distinct_items(stacks),
    ensures
        can_add(stacks, stack) <==> count_of(stacks, stack.item) + stack.count <= u32::MAX,
{
    lemma_stack_index(stacks, stack.item);
    lemma_count_of_distinct(stacks, stack.item);
}

/// In an inventory with one stack per item, the count of an item is that of
/// its stack, or 0 when it has none.
proof fn lemma_count_of_distinct(stacks: Seq<ItemStack>, item: Item)
    requires
        distinct_items(stacks),
    ensures
        count_of(stacks, item) == if stack_index(stacks, item) < stacks.len() {
            stacks[stack_index(stacks, item)].count as int
        } else {
            0
        },
    decreases stacks.len(),
{
    lemma_stack_index(stacks, item);
    if stacks.len() > 0 {
        let rest = stacks.drop_last();
        assert(distinct_items(rest)) by {
            assert forall|i: int, j: int| 0 <= i < j < rest.len() implies #[trigger] rest[i].item
                != #[trigger] rest[j].item by {
                assert(rest[i] == stacks[i] && rest[j] == stacks[j]);
            }
        }
        lemma_count_of_distinct(rest, item);
        lemma_stack_index(rest, item);
        let last = stacks.len() - 1;
        let fr = stack_index(rest, item);
        if fr < rest.len() {
            assert(rest[fr] == stacks[fr]);
            assert(forall|j: int| 0 <= j < fr ==> rest[j] == stacks[j]);
            lemma_stack_index_unique(stacks, item, fr);
            assert(stacks[last].item != item) by {
                assert(stacks[fr].item != stacks[last].item);
            }
        } else {
            assert forall|j: int| 0 <= j < last implies #[trigger] stacks[j].item != item by {
                assert(rest[j] == stacks[j]);
            }
            if stacks[last].item == item {
                lemma_stack_index_unique(stacks, item, last);
            } else {
                lemma_stack_index_unique(stacks, item, stacks.len() as int);
            }
        }
    }
}

impl Inventory {
    pub fn new() -> (r: Inventory)
        ensures
            r@ == Seq::<ItemStack>::empty(),
    {
        Inventory { items: Vec::new() }
    }

    /// Adds `items` to the first stack of the same item, or as a new stack.
    pub fn add_items(&mut self, items: ItemStack)
        requires
            can_add(old(self)@, items),
        ensures
            final(self)@ == add_stack(old(self)@, items),
    {
        proof {
            lemma_stack_index(self@, items.item);
        }
        let mut i: usize = 0;
        while i < self.items.len()
            invariant
                0 <= i <= self.items@.len(),
                self.items@ == old(self)@,
                can_add(old(self)@, items),
                forall|j: int| 0 <= j < i ==> #[trigger] self.items@[j].item != items.item,
            decreases self.items@.len() - i,
        {
            if self.items[i].item == items.item {
                proof {
                    lemma_stack_index(self@, items.item);
                    assert(stack_index(self@, items.item) == i as int);
                }
                let mut stack = self.items[i];
                stack.count = stack.count + items.count;
                self.items.set(i, stack);
                return;
            }
            i = i + 1;
        }
        proof {
            lemma_stack_index(self@, items.item);
            if stack_index(self@, items.item) < self@.len() {
                assert(self.items@[stack_index(self@, items.item)].item == items.item);
            }
        }
        self.items.push(items);
    }

    /// A copy of the inventory.
    pub(crate) fn duplicate(&self) -> (r: Inventory)
        ensures
            r@ == self@,
    {
        let mut items: Vec<ItemStack> = Vec::new();
        let mut i: usize = 0;
        while i < self.items.len()
            invariant
                0 <= i <= self.items@.len(),
                items@ == self.items@.take(i as int),
            decreases self.items@.len() - i,
        {
            items.push(self.items[i]);
            proof {
                assert(self.items@.take(i as int + 1) =~= self.items@.take(i as int).push(
                    self.items@[i as int],
                ));
            }
            i = i + 1;
        }
        proof {
            assert(self.items@.take(self.items@.len() as int) =~= self.items@);
        }
        Inventory { items }
    }

    /// Whether `items` can be added without overflowing a stack's count.
    pub fn fits(&self, items: ItemStack) -> (r: bool)
        ensures
            r == can_add(self@, items),
    {
        proof {
            lemma_stack_index(self@, items.item);
        }
        let mut i: usize = 0;
        while i < self.items.len()
            invariant
                0 <= i <= self.items@.len(),
                forall|j: int| 0 <= j < i ==> #[trigger] self.items@[j].item != items.item,
            decreases self.items@.len() - i,
        {
            if self.items[i].item == items.item {
                proof {
                    lemma_stack_index(self@, items.item);
                    assert(stack_index(self@, items.item) == i as int);
                }
                return self.items[i].count.checked_add(items.count).is_some();
            }
            i = i + 1;
        }
        proof {
            lemma_stack_index(self@, items.item);
            if stack_index(self@, items.item) < self@.len() {
                assert(self.items@[stack_index(self@, items.item)].item == items.item);
            }
        }
        true
    }

    /// The stacks, in order.
    pub fn iter(&self) -> (r: std::slice::Iter<'_, ItemStack>)
        ensures
            r.remaining() == self@.as_ref(),
    {
        broadcast use vstd::std_specs::slice::axiom_spec_slice_iter;

        self.items.as_slice().iter()
    }
}

impl Player {
    pub fn new() -> (r: Player)
        ensures
            r.pos == (Position { x: 0, y: 0 }),
            r.inventory@ == Seq::<ItemStack>::empty(),
    {
        Player { pos: Position::zero(), inventory: Inventory::new() }
    }

    /// Moves the item at `index` from the ground into the inventory.
    pub fn pickup_world_item(&mut self, world: &mut World, index: WorldItemIndex)
        requires
            index.0 < old(world).world_items@.len(),
            can_add(
                old(self).inventory@,
                ItemStack { item: old(world).world_items@[index.0 as int].item, count: 1 },
            ),
        ensures
            items_ordered(old(world).world_items@) ==> items_ordered(final(world).world_items@),
            final(world).world_items@ == old(world).world_items@.remove(index.0 as int),
            final(world).tile_objects == old(world).tile_objects,
            final(self).inventory@ == add_stack(
                old(self).inventory@,
                ItemStack { item: old(world).world_items@[index.0 as int].item, count: 1 },
            ),
            final(self).pos == old(self).pos,
    {
        let world_item = world.remove_world_item(index);
        self.inventory.add_items(ItemStack { item: world_item.item, count: 1 });
    }
}

} // verus!
