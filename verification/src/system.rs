use vstd::prelude::*;

use crate::game::GameState;
use crate::item::{ItemStack, WorldItem, WorldItemIndex};
use crate::player::{Inventory, add_stack, can_add};
use crate::world::items_ordered;

verus! {

/// Inventory and ground items after picking up, in turn, the item at each
/// index of `indices` (an index counts in the ground items as they are at
/// that moment); `None` if an index is out of range or a stack would
/// overflow on the way.
pub open spec fn pickup_all(
    stacks: Seq<ItemStack>,
    items: Seq<WorldItem>,
    indices: Seq<WorldItemIndex>,
) -> Option<(Seq<ItemStack>, Seq<WorldItem>)>
    decreases indices.len(),
{
    if indices.len() == 0 {
        Some((stacks, items))
    } else {
        let i = indices[0].0 as int;
        if i < items.len() && can_add(stacks, ItemStack { item: items[i].item, count: 1 }) {
            pickup_all(
                add_stack(stacks, ItemStack { item: items[i].item, count: 1 }),
                items.remove(i),
                indices.drop_first(),
            )
        } else {
            None
        }
    }
}

/// Whether picking up, in turn, the ground item at each of `nearby` would go
/// through: every index in range when its turn comes, and no stack overflowing.
pub fn can_pickup_all(
    inventory: &Inventory,
    world_items: &Vec<WorldItem>,
    nearby: &Vec<WorldItemIndex>,
) -> (r: bool)
    ensures
        r == pickup_all(inventory@, world_items@, nearby@) is Some,
{
    let mut stacks = inventory.duplicate();
    let mut ground: Vec<WorldItem> = Vec::new();
    let mut j: usize = 0;
    while j < world_items.len()
        invariant
            0 <= j <= world_items@.len(),
            ground@ == world_items@.take(j as int),
        decreases world_items@.len() - j,
    {
        ground.push(world_items[j]);
        proof {
            assert(world_items@.take(j as int + 1) =~= world_items@.take(j as int).push(
                world_items@[j as int],
            ));
        }
        j = j + 1;
    }
    proof {
        assert(world_items@.take(world_items@.len() as int) =~= world_items@);
        assert(nearby@.skip(0) =~= nearby@);
    }
    let mut k: usize = 0;
    while k < nearby.len()
        invariant
            0 <= k <= nearby@.len(),
            pickup_all(stacks@, ground@, nearby@.skip(k as int)) is Some == pickup_all(
                inventory@,
                world_items@,
                nearby@,
            ) is Some,
        decreases nearby@.len() - k,
    {
        proof {
            assert(nearby@.skip(k as int)[0] == nearby@[k as int]);
            assert(nearby@.skip(k as int).drop_first() =~= nearby@.skip(k as int + 1));
        }
        let i = nearby[k].0;
        if i >= ground.len() {
            return false;
        }
        let stack = ItemStack { item: ground[i].item, count: 1 };
        if !stacks.fits(stack) {
            return false;
        }
        stacks.add_items(stack);
        ground.remove(i);
        k = k + 1;
    }
    proof {
        assert(nearby@.skip(k as int) =~= Seq::<WorldItemIndex>::empty());
    }
    true
}

/// Has the player pick up, in turn, the ground item at each of `nearby`, the
/// indices of the items within reach, in increasing order. Each index is
/// taken in the ground items as they are when its turn comes.
pub fn pickup_world_items(game_state: &mut GameState, nearby: Vec<WorldItemIndex>)
    requires
        old(game_state).world matches Some(w) && pickup_all(
            old(game_state).player.inventory@,
            w.world_items@,
            nearby@,
        ) is Some,
    ensures
        final(game_state).world matches Some(w) && (items_ordered(
            old(game_state).world.unwrap().world_items@,
        ) ==> items_ordered(w.world_items@)) && (
        final(game_state).player.inventory@,
        w.world_items@,
        ) == pickup_all(
            old(game_state).player.inventory@,
            old(game_state).world.unwrap().world_items@,
            nearby@,
        ).unwrap() && w.tile_objects == old(game_state).world.unwrap().tile_objects,
        final(game_state).player.pos == old(game_state).player.pos,
        final(game_state).map_data == old(game_state).map_data,
        final(game_state).event_queue == old(game_state).event_queue,
{
    let player = &mut game_state.player;
    match &mut game_state.world {
        Some(world) => {
            let ghost result = pickup_all(player.inventory@, world.world_items@, nearby@);
            let ghost tiles = world.tile_objects;
            assert(nearby@.skip(0) =~= nearby@);
            let mut k: usize = 0;
            while k < nearby.len()
                invariant
                    0 <= k <= nearby@.len(),
                    items_ordered(old(game_state).world.unwrap().world_items@) ==> items_ordered(
                        world.world_items@,
                    ),
                    world.tile_objects == tiles,
                    player.pos == old(game_state).player.pos,
                    pickup_all(player.inventory@, world.world_items@, nearby@.skip(k as int))
                        == result,
                    result is Some,
                decreases nearby@.len() - k,
            {
                proof {
                    assert(nearby@.skip(k as int)[0] == nearby@[k as int]);
                    assert(nearby@.skip(k as int).drop_first() =~= nearby@.skip(k as int + 1));
                }
                player.pickup_world_item(world, nearby[k]);
                k = k + 1;
            }
            proof {
                assert(nearby@.skip(k as int) =~= Seq::<WorldItemIndex>::empty());
            }
        },
        None => {},
    }
}

} // verus!
