use vstd::prelude::*;

use std::collections::VecDeque;

use crate::event::{
    EventQueue, EventView, WorldEvent, drawn_from, events_valid, places_items, run, views,
};
use crate::item::{Axe, Item, ItemTool};
use crate::map::MapWorldData;
use crate::player::Player;
use crate::position::{Position, TilePos};
use crate::world::World;

verus! {

pub struct GameState {
    pub map_data: Option<MapWorldData>,
    pub player: Player,
    pub world: Option<World>,
    pub event_queue: VecDeque<WorldEvent>,
}

impl GameState {
    /// A game with no map loaded, the player at the origin with nothing,
    /// and no pending events.
    pub fn init() -> (r: GameState)
        ensures
            r.map_data is None,
            r.world is None,
            r.player.pos == (Position { x: 0, y: 0 }),
            r.player.inventory@.len() == 0,
            r.event_queue@.len() == 0,
    {
        GameState {
            map_data: None,
            player: Player::new(),
            world: None,
            event_queue: VecDeque::new(),
        }
    }

    /// Swings the axe at the tile in column `x`, row `y` (the player's
    /// position, rounded): queues the use of an axe on that tile. Does
    /// nothing while no map is loaded.
    pub fn on_action(&mut self, x: usize, y: usize)
        requires
            old(self).world matches Some(w) ==> y * w.tile_objects.cols() + x <= usize::MAX,
        ensures
            final(self).map_data == old(self).map_data,
            final(self).player == old(self).player,
            final(self).world == old(self).world,
            if old(self).world is None || old(self).map_data is None {
                final(self).event_queue@ == old(self).event_queue@
            } else {
                views(final(self).event_queue@) == views(old(self).event_queue@).push(
                    EventView::ItemUse {
                        item: Item::Tool(ItemTool::Axe(Axe {})),
                        target: (y * old(self).world.unwrap().tile_objects.cols() + x) as usize,
                    },
                )
            },
    {
        // The player always holds an axe for now.
        if self.world.is_none() || self.map_data.is_none() {
            return;
        }
        let target = match &self.world {
            Some(world) => world.get_tile_object_index(y, x),
            None => {
                return;
            },
        };
        let ghost before = self.event_queue@;
        let event = WorldEvent::ItemUse { item: Item::Tool(ItemTool::Axe(Axe {})), target };
        self.event_queue.push_back(event);
        assert(views(self.event_queue@) =~= views(before).push(event@));
    }
}

/// Works off the event queue against the world; dropped items land at
/// spots that `drop_position` gives around the tile where they dropped.
pub fn process_events<F: Fn(TilePos) -> Position>(game_state: &mut GameState, drop_position: &F)
    requires
        old(game_state).world matches Some(w) && w.wf() && events_valid(
            views(old(game_state).event_queue@),
            w@,
        ),
        places_items(*drop_position),
    ensures
        final(game_state).world matches Some(w) && w.wf() && exists|spots: Seq<Position>|
            {
                &&& drawn_from(
                    *drop_position,
                    run(
                        old(game_state).world.unwrap()@,
                        views(old(game_state).event_queue@),
                        spots,
                    ).1,
                    spots,
                )
                &&& w@ == run(
                    old(game_state).world.unwrap()@,
                    views(old(game_state).event_queue@),
                    spots,
                ).0
            },
        final(game_state).event_queue@.len() == 0,
        final(game_state).map_data == old(game_state).map_data,
        final(game_state).player == old(game_state).player,
{
    match &mut game_state.world {
        Some(world) => {
            game_state.event_queue.process(world, drop_position);
            assert(views(game_state.event_queue@).len() == game_state.event_queue@.len());
        },
        None => {},
    }
}

} // verus!
