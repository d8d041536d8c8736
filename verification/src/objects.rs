//! The player, the monster and the resources of a level, and what happens
//! when the player acts.

use rand::StdRng;
use vstd::prelude::*;

pub use crate::events::{
    action_of, event_views, key_action, Action, Event, EventCurioFound, EventObstacleFound,
    EventPlayerInDanger, EventPlayerMeetMonster, EventResourceFound, EventResourceGone,
    EventResourceRefill, EventView, Key,
};
use crate::map::{lemma_names_are_apart, GameMap};
use crate::path::{is_step, lemma_no_distance_to_itself, lists, straight_distance, Place};
use crate::random::choose_one;
pub use crate::resources::Resources;
use crate::settings::{given_or, Settings};
use crate::tile::TileType;

verus! {

/// The player: where they stand, how far they see, how much fuel burns in
/// the lamp and how many refills are left.
#[derive(Clone, Debug)]
pub struct Player {
    view_distance: u8,
    view_resource: u8,
    view_resource_max: u8,
    view_resource_count: u8,
    in_danger: bool,
    view_distance_danger: u8,
    pub x: usize,
    pub y: usize,
}

/// The player as the contracts see them.
pub struct PlayerView {
    pub view_distance: u8,
    pub view_resource: u8,
    pub view_resource_max: u8,
    pub view_resource_count: u8,
    pub in_danger: bool,
    pub view_distance_danger: u8,
    pub x: usize,
    pub y: usize,
}

impl PlayerView {
    /// Where the player stands.
    pub open spec fn place(self) -> Place {
        (self.x, self.y)
    }

    /// How far the player sees: nothing without fuel, less in danger.
    pub open spec fn sight(self) -> u8 {
        if self.view_resource > 0 {
            if self.in_danger {
                self.view_distance_danger
            } else {
                self.view_distance
            }
        } else {
            0
        }
    }

    /// The player after a refill, where one is left.
    pub open spec fn refilled(self) -> PlayerView {
        if self.view_resource_count == 0 {
            self
        } else {
            PlayerView {
                view_resource: self.view_resource_max,
                view_resource_count: (self.view_resource_count - 1) as u8,
                ..self
            }
        }
    }

    /// The player after a unit of fuel has burnt, where any was left.
    pub open spec fn drained(self) -> PlayerView {
        if self.view_resource == 0 {
            self
        } else {
            PlayerView { view_resource: (self.view_resource - 1) as u8, ..self }
        }
    }

    /// The player with one refill more, where one more can be counted.
    pub open spec fn stocked(self) -> PlayerView {
        if self.view_resource_count == 255 {
            self
        } else {
            PlayerView { view_resource_count: (self.view_resource_count + 1) as u8, ..self }
        }
    }
}

impl View for Player {
    type V = PlayerView;

    closed spec fn view(&self) -> PlayerView {
        PlayerView {
            view_distance: self.view_distance,
            view_resource: self.view_resource,
            view_resource_max: self.view_resource_max,
            view_resource_count: self.view_resource_count,
            in_danger: self.in_danger,
            view_distance_danger: self.view_distance_danger,
            x: self.x,
            y: self.y,
        }
    }
}

impl Player {
    /// A player at the given place, with a full lamp, out of danger.
    pub fn init(start_x: usize, start_y: usize, settings: &Settings) -> (player: Player)
        ensures
            player@ == (PlayerView {
                view_distance: given_or(settings.visible_distance, 5),
                view_distance_danger: given_or(settings.visible_distance_danger, 2),
                view_resource_max: given_or(settings.resource_max, 10),
                view_resource_count: given_or(settings.resource_start, 3),
                view_resource: given_or(settings.resource_max, 10),
                in_danger: false,
                x: start_x,
                y: start_y,
            }),
    {
        let mut player = Player {
            view_distance: settings.view_distance(),
            view_distance_danger: settings.view_distance_danger(),
            view_resource_max: settings.view_resource_max(),
            view_resource_count: settings.view_resource_count(),
            view_resource: 0,
            in_danger: false,
            x: start_x,
            y: start_y,
        };
        player.view_resource = player.view_resource_max;
        player
    }

    /// Where the player stands.
    pub fn place(&self) -> (at: (usize, usize))
        ensures
            at == self@.place(),
    {
        (self.x, self.y)
    }

    /// How far the player sees: 0 without fuel, whatever the danger.
    pub fn get_view_distance(&self) -> (distance: u8)
        ensures
            distance == self@.sight(),
            self@.view_resource == 0 ==> distance == 0,
    {
        if self.view_resource > 0 {
            if self.in_danger {
                self.view_distance_danger
            } else {
                self.view_distance
            }
        } else {
            0
        }
    }

    /// How much fuel burns in the lamp.
    pub fn get_view_resource(&self) -> (fuel: u8)
        ensures
            fuel == self@.view_resource,
    {
        self.view_resource
    }

    /// How much fuel a full lamp holds.
    pub fn get_view_resource_max(&self) -> (fuel: u8)
        ensures
            fuel == self@.view_resource_max,
    {
        self.view_resource_max
    }

    /// How many refills are left.
    pub fn get_view_resource_count(&self) -> (refills: u8)
        ensures
            refills == self@.view_resource_count,
    {
        self.view_resource_count
    }

    /// Whether the monster was near after the last action.
    pub fn is_in_danger(&self) -> (danger: bool)
        ensures
            danger == self@.in_danger,
    {
        self.in_danger
    }

    /// Fills the lamp from the stock of refills. Fails, and changes
    /// nothing, where none is left.
    pub fn refill_view_resource(&mut self) -> (refilled: Result<(), ()>)
        ensures
            refilled is Ok <==> old(self)@.view_resource_count > 0,
            final(self)@ == old(self)@.refilled(),
    {
        match self.view_resource_count {
            0 => Err(()),
            _ => {
                self.view_resource = self.view_resource_max;
                self.view_resource_count -= 1;
                Ok(())
            },
        }
    }

    /// Burns one unit of fuel, if any is left.
    pub fn drain_view_resource(&mut self)
        ensures
            final(self)@ == old(self)@.drained(),
    {
        if self.view_resource > 0 {
            self.view_resource -= 1;
        }
    }

    /// Adds one refill to the stock, unless it is full.
    pub fn add_view_resource_count(&mut self)
        ensures
            final(self)@ == old(self)@.stocked(),
    {
        if let Some(new_count) = self.view_resource_count.checked_add(1) {
            self.view_resource_count = new_count;
        };
    }
}

/// A position brought back into a map of the given side.
pub open spec fn clamped(position: int, side: nat) -> usize {
    if position < 0 {
        0
    } else if position >= side {
        (side - 1) as usize
    } else {
        position as usize
    }
}

/// The cell that a step from `at` leads to: `at` moved by the two
/// modifiers, and brought back into the map where that leads out of it.
pub open spec fn step_target(at: Place, x_mod: isize, y_mod: isize, side: nat) -> Place {
    (clamped(at.0 + x_mod, side), clamped(at.1 + y_mod, side))
}

/// Moves a coordinate and brings it back into the map.
pub fn shifted(at: usize, by: isize, side: usize) -> (to: usize)
    requires
        side > 0,
    ensures
        to == clamped(at + by, side as nat),
{
    if by >= 0 {
        let forth = by as usize;
        if at >= side - 1 || forth >= side - 1 - at {
            side - 1
        } else {
            at + forth
        }
    } else {
        let back = (-(by + 1)) as usize;
        if back >= at {
            0
        } else if at - back - 1 >= side {
            side - 1
        } else {
            at - back - 1
        }
    }
}

/// What an action makes of the player, before the world reacts.
pub struct Acted {
    pub player: PlayerView,
    pub events: Seq<EventView>,
    pub updated: bool,
}

/// The player after an action, the events of the action itself, and
/// whether the action counts as a turn.
///
/// A step that the edge of the map holds back entirely is nothing at all.
/// A step onto a cell that can be entered moves the player and burns fuel;
/// on a curio it is an event. A step against an obstacle moves nothing, but
/// is an event and a turn. A step against a wall is nothing at all. A refill
/// is an event and a turn, whether or not it succeeds.
pub open spec fn acted(player: PlayerView, action: Action, map: &GameMap) -> Acted {
    match action {
        Action::Step(x_mod, y_mod) => {
            let target = step_target(player.place(), x_mod, y_mod, map.side());
            let tile = map.tile_at(target);
            if target == player.place() {
                Acted { player, events: Seq::empty(), updated: false }
            } else if tile.passable {
                Acted {
                    player: (PlayerView { x: target.0, y: target.1, ..player }).drained(),
                    events: if tile.ttype is Curiosity {
                        seq![EventView::CurioFound { name: tile.search_text }]
                    } else {
                        Seq::empty()
                    },
                    updated: true,
                }
            } else if tile.ttype is Obstacle {
                Acted {
                    player,
                    events: seq![EventView::ObstacleFound { text: tile.search_text }],
                    updated: true,
                }
            } else {
                Acted { player, events: Seq::empty(), updated: false }
            }
        },
        Action::Refill => Acted {
            player: player.refilled(),
            events: seq![EventView::RefillResult { success: player.view_resource_count > 0 }],
            updated: true,
        },
    }
}

/// Whether the monster is a danger to a player at `at`: it lives, and both
/// the straight-line distance and the distance along the path found, if one
/// was found, are below its danger distance.
pub open spec fn endangered(at: Place, monster: KoboldView, path: Option<u8>) -> bool {
    &&& monster.alive
    &&& straight_distance(at, monster.place()) < monster.danger_distance
    &&& path matches Some(steps)
    &&& steps < monster.danger_distance
}

/// One event for each of the first `upto` resources that lies at `at`, in
/// the order of the list.
pub open spec fn found_resources(locations: Seq<Place>, at: Place, upto: nat) -> Seq<EventView>
    decreases upto,
{
    if upto == 0 {
        Seq::empty()
    } else {
        let before = found_resources(locations, at, (upto - 1) as nat);
        if locations[upto - 1] == at {
            before.push(EventView::ResourceFound { index: (upto - 1) as usize })
        } else {
            before
        }
    }
}

/// The events with which the world reacts to where the player now stands:
/// danger, a meeting with the monster, each resource found, and the fuel
/// running out.
pub open spec fn reactions(
    player: PlayerView,
    fuel_before: u8,
    monster: KoboldView,
    resources: Seq<Place>,
    path: Option<u8>,
) -> Seq<EventView> {
    (if endangered(player.place(), monster, path) {
        seq![EventView::PlayerInDanger]
    } else {
        Seq::empty()
    }) + (if monster.alive && player.place() == monster.place() {
        seq![EventView::PlayerMeetMonster]
    } else {
        Seq::empty()
    }) + found_resources(resources, player.place(), resources.len()) + (if fuel_before > 0
        && player.view_resource == 0 {
        seq![EventView::ResourceGone]
    } else {
        Seq::empty()
    })
}

/// `event` tells of the finding of a resource that lies at `at`.
pub open spec fn finds_at(event: EventView, locations: Seq<Place>, at: Place) -> bool {
    event matches EventView::ResourceFound { index } && index < locations.len()
        && locations[index as int]
        == at
}

/// Each resource at `at` is found exactly once: the events name the
/// indices of those resources, in ascending order.
pub proof fn lemma_each_resource_found_once(locations: Seq<Place>, at: Place, upto: nat)
    requires
        upto <= locations.len(),
        upto <= usize::MAX,
    ensures
        forall|k: int|
            0 <= k < found_resources(locations, at, upto).len() ==> finds_at(
                #[trigger] found_resources(locations, at, upto)[k],
                locations,
                at,
            ) && found_resources(locations, at, upto)[k]->index < upto,
        forall|k: int, l: int|
            0 <= k < l < found_resources(locations, at, upto).len() ==> (#[trigger] found_resources(
                locations,
                at,
                upto,
            )[k])->index < (#[trigger] found_resources(locations, at, upto)[l])->index,
        forall|i: int|
            0 <= i < upto && locations[i] == at ==> found_resources(locations, at, upto).contains(
                EventView::ResourceFound { index: i as usize },
            ),
    decreases upto,
{
    if upto > 0 {
        let before = found_resources(locations, at, (upto - 1) as nat);
        let now = found_resources(locations, at, upto);
        lemma_each_resource_found_once(locations, at, (upto - 1) as nat);
        assert forall|i: int| 0 <= i < upto && locations[i] == at implies now.contains(
            EventView::ResourceFound { index: i as usize },
        ) by {
            let wanted = EventView::ResourceFound { index: i as usize };
            if i < upto - 1 {
                assert(before.contains(wanted));
                let k = choose|k: int| 0 <= k < before.len() && before[k] == wanted;
                assert(now[k] == wanted);
            } else {
                assert(now[now.len() - 1] == wanted);
            }
        }
    }
}

impl Player {
    /// Steps by the two modifiers, as far as the map goes. The player moves
    /// if the cell stepped to can be entered; else that cell is the error.
    /// A player who stood in the map, or who has moved, stands in the map.
    pub fn move_relative(&mut self, x_mod: isize, y_mod: isize, map: &GameMap) -> (moved: Result<
        (),
        (usize, usize),
    >)
        requires
            map.is_square(),
            map.side() > 0,
        ensures
            ({
                let target = step_target(old(self)@.place(), x_mod, y_mod, map.side());
                if map.tile_at(target).passable {
                    moved is Ok && final(self)@ == (PlayerView {
                        x: target.0,
                        y: target.1,
                        ..old(self)@
                    })
                } else {
                    moved == Err::<(), (usize, usize)>(target) && final(self)@ == old(self)@
                }
            }),
            map.in_map(old(self)@.place()) || moved is Ok ==> map.in_map(final(self)@.place()),
    {
        let map_side = map.tiles.len();
        let new_x = shifted(self.x, x_mod, map_side);
        let new_y = shifted(self.y, y_mod, map_side);
        assert(map.tiles@[new_x as int]@.len() == map.tiles@.len());
        if map.tiles[new_x][new_y].passable {
            self.x = new_x;
            self.y = new_y;
            Ok(())
        } else {
            Err((new_x, new_y))
        }
    }

    /// Carries out an action and appends its own events to `events`.
    pub fn act(&mut self, action: Action, map: &GameMap, events: &mut Vec<Event>) -> (updated: bool)
        requires
            map.is_square(),
            map.side() > 0,
        ensures
            final(self)@ == acted(old(self)@, action, map).player,
            event_views(final(events)@) == event_views(old(events)@) + acted(
                old(self)@,
                action,
                map,
            ).events,
            updated == acted(old(self)@, action, map).updated,
    {
        let ghost base = event_views(events@);
        match action {
            Action::Step(x_mod, y_mod) => {
                let (from_x, from_y) = (self.x, self.y);
                match self.move_relative(x_mod, y_mod, map) {
                    Ok(_) => {
                        if self.x == from_x && self.y == from_y {
                            assert(event_views(events@) =~= base + Seq::<EventView>::empty());
                            return false;
                        }
                        self.drain_view_resource();
                        assert(map.tiles@[self.x as int]@.len() == map.tiles@.len());
                        if let TileType::Curiosity = map.tiles[self.x][self.y].ttype {
                            let curio_found = EventCurioFound {
                                scene: map.tiles[self.x][self.y].search_text.clone(),
                            };
                            let ghost before = events@;
                            events.push(Event::CurioFound(curio_found));
                            assert(event_views(events@) =~= event_views(before).push(
                                events@[before.len() as int]@,
                            ));
                            assert(event_views(events@) =~= base + seq![
                                EventView::CurioFound {
                                    name: map.tile_at((self.x, self.y)).search_text,
                                },
                            ]);
                        } else {
                            assert(event_views(events@) =~= base + Seq::<EventView>::empty());
                        }
                        true
                    },
                    Err((x, y)) => {
                        assert(map.tiles@[x as int]@.len() == map.tiles@.len());
                        if x == from_x && y == from_y {
                            assert(event_views(events@) =~= base + Seq::<EventView>::empty());
                            false
                        } else if let TileType::Obstacle = map.tiles[x][y].ttype {
                            let obstacle_found = EventObstacleFound {
                                text: map.tiles[x][y].search_text.clone(),
                            };
                            let ghost before = events@;
                            events.push(Event::ObstacleFound(obstacle_found));
                            assert(event_views(events@) =~= event_views(before).push(
                                events@[before.len() as int]@,
                            ));
                            assert(event_views(events@) =~= base + seq![
                                EventView::ObstacleFound { text: map.tile_at((x, y)).search_text },
                            ]);
                            true
                        } else {
                            assert(event_views(events@) =~= base + Seq::<EventView>::empty());
                            false
                        }
                    },
                }
            },
            Action::Refill => {
                let refill_result_event = EventResourceRefill {
                    success: match self.refill_view_resource() {
                        Ok(_) => true,
                        Err(_) => false,
                    },
                };
                let ghost before = events@;
                events.push(Event::RefillResult(refill_result_event));
                assert(event_views(events@) =~= event_views(before).push(
                    events@[before.len() as int]@,
                ));
                assert(event_views(events@) =~= base + seq![
                    EventView::RefillResult { success: old(self)@.view_resource_count > 0 },
                ]);
                true
            },
        }
    }

    /// Lets the world react to where the player stands after an action:
    /// sets the danger the player is in, and appends the reactions to
    /// `events`. `fuel_before` is the fuel before the action; `path` is the
    /// distance to the monster along the path found, `None` where none was
    /// found or none was looked for.
    pub fn observe(
        &mut self,
        fuel_before: u8,
        map: &GameMap,
        monster: &Kobold,
        resources: &Resources,
        path: Option<u8>,
        events: &mut Vec<Event>,
    )
        ensures
            final(self)@ == (PlayerView {
                in_danger: endangered(old(self)@.place(), monster@, path),
                ..old(self)@
            }),
            event_views(final(events)@) == event_views(old(events)@) + reactions(
                old(self)@,
                fuel_before,
                monster@,
                resources@,
                path,
            ),
    {
        let ghost base = event_views(events@);
        let ghost at = (self.x, self.y);
        self.in_danger = false;
        if monster.alive {
            let self_loc = (self.x, self.y);
            let monster_loc = (monster.x, monster.y);
            if map.get_distance(&self_loc, &monster_loc) < monster.danger_distance {
                if let Some(dist) = path {
                    if dist < monster.danger_distance {
                        self.in_danger = true;
                        let ghost before = events@;
                        events.push(Event::PlayerInDanger(EventPlayerInDanger {  }));
                        assert(event_views(events@) =~= event_views(before).push(
                            EventView::PlayerInDanger,
                        ));
                    }
                }
            }
            if self_loc.0 == monster_loc.0 && self_loc.1 == monster_loc.1 {
                let ghost before = events@;
                events.push(Event::PlayerMeetMonster(EventPlayerMeetMonster {  }));
                assert(event_views(events@) =~= event_views(before).push(
                    EventView::PlayerMeetMonster,
                ));
            }
        }
        let ghost first = (if endangered(at, monster@, path) {
            seq![EventView::PlayerInDanger]
        } else {
            Seq::empty()
        }) + (if monster@.alive && at == monster@.place() {
            seq![EventView::PlayerMeetMonster]
        } else {
            Seq::empty()
        });
        assert(event_views(events@) =~= base + first);
        let mut i: usize = 0;
        while i < resources.len()
            invariant
                i <= resources@.len(),
                at == (self.x, self.y),
                event_views(events@) == base + first + found_resources(resources@, at, i as nat),
            decreases resources@.len() - i,
        {
            let resource_location = resources.location(i);
            let ghost before = events@;
            if resource_location.0 == self.x && resource_location.1 == self.y {
                events.push(Event::ResourceFound(EventResourceFound { index: i }));
                assert(event_views(events@) =~= event_views(before).push(
                    EventView::ResourceFound { index: i },
                ));
            }
            assert(event_views(events@) =~= base + first + found_resources(
                resources@,
                at,
                (i + 1) as nat,
            ));
            i += 1;
        }
        let ghost found = found_resources(resources@, at, resources@.len());
        if fuel_before > 0 && self.view_resource == 0 {
            let ghost before = events@;
            events.push(Event::ResourceGone(EventResourceGone {  }));
            assert(event_views(events@) =~= event_views(before).push(EventView::ResourceGone));
            assert(event_views(events@) =~= base + (first + found + seq![EventView::ResourceGone]));
        } else {
            assert(event_views(events@) =~= base + (first + found + Seq::<EventView>::empty()));
        }
    }
}

/// The distance along the path found from the player to the monster, as
/// far as a turn looks for it: only a living monster within its danger
/// distance, in a straight line, is searched for.
pub open spec fn path_sought(at: Place, monster: KoboldView, map: &GameMap) -> Option<u8> {
    if monster.alive && straight_distance(at, monster.place()) < monster.danger_distance {
        map.path_distance(at, monster.place())
    } else {
        None
    }
}

/// The player after the turn that a key stands for.
pub open spec fn turned(
    player: PlayerView,
    key: Key,
    map: &GameMap,
    monster: KoboldView,
) -> PlayerView {
    match action_of(key) {
        None => player,
        Some(action) => {
            let after = acted(player, action, map).player;
            PlayerView {
                in_danger: endangered(
                    after.place(),
                    monster,
                    path_sought(after.place(), monster, map),
                ),
                ..after
            }
        },
    }
}

/// The events of the turn that a key stands for: those of the action, then
/// the reactions of the world.
pub open spec fn turn_events(
    player: PlayerView,
    key: Key,
    map: &GameMap,
    monster: KoboldView,
    resources: Seq<Place>,
) -> Seq<EventView> {
    match action_of(key) {
        None => Seq::empty(),
        Some(action) => {
            let after = acted(player, action, map);
            after.events + reactions(
                after.player,
                player.view_resource,
                monster,
                resources,
                path_sought(after.player.place(), monster, map),
            )
        },
    }
}

impl Player {
    /// One turn of the player. A key that stands for no action changes
    /// nothing. Any other key is acted on; then the danger is looked into
    /// and the world reacts. The events are appended to `events` in that
    /// order. Returns whether the action counts as a turn, after which
    /// the rest of the world moves. A player who ends the turn on the cell
    /// of a living monster is in danger, unless the monster's danger
    /// distance is 0.
    pub fn update(
        &mut self,
        key: &Key,
        map: &GameMap,
        monster: &Kobold,
        resources: &Resources,
        events: &mut Vec<Event>,
    ) -> (updated: bool)
        requires
            map.wf(),
            map.side() > 0,
        ensures
            final(self)@ == turned(old(self)@, *key, map, monster@),
            event_views(final(events)@) == event_views(old(events)@) + turn_events(
                old(self)@,
                *key,
                map,
                monster@,
                resources@,
            ),
            updated == match action_of(*key) {
                None => false,
                Some(action) => acted(old(self)@, action, map).updated,
            },
            final(self)@.view_resource <= old(self)@.view_resource || final(self)@.view_resource
                == old(self)@.view_resource_max,
            map.in_map(old(self)@.place()) ==> map.in_map(final(self)@.place()),
            action_of(*key) is Some && monster@.alive && final(self)@.place() == monster@.place()
                ==> final(self)@.in_danger == (monster@.danger_distance > 0),
    {
        let ghost base = event_views(events@);
        let action = match key_action(key) {
            Some(action) => action,
            None => {
                assert(event_views(events@) =~= base + Seq::<EventView>::empty());
                return false;
            },
        };
        let previous_view_resource = self.view_resource;
        let updated = self.act(action, map, events);
        let ghost own = acted(old(self)@, action, map).events;
        let self_loc = (self.x, self.y);
        let monster_loc = (monster.x, monster.y);
        proof {
            lemma_no_distance_to_itself(self_loc);
        }
        let path = if monster.alive && map.get_distance(&self_loc, &monster_loc)
            < monster.danger_distance {
            map.get_path_distance(&self_loc, &monster_loc)
        } else {
            None
        };
        let ghost after = self@;
        self.observe(previous_view_resource, map, monster, resources, path, events);
        assert(event_views(events@) =~= base + (own + reactions(
            after,
            previous_view_resource,
            monster@,
            resources@,
            path,
        )));
        updated
    }
}

/// The monster: where it is, whether it lives, and below which distance it
/// is a danger.
#[derive(Clone, Debug)]
pub struct Kobold {
    alive: bool,
    danger_distance: u8,
    pub x: usize,
    pub y: usize,
}

/// The monster as the contracts see it.
pub struct KoboldView {
    pub alive: bool,
    pub danger_distance: u8,
    pub x: usize,
    pub y: usize,
}

impl KoboldView {
    /// Where the monster is.
    pub open spec fn place(self) -> Place {
        (self.x, self.y)
    }
}

impl View for Kobold {
    type V = KoboldView;

    closed spec fn view(&self) -> KoboldView {
        KoboldView {
            alive: self.alive,
            danger_distance: self.danger_distance,
            x: self.x,
            y: self.y,
        }
    }
}

impl Kobold {
    /// The monster of a map: alive in its lair, or dead, at the corner of
    /// the map, where the map has no lair.
    pub fn init(map: &GameMap, settings: &Settings) -> (kobold: Kobold)
        ensures
            kobold@ == (KoboldView {
                alive: map.special_locations.lair is Some,
                danger_distance: if given_or(settings.kobold_danger_dist, 5) == 255 {
                    255u8
                } else {
                    (given_or(settings.kobold_danger_dist, 5) + 1) as u8
                },
                x: match map.special_locations.lair {
                    Some(lair) => lair.0,
                    None => 0,
                },
                y: match map.special_locations.lair {
                    Some(lair) => lair.1,
                    None => 0,
                },
            }),
    {
        let mut kobold = Kobold {
            alive: true,
            danger_distance: settings.danger_distance(),
            x: 0,
            y: 0,
        };
        proof {
            lemma_names_are_apart(map.special_locations);
        }
        match map.get_location("lair") {
            Some((x, y)) => {
                kobold.x = x;
                kobold.y = y;
            },
            None => kobold.alive = false,
        }
        kobold
    }

    /// Where the monster is.
    pub fn place(&self) -> (at: (usize, usize))
        ensures
            at == self@.place(),
    {
        (self.x, self.y)
    }

    /// Whether the monster lives.
    pub fn is_alive(&self) -> (alive: bool)
        ensures
            alive == self@.alive,
    {
        self.alive
    }

    /// Below which distance the monster is a danger.
    pub fn get_danger_distance(&self) -> (distance: u8)
        ensures
            distance == self@.danger_distance,
    {
        self.danger_distance
    }

    /// Moves the monster to where a draw among its steps has fallen; it
    /// stays where there was nothing to draw from.
    pub fn step_to(&mut self, step: Option<&((usize, usize), usize)>)
        ensures
            final(self)@ == match step {
                Some(drawn) => KoboldView { x: drawn.0.0, y: drawn.0.1, ..old(self)@ },
                None => old(self)@,
            },
    {
        if let Some(drawn) = step {
            self.x = drawn.0.0;
            self.y = drawn.0.1;
        }
    }

    /// One turn of the monster. Alive, it moves to a neighbouring cell that
    /// can be entered, drawn at random, and stays where there is none.
    /// Dead, it does nothing.
    pub fn update(&mut self, map: &GameMap, rng: &mut StdRng)
        requires
            map.is_square(),
        ensures
            final(self)@.alive == old(self)@.alive,
            final(self)@.danger_distance == old(self)@.danger_distance,
            !old(self)@.alive ==> final(self)@ == old(self)@,
            old(self)@.alive ==> {
                ||| is_step(map.grid(), old(self)@.place(), final(self)@.place())
                ||| final(self)@ == old(self)@ && forall|to: Place|
                    !is_step(map.grid(), old(self)@.place(), to)
            },
    {
        if self.alive {
            let possible_steps = map.passable_steps(&(self.x, self.y));
            let maybe_step = choose_one(rng, &possible_steps);
            let ghost at = (self.x, self.y);
            proof {
                let open = |to: Place| is_step(map.grid(), at, to);
                if let Some(drawn) = maybe_step {
                    let i = choose|i: int|
                        0 <= i < possible_steps@.len() && possible_steps@[i] == *drawn;
                    assert(open(possible_steps@[i].0));
                } else {
                    assert forall|to: Place| !is_step(map.grid(), at, to) by {
                        if open(to) {
                            assert(lists(possible_steps@, to));
                        }
                    }
                }
            }
            self.step_to(maybe_step);
        }
    }

    /// Kills the monster.
    pub fn die(&mut self)
        ensures
            final(self)@ == (KoboldView { alive: false, ..old(self)@ }),
    {
        self.alive = false;
    }
}

} // verus!
