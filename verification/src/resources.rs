//! The resources of a level: refills for the lamp, one in each section of
//! the map.

use rand::StdRng;
use vstd::prelude::*;

use crate::events::EventResourceFound;
use crate::map::GameMap;
use crate::objects::Player;
use crate::path::Place;
use crate::random::choose_one;
use crate::settings::{given_or, Settings};

verus! {

/// The resources of a level: the cells at which a refill lies.
#[derive(Clone, Debug)]
pub struct Resources {
    locations: Vec<(usize, usize)>,
}

impl View for Resources {
    type V = Seq<Place>;

    closed spec fn view(&self) -> Seq<Place> {
        self.locations@
    }
}

impl Resources {
    /// Resources at the given cells.
    pub fn from_locations(locations: Vec<(usize, usize)>) -> (resources: Resources)
        ensures
            resources@ == locations@,
    {
        Resources { locations }
    }

    /// How many resources are left.
    pub fn len(&self) -> (count: usize)
        ensures
            count == self@.len(),
    {
        self.locations.len()
    }

    /// The cell of the resource at `index`.
    pub fn location(&self, index: usize) -> (at: (usize, usize))
        requires
            index < self@.len(),
        ensures
            at == self@[index as int],
    {
        self.locations[index]
    }

    /// Takes the resource that was found off the list.
    pub fn process_event(&mut self, custom_event: &EventResourceFound)
        requires
            custom_event.index < old(self)@.len(),
        ensures
            final(self)@ == old(self)@.remove(custom_event.index as int),
    {
        self.locations.remove(custom_event.index);
    }
}

/// The section of the map that a cell lies in, when the map is cut into
/// square sections of the given side: the section's column, then its row.
pub open spec fn section_of(at: Place, sections_side: nat) -> (int, int) {
    (at.0 as int / sections_side as int, at.1 as int / sections_side as int)
}

/// The order of the sections: by column, then by row.
pub open spec fn section_before(a: (int, int), b: (int, int)) -> bool {
    a.0 < b.0 || (a.0 == b.0 && a.1 < b.1)
}

/// `at` is a cell of the map that can be entered.
pub open spec fn is_open(map: &GameMap, at: Place) -> bool {
    map.in_map(at) && map.tile_at(at).passable
}

/// One of `locations` lies in the section of `at`.
pub open spec fn section_served(locations: Seq<Place>, at: Place, sections_side: nat) -> bool {
    exists|i: int|
        0 <= i < locations.len() && section_of(#[trigger] locations[i], sections_side)
            == section_of(at, sections_side)
}

/// `locations` holds one cell that can be entered from each section that
/// has any, in the order of the sections.
pub open spec fn resources_drawn(map: &GameMap, sections_side: nat, locations: Seq<Place>) -> bool {
    &&& forall|i: int| 0 <= i < locations.len() ==> is_open(map, #[trigger] locations[i])
    &&& forall|i: int, j: int|
        0 <= i < j < locations.len() ==> section_before(
            section_of(#[trigger] locations[i], sections_side),
            section_of(#[trigger] locations[j], sections_side),
        )
    &&& forall|at: Place| is_open(map, at)
        ==> #[trigger] section_served(locations, at, sections_side)
}

proof fn lemma_section_holds(position: int, sections_side: int, section: int)
    requires
        sections_side > 0,
        0 <= position,
    ensures
        position / sections_side == section <==> section * sections_side <= position < section
            * sections_side + sections_side,
{
    vstd::arithmetic::div_mod::lemma_fundamental_div_mod(position, sections_side);
    vstd::arithmetic::div_mod::lemma_mod_pos_bound(position, sections_side);
    let q = position / sections_side;
    let r = position % sections_side;
    assert(position == sections_side * q + r);
    assert((section * sections_side <= position < section * sections_side + sections_side) ==> q
        == section) by (nonlinear_arith)
        requires
            position == sections_side * q + r,
            0 <= r < sections_side,
    ;
    assert(q == section ==> (section * sections_side <= position < section * sections_side
        + sections_side)) by (nonlinear_arith)
        requires
            position == sections_side * q + r,
            0 <= r < sections_side,
    ;
}

impl Resources {
    /// The cells that can be entered among those of columns `x` to
    /// `max_x` and rows `y` to `max_y`, the upper bounds left out.
    fn open_cells(map: &GameMap, x: usize, max_x: usize, y: usize, max_y: usize) -> (cells: Vec<
        (usize, usize),
    >)
        requires
            map.is_square(),
            x <= max_x <= map.side(),
            y <= max_y <= map.side(),
        ensures
            forall|k: int|
                0 <= k < cells@.len() ==> is_open(map, #[trigger] cells@[k]) && x <= cells@[k].0
                    < max_x && y <= cells@[k].1 < max_y,
            forall|at: Place|
                is_open(map, at) && x <= at.0 < max_x && y <= at.1 < max_y
                    ==> #[trigger] cells@.contains(at),
    {
        let mut possible_locations: Vec<(usize, usize)> = Vec::new();
        let mut inner_x = x;
        while inner_x < max_x
            invariant
                map.is_square(),
                x <= inner_x <= max_x <= map.side(),
                y <= max_y <= map.side(),
                forall|k: int|
                    0 <= k < possible_locations@.len() ==> is_open(
                        map,
                        #[trigger] possible_locations@[k],
                    ) && x <= possible_locations@[k].0 < max_x && y <= possible_locations@[k].1
                        < max_y,
                forall|at: Place|
                    is_open(map, at) && x <= at.0 < inner_x && y <= at.1 < max_y
                        ==> #[trigger] possible_locations@.contains(at),
            decreases max_x - inner_x,
        {
            let mut inner_y = y;
            while inner_y < max_y
                invariant
                    map.is_square(),
                    x <= inner_x < max_x <= map.side(),
                    y <= inner_y <= max_y <= map.side(),
                    forall|k: int|
                        0 <= k < possible_locations@.len() ==> is_open(
                            map,
                            #[trigger] possible_locations@[k],
                        ) && x <= possible_locations@[k].0 < max_x && y
                            <= possible_locations@[k].1 < max_y,
                    forall|at: Place|
                        is_open(map, at) && y <= at.1 < max_y && (x <= at.0 < inner_x || (at.0
                            == inner_x && at.1 < inner_y))
                                ==> #[trigger] possible_locations@.contains(
                            at,
                        ),
                decreases max_y - inner_y,
            {
                let ghost before = possible_locations@;
                assert(map.tiles@[inner_x as int]@.len() == map.tiles@.len());
                if map.tiles[inner_x][inner_y].passable {
                    possible_locations.push((inner_x, inner_y));
                    assert(possible_locations@[before.len() as int] == (inner_x, inner_y));
                }
                assert forall|at: Place|
                    is_open(map, at) && y <= at.1 < max_y && (x <= at.0 < inner_x || (at.0
                        == inner_x && at.1 < inner_y + 1))
                            implies #[trigger] possible_locations@.contains(
                    at,
                ) by {
                    if at != (inner_x, inner_y) {
                        assert(before.contains(at));
                        let k = choose|k: int| 0 <= k < before.len() && before[k] == at;
                        assert(possible_locations@[k] == at);
                    }
                }
                inner_y += 1;
            }
            inner_x += 1;
        }
        possible_locations
    }

    /// Draws the resources of a map. The map is cut into square sections,
    /// as wide as the settings say or, by default, as a full lamp lasts;
    /// those at the far edges may be narrower. Each section that has a cell
    /// that can be entered gives one resource, at such a cell drawn at
    /// random.
    pub fn init(
        map: &GameMap,
        player: &Player,
        settings: &Settings,
        rng: &mut StdRng,
    ) -> (resources: Resources)
        requires
            map.is_square(),
            given_or(settings.resource_distance, player@.view_resource_max as u32) > 0,
        ensures
            resources_drawn(
                map,
                given_or(settings.resource_distance, player@.view_resource_max as u32) as nat,
                resources@,
            ),
    {
        let sections_side: usize = match settings.resource_distance {
            Some(value) => value as usize,
            None => player.get_view_resource_max() as usize,
        };
        let map_side = map.tiles.len();
        let ghost wide = sections_side as nat;
        let mut locations: Vec<(usize, usize)> = Vec::new();
        let mut x: usize = 0;
        let ghost mut column: int = 0;
        while x < map_side
            invariant
                map.is_square(),
                map_side == map.side(),
                sections_side > 0,
                wide == sections_side,
                0 <= column,
                x <= map_side,
                x < map_side ==> x == column * sections_side,
                column * sections_side >= x,
                forall|i: int|
                    0 <= i < locations@.len() ==> is_open(map, #[trigger] locations@[i])
                        && section_of(locations@[i], wide).0 < column,
                forall|i: int, j: int|
                    0 <= i < j < locations@.len() ==> section_before(
                        section_of(#[trigger] locations@[i], wide),
                        section_of(#[trigger] locations@[j], wide),
                    ),
                forall|at: Place|
                    is_open(map, at) && section_of(at, wide).0 < column
                        ==> #[trigger] section_served(
                        locations@,
                        at,
                        wide,
                    ),
            decreases map_side - x,
        {
            let max_x = if sections_side >= map_side - x {
                map_side
            } else {
                x + sections_side
            };
            let mut y: usize = 0;
            let ghost mut row: int = 0;
            while y < map_side
                invariant
                    map.is_square(),
                    map_side == map.side(),
                    sections_side > 0,
                    wide == sections_side,
                    0 <= column,
                    0 <= row,
                    x < map_side,
                    x == column * sections_side,
                    max_x as int == if x + sections_side >= map_side {
                        map_side as int
                    } else {
                        x + sections_side
                    },
                    y <= map_side,
                    y < map_side ==> y == row * sections_side,
                    row * sections_side >= y,
                    forall|i: int|
                        0 <= i < locations@.len() ==> is_open(map, #[trigger] locations@[i])
                            && section_before(section_of(locations@[i], wide), (column, row)),
                    forall|i: int, j: int|
                        0 <= i < j < locations@.len() ==> section_before(
                            section_of(#[trigger] locations@[i], wide),
                            section_of(#[trigger] locations@[j], wide),
                        ),
                    forall|at: Place|
                        is_open(map, at) && section_before(section_of(at, wide), (column, row))
                            ==> #[trigger] section_served(locations@, at, wide),
                decreases map_side - y,
            {
                let max_y = if sections_side >= map_side - y {
                    map_side
                } else {
                    y + sections_side
                };
                let possible_locations = Resources::open_cells(map, x, max_x, y, max_y);
                let maybe_location = choose_one(rng, &possible_locations);
                let ghost before = locations@;
                proof {
                    assert forall|at: Place| map.in_map(at) implies (section_of(at, wide) == (
                        column,
                        row,
                    ) <==> x <= at.0 < max_x && y <= at.1 < max_y) by {
                        lemma_section_holds(at.0 as int, sections_side as int, column);
                        lemma_section_holds(at.1 as int, sections_side as int, row);
                    }
                }
                if let Some(location) = maybe_location {
                    locations.push(*location);
                    proof {
                        let drawn = *location;
                        assert(possible_locations@.contains(drawn));
                        assert(locations@[before.len() as int] == drawn);
                        assert(section_of(drawn, wide) == (column, row));
                        assert forall|at: Place|
                            is_open(map, at) && section_before(
                                section_of(at, wide),
                                (column, row + 1),
                            ) implies #[trigger] section_served(locations@, at, wide) by {
                            if section_of(at, wide) == (column, row) {
                                assert(section_of(locations@[before.len() as int], wide)
                                    == section_of(at, wide));
                            } else {
                                assert(section_served(before, at, wide));
                                let i = choose|i: int|
                                    0 <= i < before.len() && section_of(#[trigger] before[i], wide)
                                        == section_of(at, wide);
                                assert(locations@[i] == before[i]);
                            }
                        }
                    }
                } else {
                    proof {
                        assert forall|at: Place|
                            is_open(map, at) && section_before(
                                section_of(at, wide),
                                (column, row + 1),
                            ) implies #[trigger] section_served(locations@, at, wide) by {
                            if section_of(at, wide) == (column, row) {
                                assert(possible_locations@.contains(at));
                            }
                        }
                    }
                }
                proof {
                    assert((row + 1) * sections_side == row * sections_side + sections_side)
                        by (nonlinear_arith);
                    row = row + 1;
                }
                y = max_y;
            }
            proof {
                assert forall|at: Place|
                    is_open(map, at) && section_of(at, wide).0 < column + 1
                        implies #[trigger] section_served(
                    locations@,
                    at,
                    wide,
                ) by {
                    if section_of(at, wide).0 == column {
                        lemma_section_holds(
                            at.1 as int,
                            sections_side as int,
                            section_of(at, wide).1,
                        );
                        assert(section_of(at, wide).1 < row) by (nonlinear_arith)
                            requires
                                section_of(at, wide).1 * sections_side <= at.1,
                                at.1 < map_side,
                                row * sections_side >= map_side,
                                sections_side > 0,
                        ;
                    }
                }
                assert((column + 1) * sections_side == column * sections_side + sections_side)
                    by (nonlinear_arith);
                column = column + 1;
            }
            x = max_x;
        }
        proof {
            assert forall|at: Place| is_open(map, at) implies #[trigger] section_served(
                locations@,
                at,
                wide,
            ) by {
                lemma_section_holds(at.0 as int, sections_side as int, section_of(at, wide).0);
                assert(section_of(at, wide).0 < column) by (nonlinear_arith)
                    requires
                        section_of(at, wide).0 * sections_side <= at.0,
                        at.0 < map_side,
                        column * sections_side >= map_side,
                        sections_side > 0,
                ;
            }
        }
        Resources { locations }
    }
}

} // verus!
