//! Building a level: a field of cards is dealt and flattened, obstacles are
//! scattered over the floor, and a start and five curios are placed on the
//! border.

use rand::StdRng;
use vstd::prelude::*;
use vstd::string::StringExecFns;

use crate::card::Card;
use crate::field::{
    card_side_of, card_views, column_holds, deals, field_tile, flat, flattens, generate_field,
    generate_map, lemma_dealt_field_fits, lemma_position_is_one_cell, map_side, pool_fits,
    pool_side,
};
use crate::map::{lemma_passable_decides_grid, lemma_tiles_decide, GameMap, Locations};
use crate::path::{
    comes_before, connected, lemma_holds_each_once, lemma_kept_cells_stay_listed, Place,
};
use crate::permutation::lemma_permutation_keeps_distinct;
use crate::random::{draw_between, shuffle_all};
use crate::settings::{given_or, Settings};
use crate::tile::{end_name, fresh_tile, EndType, Tile, TileType, TileView};

verus! {

/// `tile` is a fresh obstacle whose text is one of `texts`, or empty where
/// there are none.
pub open spec fn is_obstacle_with(tile: TileView, texts: Seq<String>) -> bool {
    &&& tile == fresh_tile(TileType::Obstacle, tile.search_text)
    &&& texts.len() == 0 ==> tile.search_text == Seq::<char>::empty()
    &&& texts.len() > 0 ==> exists|i: int|
        0 <= i < texts.len() && tile.search_text == #[trigger] texts[i]@
}

/// `after` is `before` with the floor at the cells of `turned` turned into
/// obstacles: as many as `wanted`, or all the floor there is if that is less.
pub open spec fn obstacles_added(
    before: GameMap,
    after: GameMap,
    texts: Seq<String>,
    wanted: int,
    turned: Seq<Place>,
) -> bool {
    let floor = Set::new(|at: Place| before.is_floor(at));
    &&& turned.no_duplicates()
    &&& floor.finite()
    &&& turned.len() == if wanted <= floor.len() {
        wanted
    } else {
        floor.len() as int
    }
    &&& forall|i: int|
        0 <= i < turned.len() ==> before.is_floor(#[trigger] turned[i]) && is_obstacle_with(
            after.tile_at(turned[i]),
            texts,
        )
    &&& after.same_tiles_but(&before, |at: Place| turned.contains(at))
}

impl GameMap {
    /// Turns some floor into obstacles: a number of cells drawn from 1 to
    /// `max_obstacles - 1`, chosen at random among the floor, or all the
    /// floor if there is less of it. Each obstacle carries a line drawn
    /// from `obstacles`.
    pub fn add_obstacles(&mut self, max_obstacles: u8, obstacles: &Vec<String>, rng: &mut StdRng)
        requires
            old(self).wf(),
            max_obstacles >= 2,
        ensures
            final(self).wf(),
            final(self).side() == old(self).side(),
            final(self).marks == old(self).marks,
            final(self).special_locations == old(self).special_locations,
            exists|wanted: int, turned: Seq<Place>|
                #![trigger obstacles_added(*old(self), *final(self), obstacles@, wanted, turned)]
                1 <= wanted < max_obstacles && obstacles_added(
                    *old(self),
                    *final(self),
                    obstacles@,
                    wanted,
                    turned,
                ),
    {
        let mut possible_locations = self.floors(false);
        let ghost floors = possible_locations@;
        proof {
            let listed = |at: Place| self.is_floor(at) && (false ==> self.on_border(at));
            lemma_holds_each_once(floors, listed);
            assert(Set::new(listed) =~= Set::new(|at: Place| self.is_floor(at)));
        }
        shuffle_all(rng, &mut possible_locations);
        let ghost order = possible_locations@;
        proof {
            lemma_permutation_keeps_distinct(floors, order);
            assert forall|i: int| 0 <= i < order.len()
                implies self.is_floor(#[trigger] order[i]) by {
                assert(order.contains(order[i]));
                assert(floors.contains(order[i]));
            }
        }
        let wanted = draw_between(rng, 1, max_obstacles as usize);
        let mut done: usize = 0;
        while done < wanted
            invariant
                old(self).wf(),
                self.wf(),
                self.marks == old(self).marks,
                self.special_locations == old(self).special_locations,
                order.no_duplicates(),
                forall|i: int| 0 <= i < order.len() ==> old(self).is_floor(#[trigger] order[i]),
                done <= wanted,
                possible_locations@.len() <= order.len(),
                possible_locations@ == order.take(possible_locations@.len() as int),
                possible_locations@.len() as int == if done <= order.len() {
                    order.len() - done
                } else {
                    0
                },
                forall|i: int|
                    possible_locations@.len() <= i < order.len() ==> is_obstacle_with(
                        self.tile_at(#[trigger] order[i]),
                        obstacles@,
                    ),
                self.same_tiles_but(
                    old(self),
                    |at: Place| order.skip(possible_locations@.len() as int).contains(at),
                ),
            decreases wanted - done,
        {
            let ghost left = possible_locations@.len() as int;
            let ghost before = *self;
            if let Some((x, y)) = possible_locations.pop() {
                assert((x, y) == order[left - 1]);
                match Tile::init_regular(TileType::Obstacle, obstacles, rng) {
                    Some(obstacle_tile) => {
                        self.put_tile(x, y, obstacle_tile);
                    },
                    None => {},
                }
                proof {
                    let now = possible_locations@.len() as int;
                    assert(now == left - 1);
                    assert forall|i: int| now <= i < order.len() implies is_obstacle_with(
                        self.tile_at(#[trigger] order[i]),
                        obstacles@,
                    ) by {
                        if i != now {
                            assert(order[i] != order[now]);
                            assert(self.tile_at(order[i]) == before.tile_at(order[i]));
                        }
                    }
                    assert forall|at: Place|
                        self.in_map(at) && !order.skip(now).contains(at)
                            implies #[trigger] self.tile_at(
                        at,
                    ) == old(self).tile_at(at) by {
                        assert(order.skip(now)[0] == order[now]);
                        assert(at != (x, y));
                        if order.skip(left).contains(at) {
                            let k = choose|k: int|
                                0 <= k < order.skip(left).len() && order.skip(left)[k] == at;
                            assert(order.skip(now)[k + 1] == at);
                        }
                        assert(self.tile_at(at) == before.tile_at(at));
                    }
                    assert forall|at: Place| self.in_map(at) implies (#[trigger] self.tile_at(
                        at,
                    )).consistent() by {
                        if at != (x, y) {
                            assert(self.tile_at(at) == before.tile_at(at));
                        }
                    }
                }
            }
            done += 1;
        }
        proof {
            let turned = order.skip(possible_locations@.len() as int);
            assert(turned.no_duplicates()) by {
                assert forall|i: int, j: int|
                    0 <= i < turned.len() && 0 <= j < turned.len() && i != j implies turned[i]
                    != turned[j] by {
                    assert(turned[i] == order[possible_locations@.len() + i]);
                    assert(turned[j] == order[possible_locations@.len() + j]);
                }
            }
            assert forall|i: int| 0 <= i < turned.len() implies old(self).is_floor(
                #[trigger] turned[i],
            ) && is_obstacle_with(self.tile_at(turned[i]), obstacles@) by {
                assert(turned[i] == order[possible_locations@.len() + i]);
            }
            assert(obstacles_added(*old(self), *self, obstacles@, wanted as int, turned));
        }
    }
}

/// Why no curios could be placed.
#[derive(Clone, Copy, PartialEq, Eq, Debug, Structural)]
pub enum CurioError {
    /// There is no floor on the border: not even the start has a place.
    NoBorderFloor,
    /// Fewer than five cells of border floor can be reached from the start.
    NotEnoughReachable,
}

impl CurioError {
    /// The error in words.
    pub fn message(&self) -> (text: String)
        ensures
            text@ == match *self {
                CurioError::NoBorderFloor => "Not enough locations to even place one"@,
                CurioError::NotEnoughReachable => "Not enough reachable locations"@,
            },
    {
        match self {
            CurioError::NoBorderFloor => String::from_str("Not enough locations to even place one"),
            CurioError::NotEnoughReachable => String::from_str("Not enough reachable locations"),
        }
    }
}

/// The five kinds, in the order in which they are laid out before they are
/// shuffled.
pub open spec fn five_kinds() -> Seq<EndType> {
    seq![EndType::Children, EndType::Lair, EndType::Body, EndType::Item, EndType::Rest]
}

/// In a reordering of the five kinds each kind comes once.
pub proof fn lemma_kinds_reordered(kinds: Seq<EndType>)
    requires
        kinds.to_multiset() == five_kinds().to_multiset(),
    ensures
        kinds.len() == 5,
        kinds.no_duplicates(),
        forall|kind: EndType| kinds.contains(kind),
{
    let five = five_kinds();
    assert(five.no_duplicates());
    lemma_permutation_keeps_distinct(five, kinds);
    assert forall|kind: EndType| kinds.contains(kind) by {
        assert(five[0] == EndType::Children);
        assert(five[1] == EndType::Lair);
        assert(five[2] == EndType::Body);
        assert(five[3] == EndType::Item);
        assert(five[4] == EndType::Rest);
        assert(five.contains(kind));
    }
}

impl GameMap {
    /// `at` is floor on the border.
    pub open spec fn is_border_floor(&self, at: Place) -> bool {
        self.is_floor(at) && self.on_border(at)
    }

    /// `at` can hold a curio when the player starts at `start`: border
    /// floor, other than `start`, to which a walk leads from `start`.
    pub open spec fn is_end(&self, start: Place, at: Place) -> bool {
        self.is_border_floor(at) && at != start && connected(self.grid(), start, at)
    }

    /// What `add_curio` makes of a map, given the start it has drawn.
    ///
    /// Without border floor nothing changes and nothing is placed.
    /// Otherwise the start is registered, at a cell of border floor. With
    /// fewer than five cells that can hold a curio, that is all, and the
    /// placement fails. Else each kind of curio is registered at a cell of
    /// its own among them, its tile stands there, and no other tile has
    /// changed.
    pub open spec fn curios_added(
        &self,
        before: &GameMap,
        placed: Result<(), CurioError>,
    ) -> bool {
        if forall|at: Place| !before.is_border_floor(at) {
            &&& placed == Err::<(), CurioError>(CurioError::NoBorderFloor)
            &&& self.special_locations == before.special_locations
            &&& self.same_tiles_but(before, |at: Place| false)
        } else {
            &&& self.special_locations.start matches Some(start)
            &&& before.is_border_floor(start)
            &&& Set::new(|at: Place| before.is_end(start, at)).finite()
            &&& if Set::new(|at: Place| before.is_end(start, at)).len() < 5 {
                &&& placed == Err::<(), CurioError>(CurioError::NotEnoughReachable)
                &&& self.special_locations == (Locations {
                    start: Some(start),
                    ..before.special_locations
                })
                &&& self.same_tiles_but(before, |at: Place| false)
            } else {
                &&& placed is Ok
                &&& forall|kind: EndType| #[trigger]
                    self.special_locations.curio(kind) matches Some(at) && before.is_end(start, at)
                        && self.tile_at(at) == fresh_tile(TileType::Curiosity, end_name(kind))
                &&& forall|a: EndType, b: EndType|
                    a != b ==> #[trigger] self.special_locations.curio(a)
                        != #[trigger] self.special_locations.curio(b)
                &&& self.same_tiles_but(
                    before,
                    |at: Place|
                        exists|kind: EndType| #[trigger]
                            self.special_locations.curio(kind) == Some(at),
                )
            }
        }
    }

    /// The cells of `candidates` to which the path search finds a walk
    /// from `start`, in the same order.
    pub fn reachable_among(
        &self,
        start: &(usize, usize),
        candidates: &Vec<(usize, usize)>,
    ) -> (ends: Vec<(usize, usize)>)
        requires
            self.wf(),
        ensures
            ends@ == candidates@.filter(|at: Place| connected(self.grid(), *start, at)),
            forall|i: int|
                0 <= i < ends@.len() ==> self.path_distance(*start, #[trigger] ends@[i]) is Some,
    {
        let mut ends: Vec<(usize, usize)> = Vec::new();
        let ghost reached = |at: Place| connected(self.grid(), *start, at);
        let mut i: usize = 0;
        proof {
            candidates@.take(0).lemma_filter_len(reached);
        }
        while i < candidates.len()
            invariant
                self.wf(),
                i <= candidates@.len(),
                reached == |at: Place| connected(self.grid(), *start, at),
                ends@ == candidates@.take(i as int).filter(reached),
                forall|k: int|
                    0 <= k < ends@.len() ==> self.path_distance(*start, #[trigger] ends@[k])
                        is Some,
            decreases candidates@.len() - i,
        {
            let location = candidates[i];
            proof {
                assert(candidates@.take(i + 1) =~= candidates@.take(i as int).push(location));
                candidates@.take(i as int).lemma_filter_push(location, reached);
            }
            if self.reachable(start, &location) {
                ends.push(location);
            }
            i += 1;
        }
        assert(candidates@.take(i as int) =~= candidates@);
        ends
    }

    /// Gives the five curios their places: the tile of kind `kinds[i]` is
    /// put at `places[i]`, and the place is registered under the kind.
    pub fn settle_curios(&mut self, places: &Vec<(usize, usize)>, kinds: &Vec<EndType>)
        requires
            old(self).is_square(),
            places@.len() >= 5,
            places@.no_duplicates(),
            forall|i: int| 0 <= i < places@.len() ==> old(self).in_map(#[trigger] places@[i]),
            kinds@.len() == 5,
            kinds@.no_duplicates(),
        ensures
            final(self).is_square(),
            final(self).marks == old(self).marks,
            final(self).special_locations.start == old(self).special_locations.start,
            forall|i: int|
                0 <= i < 5 ==> final(self).special_locations.curio(#[trigger] kinds@[i]) == Some(
                    places@[i],
                ) && final(self).tile_at(places@[i]) == fresh_tile(
                    TileType::Curiosity,
                    end_name(kinds@[i]),
                ),
            forall|kind: EndType|
                !kinds@.contains(kind) ==> #[trigger] final(self).special_locations.curio(kind)
                    == old(self).special_locations.curio(kind),
            final(self).same_tiles_but(old(self), |at: Place| places@.take(5).contains(at)),
    {
        let mut k: usize = 0;
        while k < 5
            invariant
                self.is_square(),
                self.side() == old(self).side(),
                k <= 5,
                places@.len() >= 5,
                places@.no_duplicates(),
                forall|i: int| 0 <= i < places@.len() ==> old(self).in_map(#[trigger] places@[i]),
                kinds@.len() == 5,
                kinds@.no_duplicates(),
                self.marks == old(self).marks,
                self.special_locations.start == old(self).special_locations.start,
                forall|i: int|
                    0 <= i < k ==> self.special_locations.curio(#[trigger] kinds@[i]) == Some(
                        places@[i],
                    ) && self.tile_at(places@[i]) == fresh_tile(
                        TileType::Curiosity,
                        end_name(kinds@[i]),
                    ),
                forall|kind: EndType|
                    !kinds@.take(k as int).contains(kind)
                        ==> #[trigger] self.special_locations.curio(kind) == old(
                        self,
                    ).special_locations.curio(kind),
                self.same_tiles_but(old(self), |at: Place| places@.take(k as int).contains(at)),
            decreases 5 - k,
        {
            let (x, y) = places[k];
            let kind = kinds[k];
            let ghost before = *self;
            match Tile::init_curio(kind) {
                Some(tile) => self.put_tile(x, y, tile),
                None => {},
            }
            let ghost put = *self;
            self.special_locations.set_curio(kind, (x, y));
            proof {
                assert(self.tiles == put.tiles);
                assert forall|at: Place| self.in_map(at) && at != (x, y) implies self.tile_at(at)
                    == before.tile_at(at) by {
                    assert(put.tile_at(at) == before.tile_at(at));
                }
                assert(places@.take(k + 1)[k as int] == places@[k as int]);
                assert(kinds@.take(k + 1)[k as int] == kinds@[k as int]);
                assert forall|i: int| 0 <= i < k + 1 implies self.special_locations.curio(
                    #[trigger] kinds@[i],
                ) == Some(places@[i]) && self.tile_at(places@[i]) == fresh_tile(
                    TileType::Curiosity,
                    end_name(kinds@[i]),
                ) by {
                    if i < k {
                        assert(kinds@[i] != kinds@[k as int]);
                        assert(places@[i] != places@[k as int]);
                        assert(self.tile_at(places@[i]) == before.tile_at(places@[i]));
                    }
                }
                assert forall|kind: EndType|
                    !kinds@.take(k + 1).contains(kind)
                        implies #[trigger] self.special_locations.curio(
                    kind,
                ) == old(self).special_locations.curio(kind) by {
                    assert(kind != kinds@[k as int]);
                    if kinds@.take(k as int).contains(kind) {
                        let j = choose|j: int|
                            0 <= j < kinds@.take(k as int).len()
                                && kinds@.take(k as int)[j] == kind;
                        assert(kinds@.take(k + 1)[j] == kind);
                    }
                }
                assert forall|at: Place|
                    self.in_map(at) && !places@.take(k + 1).contains(at)
                        implies #[trigger] self.tile_at(
                    at,
                ) == old(self).tile_at(at) by {
                    assert(at != (x, y));
                    if places@.take(k as int).contains(at) {
                        let j = choose|j: int|
                            0 <= j < places@.take(k as int).len()
                                && places@.take(k as int)[j] == at;
                        assert(places@.take(k + 1)[j] == at);
                    }
                    assert(self.tile_at(at) == before.tile_at(at));
                }
            }
            k += 1;
        }
        proof {
            assert forall|kind: EndType| !kinds@.contains(kind)
                implies #[trigger] self.special_locations.curio(
                kind,
            ) == old(self).special_locations.curio(kind) by {
                if kinds@.take(5).contains(kind) {
                    let j = choose|j: int| 0 <= j < kinds@.take(5).len()
                        && kinds@.take(5)[j] == kind;
                    assert(kinds@[j] == kind);
                }
            }
        }
    }
}

impl GameMap {
    /// Places the start and the five curios. The start is drawn among the
    /// floor on the border; the curios go to five cells drawn among the
    /// rest of that floor, as far as the path search reaches it from the
    /// start, in an order that is drawn too. The grid of passable cells
    /// stays as it is: curios take the place of floor.
    pub fn add_curio(&mut self, rng: &mut StdRng) -> (placed: Result<(), CurioError>)
        requires
            old(self).wf(),
        ensures
            final(self).wf(),
            final(self).side() == old(self).side(),
            final(self).marks == old(self).marks,
            final(self).grid() == old(self).grid(),
            final(self).curios_added(old(self), placed),
            placed is Ok ==> final(self).placed(),
    {
        let mut possible_locations = self.floors(true);
        let ghost border = possible_locations@;
        let ghost before = *self;
        proof {
            lemma_holds_each_once(
                border,
                |at: Place| self.is_floor(at) && (true ==> self.on_border(at)),
            );
            assert forall|at: Place| before.is_border_floor(at) implies border.contains(at) by {}
        }
        if possible_locations.len() == 0 {
            proof {
                assert forall|at: Place| !before.is_border_floor(at) by {
                    if before.is_border_floor(at) {
                        assert(border.contains(at));
                    }
                }
            }
            return Err(CurioError::NoBorderFloor);
        }
        let start_index = draw_between(rng, 0, possible_locations.len());
        let start_location = possible_locations.remove(start_index);
        self.special_locations.start = Some(start_location);
        let ghost candidates = possible_locations@;
        proof {
            assert(start_location == border[start_index as int]);
            assert(before.is_border_floor(start_location));
            lemma_tiles_decide(before, *self);
            assert forall|i: int| 0 <= i < candidates.len()
                implies #[trigger] candidates[i] == border[if i
                < start_index {
                i
            } else {
                i + 1
            }] by {}
            assert forall|at: Place| candidates.contains(at) <==> before.is_border_floor(at) && at
                != start_location by {
                if candidates.contains(at) {
                    let i = choose|i: int| 0 <= i < candidates.len() && candidates[i] == at;
                    let from = if i < start_index {
                        i
                    } else {
                        i + 1
                    };
                    assert(candidates[i] == border[from]);
                }
                if before.is_border_floor(at) && at != start_location {
                    assert(border.contains(at));
                    let j = choose|j: int| 0 <= j < border.len() && border[j] == at;
                    let to = if j < start_index {
                        j
                    } else {
                        j - 1
                    };
                    assert(candidates[to] == border[j]);
                }
            }
            assert forall|i: int, j: int| 0 <= i < j < candidates.len() implies comes_before(
                #[trigger] candidates[i],
                #[trigger] candidates[j],
            ) by {
                let from_i = if i < start_index {
                    i
                } else {
                    i + 1
                };
                let from_j = if j < start_index {
                    j
                } else {
                    j + 1
                };
                assert(candidates[i] == border[from_i]);
                assert(candidates[j] == border[from_j]);
            }
        }
        let mut ends = self.reachable_among(&start_location, &possible_locations);
        let ghost found = ends@;
        proof {
            lemma_kept_cells_stay_listed(
                candidates,
                |at: Place| connected(self.grid(), start_location, at),
            );
            lemma_holds_each_once(
                found,
                |at: Place| candidates.contains(at) && connected(self.grid(), start_location, at),
            );
            assert(self.grid() == before.grid());
            assert(Set::new(
                |at: Place| candidates.contains(at) && connected(self.grid(), start_location, at),
            ) =~= Set::new(|at: Place| before.is_end(start_location, at)));
        }
        if ends.len() < 5 {
            return Err(CurioError::NotEnoughReachable);
        }
        shuffle_all(rng, &mut ends);
        let ghost places = ends@;
        let mut kinds: Vec<EndType> = Vec::with_capacity(5);
        kinds.push(EndType::Children);
        kinds.push(EndType::Lair);
        kinds.push(EndType::Body);
        kinds.push(EndType::Item);
        kinds.push(EndType::Rest);
        assert(kinds@ =~= five_kinds());
        shuffle_all(rng, &mut kinds);
        proof {
            lemma_permutation_keeps_distinct(found, places);
            lemma_kinds_reordered(kinds@);
            assert forall|i: int| 0 <= i < places.len() implies before.is_end(
                start_location,
                #[trigger] places[i],
            ) && self.path_distance(start_location, places[i]) is Some by {
                assert(places.contains(places[i]));
                assert(found.contains(places[i]));
                let k = choose|k: int| 0 <= k < found.len() && found[k] == places[i];
                assert(self.path_distance(start_location, found[k]) is Some);
            }
        }
        let ghost drawn = *self;
        self.settle_curios(&ends, &kinds);
        proof {
            assert forall|at: Place| places.take(5).contains(at) implies exists|i: int|
                0 <= i < 5 && places[i] == at by {
                let i = choose|i: int| 0 <= i < places.take(5).len() && places.take(5)[i] == at;
                assert(places[i] == at);
            }
            assert forall|at: Place| self.in_map(at) implies (#[trigger] self.tile_at(
                at,
            )).consistent() && self.tile_at(at).passable == before.tile_at(at).passable by {
                assert(before.tile_at(at).consistent());
                if places.take(5).contains(at) {
                    let i = choose|i: int| 0 <= i < 5 && places[i] == at;
                    assert(self.tile_at(places[i]) == fresh_tile(
                        TileType::Curiosity,
                        end_name(kinds@[i]),
                    ));
                    assert(before.is_end(start_location, places[i]));
                } else {
                    assert(self.tile_at(at) == drawn.tile_at(at));
                }
            }
            lemma_passable_decides_grid(*self, before);
            assert forall|kind: EndType| #[trigger]
                self.special_locations.curio(kind) matches Some(at) && before.is_end(
                    start_location,
                    at,
                ) && self.tile_at(at) == fresh_tile(TileType::Curiosity, end_name(kind))
                    && self.curio_placed(start_location, kind) by {
                assert(kinds@.contains(kind));
                let i = choose|i: int| 0 <= i < kinds@.len() && kinds@[i] == kind;
                assert(self.special_locations.curio(kinds@[i]) == Some(places[i]));
                assert(before.is_end(start_location, places[i]));
                assert(drawn.path_distance(start_location, places[i]) is Some);
            }
            assert forall|a: EndType, b: EndType| a != b
                implies #[trigger] self.special_locations.curio(
                a,
            ) != #[trigger] self.special_locations.curio(b) by {
                assert(kinds@.contains(a));
                assert(kinds@.contains(b));
                let i = choose|i: int| 0 <= i < kinds@.len() && kinds@[i] == a;
                let j = choose|j: int| 0 <= j < kinds@.len() && kinds@[j] == b;
                assert(self.special_locations.curio(kinds@[i]) == Some(places[i]));
                assert(self.special_locations.curio(kinds@[j]) == Some(places[j]));
                assert(places[i] != places[j]);
            }
            assert forall|at: Place|
                self.in_map(at) && !(exists|kind: EndType| #[trigger]
                    self.special_locations.curio(kind) == Some(at)) implies #[trigger] self.tile_at(
                at,
            ) == before.tile_at(at) by {
                if places.take(5).contains(at) {
                    let i = choose|i: int| 0 <= i < 5 && places[i] == at;
                    assert(self.special_locations.curio(kinds@[i]) == Some(places[i]));
                }
                assert(self.tile_at(at) == drawn.tile_at(at));
            }
            assert(exists|at: Place| before.is_border_floor(at)) by {
                assert(before.is_border_floor(start_location));
            }
        }
        Ok(())
    }
}

/// `strewn` is what a try can make of the pool before the curios are
/// placed: some reordering of the pool, dealt into a field and flattened,
/// with between 1 and `max_obstacles - 1` obstacles scattered over it.
pub open spec fn strewn_possible(
    strewn: GameMap,
    pool: Seq<Card>,
    field_side: nat,
    max_obstacles: int,
    texts: Seq<String>,
) -> bool {
    exists|field: Seq<Vec<Card>>, order: Seq<Card>, bare: GameMap, wanted: int, turned: Seq<Place>|
        #![trigger
            deals(field, order, field_side),
            obstacles_added(bare, strewn, texts, wanted, turned)]
        {
            &&& deals(field, order, field_side)
            &&& card_views(order).to_multiset() == card_views(pool).to_multiset()
            &&& flattens(bare.tiles@, field)
            &&& bare.marks@.len() == 0
            &&& bare.special_locations == Locations::blank()
            &&& 1 <= wanted < max_obstacles
            &&& obstacles_added(bare, strewn, texts, wanted, turned)
            &&& strewn.marks == bare.marks
            &&& strewn.special_locations == bare.special_locations
        }
}

/// `map` is what one successful try makes of the pool: a map that the pool
/// can give before the curios are placed, with the start and the curios
/// placed on it.
pub open spec fn generated(
    map: GameMap,
    pool: Seq<Card>,
    field_side: nat,
    max_obstacles: int,
    texts: Seq<String>,
) -> bool {
    exists|strewn: GameMap|
        {
            &&& #[trigger] strewn_possible(strewn, pool, field_side, max_obstacles, texts)
            &&& map.curios_added(&strewn, Ok::<(), CurioError>(()))
            &&& map.marks == strewn.marks
        }
}

/// No try can fail: on no map that the pool can give before the curios are
/// placed does the placement of the curios fail, whichever start is drawn.
pub open spec fn never_fails(
    pool: Seq<Card>,
    field_side: nat,
    max_obstacles: int,
    texts: Seq<String>,
) -> bool {
    forall|strewn: GameMap, after: GameMap, why: CurioError| #[trigger]
        after.curios_added(&strewn, Err::<(), CurioError>(why)) ==> !strewn_possible(
            strewn,
            pool,
            field_side,
            max_obstacles,
            texts,
        )
}

impl GameMap {
    /// Generates a map from a pool of cards. Each try deals the shuffled
    /// pool into a field, flattens it, scatters obstacles and places the
    /// start and the curios; the first try in which the curios find their
    /// places gives the map. After as many failed tries as the settings
    /// allow, their number is the error. Where a try is allowed and no try
    /// can fail, whatever is drawn, there is a map.
    pub fn init(
        fields: &Vec<Card>,
        settings: &Settings,
        obstacles: &Vec<String>,
        rng: &mut StdRng,
    ) -> (made: Result<GameMap, u8>)
        requires
            pool_fits(fields@),
            given_or(settings.obstacle_max, 6) >= 2,
            map_side(fields@, given_or(settings.field_side, 3) as nat) * map_side(
                fields@,
                given_or(settings.field_side, 3) as nat,
            ) + 256 <= usize::MAX,
        ensures
            made matches Ok(map) ==> {
                &&& map.wf()
                &&& map.placed()
                &&& map.marks@.len() == 0
                &&& map.side() == map_side(fields@, given_or(settings.field_side, 3) as nat)
                &&& generated(
                    map,
                    fields@,
                    given_or(settings.field_side, 3) as nat,
                    given_or(settings.obstacle_max, 6) as int,
                    obstacles@,
                )
            },
            made matches Err(tries) ==> tries == given_or(settings.map_max_tries, 100),
            given_or(settings.map_max_tries, 100) == 0 ==> made is Err,
            map_side(fields@, given_or(settings.field_side, 3) as nat) == 0 ==> made is Err,
            given_or(settings.map_max_tries, 100) > 0 && never_fails(
                fields@,
                given_or(settings.field_side, 3) as nat,
                given_or(settings.obstacle_max, 6) as int,
                obstacles@,
            ) ==> made is Ok,
    {
        let tries_max = settings.tries_max();
        let cardfield_side = settings.cards_map_side();
        let max_obstacles = settings.max_obstacles();
        let ghost side = map_side(fields@, cardfield_side as nat);
        let mut try_n: u8 = 0;
        while try_n < tries_max
            invariant
                pool_fits(fields@),
                max_obstacles >= 2,
                max_obstacles == given_or(settings.obstacle_max, 6),
                tries_max == given_or(settings.map_max_tries, 100),
                cardfield_side == given_or(settings.field_side, 3),
                side == map_side(fields@, cardfield_side as nat),
                side * side + 256 <= usize::MAX,
                try_n <= tries_max,
                never_fails(
                    fields@,
                    cardfield_side as nat,
                    max_obstacles as int,
                    obstacles@,
                ) ==> try_n == 0,
            decreases tries_max - try_n,
        {
            let cards_field = generate_field(fields, cardfield_side, rng);
            let ghost order = choose|order: Seq<Card>|
                #![trigger deals(cards_field@, order, cardfield_side as nat)]
                deals(cards_field@, order, cardfield_side as nat) && card_views(
                    order,
                ).to_multiset() == card_views(fields@).to_multiset();
            proof {
                lemma_dealt_field_fits(cards_field@, order, fields@, cardfield_side as nat);
                assert(side <= side * side) by (nonlinear_arith)
                    requires
                        side >= 0,
                ;
            }
            let tiles = generate_map(&cards_field);
            let mut new_map = GameMap::from_tiles(tiles);
            proof {
                let field = cards_field@;
                let card_side = card_side_of(field) as int;
                assert(new_map.is_square());
                if !(cardfield_side > 0 && fields@.len() > 0) {
                    assert(side == 0) by (nonlinear_arith)
                        requires
                            side == cardfield_side * pool_side(fields@),
                            cardfield_side == 0 || pool_side(fields@) == 0,
                    ;
                }
                assert(new_map.side() == side);
                assert(new_map.side() * new_map.side() <= side * side) by (nonlinear_arith)
                    requires
                        new_map.side() <= side,
                ;
                assert forall|at: Place| new_map.in_map(at) implies (#[trigger] new_map.tile_at(
                    at,
                )).consistent() by {
                    lemma_position_is_one_cell(at.0 as int, card_side, field.len() as int);
                    lemma_position_is_one_cell(at.1 as int, card_side, field.len() as int);
                    let fx = at.0 as int / card_side;
                    let x = at.0 as int % card_side;
                    let fy = at.1 as int / card_side;
                    let y = at.1 as int % card_side;
                    assert(column_holds(
                        new_map.tiles@[flat(fx, x, card_side)]@,
                        field,
                        fx,
                        x,
                        field.len() as int,
                        0,
                    ));
                    assert(new_map.tiles@[at.0 as int]@[flat(fy, y, card_side)]@ == field_tile(
                        field,
                        fx,
                        fy,
                        x,
                        y,
                    ));
                    if fy < field[fx]@.len() {
                        assert(field[fx]@[fy].wf());
                        assert(field[fx]@[fy]@[x][y].consistent());
                    }
                }
            }
            let ghost bare = new_map;
            new_map.add_obstacles(max_obstacles, obstacles, rng);
            let ghost strewn = new_map;
            let ghost (wanted, turned) = choose|wanted: int, turned: Seq<Place>|
                #![trigger obstacles_added(bare, strewn, obstacles@, wanted, turned)]
                1 <= wanted < max_obstacles && obstacles_added(
                    bare,
                    strewn,
                    obstacles@,
                    wanted,
                    turned,
                );
            proof {
                assert(deals(cards_field@, order, cardfield_side as nat));
                assert(obstacles_added(bare, strewn, obstacles@, wanted, turned));
                assert(strewn_possible(
                    strewn,
                    fields@,
                    cardfield_side as nat,
                    max_obstacles as int,
                    obstacles@,
                ));
            }
            match new_map.add_curio(rng) {
                Ok(_) => {
                    proof {
                        if side == 0 {
                            assert forall|at: Place| !new_map.is_border_floor(at) by {}
                        }
                    }
                    return Ok(new_map);
                },
                Err(why) => {
                    proof {
                        assert(new_map.curios_added(&strewn, Err::<(), CurioError>(why)));
                        assert(!never_fails(
                            fields@,
                            cardfield_side as nat,
                            max_obstacles as int,
                            obstacles@,
                        ));
                    }
                },
            }
            try_n += 1;
        }
        Err(tries_max)
    }
}

} // verus!
