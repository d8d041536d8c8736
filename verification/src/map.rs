//! The map of a level, and the questions it answers about distance and
//! reachability.

use pathfinding::directed::astar::astar;
use vstd::prelude::*;
use vstd::string::StringExecFns;

use crate::objects::Player;
use crate::path::{
    astar_cost, capped, ceil_sqrt, chebyshev, comes_before, connected, holds_exactly, is_neighbour,
    is_step, is_walk, lemma_ceil_sqrt_exists, lemma_ceil_sqrt_is_the_root,
    lemma_connected_to_itself, lemma_straight_distance_in_line, lemma_walk_is_no_shortcut, lists,
    lists_exactly, squared_distance, straight_distance, walk_of_cost, Place,
};
use crate::tile::end_name;
pub use crate::tile::{EndType, Tile, TileType, TileView};

verus! {

/// The named places of a map: where the player starts, and one place for
/// each kind of curio.
#[derive(Clone, Copy, Debug)]
pub struct Locations {
    pub start: Option<Place>,
    pub children: Option<Place>,
    pub body: Option<Place>,
    pub lair: Option<Place>,
    pub item: Option<Place>,
    pub rest: Option<Place>,
}

impl Locations {
    /// The place registered for a kind of curio.
    pub open spec fn curio(self, kind: EndType) -> Option<Place> {
        match kind {
            EndType::Children => self.children,
            EndType::Body => self.body,
            EndType::Lair => self.lair,
            EndType::Item => self.item,
            EndType::Rest => self.rest,
        }
    }

    /// The place registered under a name.
    pub open spec fn named(self, name: Seq<char>) -> Option<Place> {
        if name == "start"@ {
            self.start
        } else if name == "children"@ {
            self.children
        } else if name == "body"@ {
            self.body
        } else if name == "lair"@ {
            self.lair
        } else if name == "item"@ {
            self.item
        } else if name == "rest"@ {
            self.rest
        } else {
            None
        }
    }

    /// The registry in which nothing is registered.
    pub open spec fn blank() -> Locations {
        Locations { start: None, children: None, body: None, lair: None, item: None, rest: None }
    }

    /// Registers the place of a kind of curio, in place of any earlier one.
    pub fn set_curio(&mut self, kind: EndType, at: (usize, usize))
        ensures
            final(self).curio(kind) == Some(at),
            final(self).start == old(self).start,
            forall|other: EndType|
                other != kind ==> #[trigger] final(self).curio(other) == old(self).curio(other),
    {
        match kind {
            EndType::Children => self.children = Some(at),
            EndType::Body => self.body = Some(at),
            EndType::Lair => self.lair = Some(at),
            EndType::Item => self.item = Some(at),
            EndType::Rest => self.rest = Some(at),
        }
    }

    /// The registry in which nothing is registered.
    pub fn new() -> (empty: Locations)
        ensures
            empty == Locations::blank(),
    {
        Locations { start: None, children: None, body: None, lair: None, item: None, rest: None }
    }
}

/// A square grid of tiles, `tiles[x][y]` standing at column `x`, row `y`;
/// the marks the player has left; and the named places.
#[derive(Clone, Debug)]
pub struct GameMap {
    /// Row of columns: `tiles[x][y]`
    pub tiles: Vec<Vec<Tile>>,
    pub marks: Vec<(usize, usize)>,
    pub special_locations: Locations,
}

impl GameMap {
    /// The side of the map, in tiles.
    pub open spec fn side(&self) -> nat {
        self.tiles@.len()
    }

    /// Every column is as long as the map is wide.
    pub open spec fn is_square(&self) -> bool {
        forall|x: int|
            0 <= x < self.tiles@.len() ==> (#[trigger] self.tiles@[x])@.len() == self.tiles@.len()
    }

    /// The tile at column `x`, row `y`.
    pub open spec fn tile(&self, x: int, y: int) -> TileView {
        self.tiles@[x]@[y]@
    }

    /// Which cells can be entered.
    pub open spec fn grid(&self) -> Seq<Seq<bool>> {
        Seq::new(
            self.tiles@.len(),
            |x: int| Seq::new(self.tiles@[x]@.len(), |y: int| self.tiles@[x]@[y].passable),
        )
    }

    /// The map is square, each tile can be entered exactly if its type says
    /// so, and the number of its cells, with room for one distance more, can
    /// be counted in a `usize`.
    pub open spec fn wf(&self) -> bool {
        &&& self.is_square()
        &&& self.side() * self.side() + 256 <= usize::MAX
        &&& forall|at: Place| self.in_map(at) ==> (#[trigger] self.tile_at(at)).consistent()
    }

    /// The distance that `get_path_distance` reports: the cost the path
    /// search returns, 255 standing for that and more.
    pub open spec fn path_distance(&self, start: Place, end: Place) -> Option<u8> {
        shown_cost(astar_cost(self.grid(), start.0, start.1, end.0, end.1))
    }

    /// The curio of the given kind has its place: a cell other than
    /// `start`, which holds the curio's tile, and to which the path search
    /// finds a walk from `start`.
    pub open spec fn curio_placed(&self, start: Place, kind: EndType) -> bool {
        &&& self.special_locations.curio(kind) matches Some(at)
        &&& self.in_map(at)
        &&& at != start
        &&& self.tile_at(at).ttype is Curiosity
        &&& self.tile_at(at).search_text == end_name(kind)
        &&& self.path_distance(start, at) is Some
        &&& connected(self.grid(), start, at)
    }

    /// The start and the five curios have their places: six different
    /// cells, each curio reachable from the start.
    pub open spec fn placed(&self) -> bool {
        &&& self.special_locations.start matches Some(start)
        &&& self.in_map(start)
        &&& forall|kind: EndType| self.curio_placed(start, kind)
        &&& forall|a: EndType, b: EndType|
            a != b ==> #[trigger] self.special_locations.curio(a)
                != #[trigger] self.special_locations.curio(b)
    }

    /// A map of the given tiles, with no marks and no named places.
    pub fn from_tiles(tiles: Vec<Vec<Tile>>) -> (map: GameMap)
        ensures
            map.tiles == tiles,
            map.marks@.len() == 0,
            map.special_locations == Locations::blank(),
    {
        GameMap { tiles, marks: Vec::new(), special_locations: Locations::new() }
    }

    /// The up to eight cells of the map around `location`, each at cost 1,
    /// in ascending order by column and then by row. `location` itself is
    /// not among them, and need not lie in the map.
    pub fn get_neighbours(&self, location: &(usize, usize)) -> (neighbours: Vec<
        ((usize, usize), u8),
    >)
        ensures
            lists_exactly(
                neighbours@,
                1u8,
                |to: Place| is_neighbour(self.side(), *location, to),
            ),
    {
        let max_coord = self.tiles.len();
        let (lx, ly) = *location;
        let min_x = match lx.checked_sub(1) {
            Some(x) => x,
            None => 0,
        };
        let min_y = match ly.checked_sub(1) {
            Some(y) => y,
            None => 0,
        };
        let max_x = if lx >= max_coord || lx + 1 >= max_coord {
            max_coord
        } else {
            lx + 2
        };
        let max_y = if ly >= max_coord || ly + 1 >= max_coord {
            max_coord
        } else {
            ly + 2
        };
        let mut neighbours: Vec<((usize, usize), u8)> = Vec::with_capacity(8);
        let ghost around = |to: Place| is_neighbour(self.side(), *location, to);

        let mut x = min_x;
        while x < max_x
            invariant
                max_coord == self.side(),
                (lx, ly) == *location,
                min_x == if lx == 0 { 0 } else { lx - 1 },
                min_y == if ly == 0 { 0 } else { ly - 1 },
                max_x <= max_coord,
                max_y <= max_coord,
                max_x as int == if lx + 2 <= max_coord { lx + 2 } else { max_coord as int },
                max_y as int == if ly + 2 <= max_coord { ly + 2 } else { max_coord as int },
                min_x <= x,
                around == |to: Place| is_neighbour(self.side(), *location, to),
                forall|i: int|
                    0 <= i < neighbours@.len() ==> around((#[trigger] neighbours@[i]).0)
                        && neighbours@[i].1 == 1u8 && neighbours@[i].0.0 < x,
                forall|to: Place| around(to) && to.0 < x ==> #[trigger] lists(neighbours@, to),
                forall|i: int, j: int|
                    0 <= i < j < neighbours@.len() ==> comes_before(
                        (#[trigger] neighbours@[i]).0,
                        (#[trigger] neighbours@[j]).0,
                    ),
            decreases max_x - x,
        {
            let mut y = min_y;
            while y < max_y
                invariant
                    max_coord == self.side(),
                    (lx, ly) == *location,
                    min_x == if lx == 0 { 0 } else { lx - 1 },
                    min_y == if ly == 0 { 0 } else { ly - 1 },
                    max_x <= max_coord,
                    max_y <= max_coord,
                    max_x as int == if lx + 2 <= max_coord { lx + 2 } else { max_coord as int },
                    max_y as int == if ly + 2 <= max_coord { ly + 2 } else { max_coord as int },
                    min_x <= x < max_x,
                    min_y <= y,
                    around == |to: Place| is_neighbour(self.side(), *location, to),
                    forall|i: int|
                        0 <= i < neighbours@.len() ==> around((#[trigger] neighbours@[i]).0)
                            && neighbours@[i].1 == 1u8 && comes_before(neighbours@[i].0, (x, y)),
                    forall|to: Place|
                        around(to) && comes_before(to, (x, y)) ==> #[trigger] lists(
                            neighbours@,
                            to,
                        ),
                    forall|i: int, j: int|
                        0 <= i < j < neighbours@.len() ==> comes_before(
                            (#[trigger] neighbours@[i]).0,
                            (#[trigger] neighbours@[j]).0,
                        ),
                decreases max_y - y,
            {
                let ghost before = neighbours@;
                if x != lx || y != ly {
                    neighbours.push(((x, y), 1));
                    assert(neighbours@[before.len() as int].0 == (x, y));
                    assert(lists(neighbours@, (x, y)));
                }
                assert forall|to: Place| around(to) && comes_before(to, (x, (y + 1) as usize))
                    implies #[trigger] lists(neighbours@, to) by {
                    if to != (x, y) {
                        assert(lists(before, to));
                        let i = choose|i: int| 0 <= i < before.len()
                            && (#[trigger] before[i]).0 == to;
                        assert(neighbours@[i].0 == to);
                    }
                }
                y += 1;
            }
            assert forall|to: Place| around(to) && to.0 < x + 1 implies #[trigger] lists(
                neighbours@,
                to,
            ) by {
                assert(comes_before(to, (x, y)));
            }
            x += 1;
        }
        neighbours
    }

    /// The straight-line distance between two places, rounded up; 255 where
    /// it would be more.
    pub fn get_distance(&self, start: &(usize, usize), end: &(usize, usize)) -> (dist: u8)
        ensures
            dist as nat == straight_distance(*start, *end),
    {
        let dist_x = if start.0 >= end.0 {
            start.0 - end.0
        } else {
            end.0 - start.0
        };
        let dist_y = if start.1 >= end.1 {
            start.1 - end.1
        } else {
            end.1 - start.1
        };
        let ghost squared_gap = squared_distance(*start, *end);
        proof {
            lemma_ceil_sqrt_exists(squared_gap);
        }
        if dist_x >= 255 || dist_y >= 255 {
            proof {
                let root = ceil_sqrt(squared_gap);
                assert(squared_gap >= 255 * 255) by (nonlinear_arith)
                    requires
                        squared_gap == dist_x * dist_x + dist_y * dist_y,
                        dist_x >= 255 || dist_y >= 255,
                ;
                if root < 255 {
                    assert(root * root < 255 * 255) by (nonlinear_arith)
                        requires
                            root < 255,
                    ;
                }
            }
            return 255;
        }
        assert(dist_x * dist_x + dist_y * dist_y <= 129032) by (nonlinear_arith)
            requires
                dist_x < 255,
                dist_y < 255,
        ;
        assert(dist_x * dist_x <= 129032) by (nonlinear_arith)
            requires
                dist_x < 255,
        ;
        assert(dist_y * dist_y <= 129032) by (nonlinear_arith)
            requires
                dist_y < 255,
        ;
        let squared: usize = dist_x * dist_x + dist_y * dist_y;
        let mut root: usize = 0;
        let mut found = false;
        while root < 255 && !found
            invariant
                root <= 255,
                squared == squared_gap,
                root == 0 || (root - 1) * (root - 1) < squared,
                found ==> root * root >= squared,
            decreases 2 * (255 - root) + (if found { 0int } else { 1int }),
        {
            assert(root * root <= 254 * 254) by (nonlinear_arith)
                requires
                    root <= 254,
            ;
            if root * root >= squared {
                found = true;
            } else {
                root += 1;
            }
        }
        proof {
            if found {
                lemma_ceil_sqrt_is_the_root(squared_gap, root as nat);
            } else {
                let least = ceil_sqrt(squared_gap);
                if least < 255 {
                    assert(least * least <= 254 * 254) by (nonlinear_arith)
                        requires
                            least <= 254,
                    ;
                }
            }
        }
        root as u8
    }
}

impl GameMap {
    /// The steps a walk can take from `at`: the neighbouring cells that can
    /// be entered, each at cost 1, in the order of `get_neighbours`.
    pub fn passable_steps(&self, at: &(usize, usize)) -> (steps: Vec<((usize, usize), usize)>)
        requires
            self.is_square(),
        ensures
            lists_exactly(steps@, 1usize, |to: Place| is_step(self.grid(), *at, to)),
    {
        let neighbours = self.get_neighbours(at);
        let mut steps: Vec<((usize, usize), usize)> = Vec::with_capacity(8);
        let ghost around = |to: Place| is_neighbour(self.side(), *at, to);
        let ghost open = |to: Place| is_step(self.grid(), *at, to);
        let mut i: usize = 0;
        while i < neighbours.len()
            invariant
                self.is_square(),
                i <= neighbours@.len(),
                around == |to: Place| is_neighbour(self.side(), *at, to),
                open == |to: Place| is_step(self.grid(), *at, to),
                lists_exactly(neighbours@, 1u8, around),
                forall|k: int|
                    0 <= k < steps@.len() ==> open((#[trigger] steps@[k]).0) && steps@[k].1
                        == 1usize,
                forall|k: int, j: int|
                    0 <= k < steps@.len() && i <= j < neighbours@.len() ==> comes_before(
                        (#[trigger] steps@[k]).0,
                        (#[trigger] neighbours@[j]).0,
                    ),
                forall|j: int|
                    0 <= j < i && open((#[trigger] neighbours@[j]).0) ==> lists(
                        steps@,
                        neighbours@[j].0,
                    ),
                forall|k: int, j: int|
                    0 <= k < j < steps@.len() ==> comes_before(
                        (#[trigger] steps@[k]).0,
                        (#[trigger] steps@[j]).0,
                    ),
            decreases neighbours@.len() - i,
        {
            let ((x, y), _) = neighbours[i];
            let ghost before = steps@;
            assert(around(neighbours@[i as int].0));
            assert(self.tiles@[x as int]@.len() == self.tiles@.len());
            if self.tiles[x][y].passable {
                steps.push(((x, y), 1));
                assert(steps@[before.len() as int].0 == (x, y));
                assert(lists(steps@, (x, y)));
            }
            assert forall|j: int| 0 <= j < i + 1 && open((#[trigger] neighbours@[j]).0)
                implies lists(
                steps@,
                neighbours@[j].0,
            ) by {
                if j < i {
                    let to = neighbours@[j].0;
                    assert(lists(before, to));
                    let k = choose|k: int| 0 <= k < before.len() && (#[trigger] before[k]).0 == to;
                    assert(steps@[k].0 == to);
                }
            }
            i += 1;
        }
        assert forall|to: Place| open(to) implies #[trigger] lists(steps@, to) by {
            assert(around(to));
            assert(lists(neighbours@, to));
            let j = choose|j: int| 0 <= j < neighbours@.len()
                && (#[trigger] neighbours@[j]).0 == to;
            assert(open(neighbours@[j].0));
        }
        steps
    }

    /// What a path search takes the rest of the way from `at` to `end` to
    /// cost: the straight-line distance of `get_distance`.
    pub fn estimate(&self, at: &(usize, usize), end: &(usize, usize)) -> (rest: usize)
        ensures
            rest as nat == straight_distance(*at, *end),
    {
        self.get_distance(at, end) as usize
    }

    /// Reports a cost as a distance: 255 stands for that and more.
    pub fn show_cost(found: Option<usize>) -> (distance: Option<u8>)
        ensures
            distance == shown_cost(found),
    {
        match found {
            Some(cost) => Some(
                if cost >= 255 {
                    255u8
                } else {
                    cost as u8
                },
            ),
            None => None,
        }
    }

    /// The cost of the walk that the path search finds from `start` to
    /// `end`, if it finds one. One is found exactly if one exists, and a
    /// distance below 255 is the length of a walk that exists. From a place
    /// to itself the distance is 0. The cost is never below the larger gap
    /// between the two places; between places in one row or one column it
    /// is therefore never below their straight-line distance.
    pub fn get_path_distance(&self, start: &(usize, usize), end: &(usize, usize)) -> (distance:
        Option<u8>)
        requires
            self.wf(),
        ensures
            distance == self.path_distance(*start, *end),
            distance is Some <==> connected(self.grid(), *start, *end),
            distance matches Some(steps) ==> steps < 255 ==> walk_of_cost(
                self.grid(),
                *start,
                *end,
                steps as nat,
            ),
            *start == *end ==> distance == Some(0u8),
            distance matches Some(steps) ==> steps as nat >= capped(chebyshev(*start, *end)),
            distance matches Some(steps) ==> (start.0 == end.0 || start.1 == end.1) ==> steps as nat
                >= straight_distance(*start, *end),
    {
        let found = astar_search(self, start, end);
        proof {
            if let Some(cost) = found {
                let walk = choose|walk: Seq<Place>|
                    is_walk(self.grid(), walk, *start, *end) && walk.len() == cost as nat + 1;
                lemma_walk_is_no_shortcut(self.grid(), walk, *start, *end);
                if start.0 == end.0 || start.1 == end.1 {
                    lemma_straight_distance_in_line(*start, *end);
                }
            }
        }
        GameMap::show_cost(found)
    }

    /// Whether the path search finds a walk from `start` to `end`: whether
    /// one exists.
    pub fn reachable(&self, start: &(usize, usize), end: &(usize, usize)) -> (found: bool)
        requires
            self.wf(),
        ensures
            found == self.path_distance(*start, *end) is Some,
            found == connected(self.grid(), *start, *end),
            *start == *end ==> found,
    {
        proof {
            lemma_connected_to_itself(self.grid(), *start);
        }
        match self.get_path_distance(start, end) {
            Some(_) => true,
            None => false,
        }
    }
}

impl GameMap {
    /// `at` is a cell of the map.
    pub open spec fn in_map(&self, at: Place) -> bool {
        at.0 < self.side() && at.1 < self.side()
    }

    /// The tile at a cell.
    pub open spec fn tile_at(&self, at: Place) -> TileView {
        self.tile(at.0 as int, at.1 as int)
    }

    /// `at` is a cell of the outermost columns and rows.
    pub open spec fn on_border(&self, at: Place) -> bool {
        self.in_map(at) && (at.0 == 0 || at.1 == 0 || at.0 == self.side() - 1 || at.1
            == self.side() - 1)
    }

    /// `at` is a cell of the map that holds floor.
    pub open spec fn is_floor(&self, at: Place) -> bool {
        self.in_map(at) && self.tile_at(at).ttype is Floor
    }

    /// The two maps are equally wide and agree in every tile but those
    /// at the cells that `but` admits.
    pub open spec fn same_tiles_but(&self, other: &GameMap, but: spec_fn(Place) -> bool) -> bool {
        &&& self.side() == other.side()
        &&& self.is_square() == other.is_square()
        &&& forall|at: Place|
            self.in_map(at) && !but(at) ==> #[trigger] self.tile_at(at) == other.tile_at(at)
    }

    /// Puts `tile` at column `x`, row `y`.
    pub fn put_tile(&mut self, x: usize, y: usize, tile: Tile)
        requires
            old(self).is_square(),
            old(self).in_map((x, y)),
        ensures
            final(self).same_tiles_but(old(self), |at: Place| at == (x, y)),
            final(self).is_square(),
            final(self).tile_at((x, y)) == tile@,
            final(self).marks == old(self).marks,
            final(self).special_locations == old(self).special_locations,
    {
        assert(old(self).tiles@[x as int]@.len() == old(self).tiles@.len());
        self.tiles[x][y] = tile;
        proof {
            assert forall|i: int| 0 <= i < self.tiles@.len()
                implies (#[trigger] self.tiles@[i])@.len()
                == self.tiles@.len() by {
                assert(old(self).tiles@[i]@.len() == old(self).tiles@.len());
            }
        }
    }

    /// The cells that hold floor, or those of them on the border, in
    /// ascending order by column and then by row.
    pub fn floors(&self, border_only: bool) -> (places: Vec<(usize, usize)>)
        requires
            self.is_square(),
        ensures
            holds_exactly(
                places@,
                |at: Place| self.is_floor(at) && (border_only ==> self.on_border(at)),
            ),
    {
        let map_side = self.tiles.len();
        let mut places: Vec<(usize, usize)> = Vec::new();
        let ghost wanted = |at: Place| self.is_floor(at) && (border_only ==> self.on_border(at));
        let mut x: usize = 0;
        while x < map_side
            invariant
                self.is_square(),
                map_side == self.side(),
                x <= map_side,
                wanted == |at: Place| self.is_floor(at) && (border_only ==> self.on_border(at)),
                forall|i: int|
                    0 <= i < places@.len() ==> wanted(#[trigger] places@[i]) && places@[i].0 < x,
                forall|to: Place| wanted(to) && to.0 < x ==> #[trigger] places@.contains(to),
                forall|i: int, j: int|
                    0 <= i < j < places@.len() ==> comes_before(
                        #[trigger] places@[i],
                        #[trigger] places@[j],
                    ),
            decreases map_side - x,
        {
            let mut y: usize = 0;
            while y < map_side
                invariant
                    self.is_square(),
                    map_side == self.side(),
                    x < map_side,
                    y <= map_side,
                    wanted == |at: Place|
                        self.is_floor(at) && (border_only ==> self.on_border(at)),
                    forall|i: int|
                        0 <= i < places@.len() ==> wanted(#[trigger] places@[i]) && comes_before(
                            places@[i],
                            (x, y),
                        ),
                    forall|to: Place|
                        wanted(to) && comes_before(to, (x, y)) ==> #[trigger] places@.contains(to),
                    forall|i: int, j: int|
                        0 <= i < j < places@.len() ==> comes_before(
                            #[trigger] places@[i],
                            #[trigger] places@[j],
                        ),
                decreases map_side - y,
            {
                let ghost before = places@;
                assert(self.tiles@[x as int]@.len() == self.tiles@.len());
                let floor = match self.tiles[x][y].ttype {
                    TileType::Floor => true,
                    _ => false,
                };
                let border = x == 0 || y == 0 || x == map_side - 1 || y == map_side - 1;
                if floor && (border || !border_only) {
                    places.push((x, y));
                    assert(places@[before.len() as int] == (x, y));
                }
                assert forall|to: Place| wanted(to) && comes_before(to, (x, (y + 1) as usize))
                    implies #[trigger] places@.contains(to) by {
                    if to != (x, y) {
                        assert(before.contains(to));
                        let i = choose|i: int| 0 <= i < before.len() && before[i] == to;
                        assert(places@[i] == to);
                    }
                }
                y += 1;
            }
            assert forall|to: Place| wanted(to) && to.0 < x + 1 implies #[trigger] places@.contains(
                to,
            ) by {
                assert(comes_before(to, (x, y)));
            }
            x += 1;
        }
        places
    }
}

/// The six names are six different texts: what is registered under one is
/// what the registry holds for it.
pub proof fn lemma_names_are_apart(locations: Locations)
    ensures
        locations.named("start"@) == locations.start,
        locations.named("children"@) == locations.children,
        locations.named("body"@) == locations.body,
        locations.named("lair"@) == locations.lair,
        locations.named("item"@) == locations.item,
        locations.named("rest"@) == locations.rest,
        forall|kind: EndType| #[trigger] locations.named(end_name(kind)) == locations.curio(kind),
{
    reveal_strlit("start");
    reveal_strlit("children");
    reveal_strlit("body");
    reveal_strlit("lair");
    reveal_strlit("item");
    reveal_strlit("rest");
    assert("start"@.len() == 5);
    assert("children"@.len() == 8);
    assert("body"@[0] == 'b');
    assert("lair"@[0] == 'l');
    assert("item"@[0] == 'i');
    assert("rest"@[0] == 'r');
}

/// Whether a player at `center` who sees `sight` far has `at` in view: the
/// view reaches `sight` cells to the left and up, and one less to the
/// right and down.
pub open spec fn in_sight(center: Place, sight: u8, at: Place) -> bool {
    &&& center.0 - sight <= at.0 < center.0 + sight
    &&& center.1 - sight <= at.1 < center.1 + sight
}

/// A tile after a look at the map: visible if it was, or if it is in view
/// now.
pub open spec fn seen(tile: TileView, now: bool) -> TileView {
    TileView { visible: tile.visible || now, ..tile }
}

impl GameMap {
    /// Makes the tile at column `x`, row `y` visible.
    pub fn show_tile(&mut self, x: usize, y: usize)
        requires
            old(self).is_square(),
            old(self).in_map((x, y)),
        ensures
            final(self).same_tiles_but(old(self), |at: Place| at == (x, y)),
            final(self).is_square(),
            final(self).tile_at((x, y)) == seen(old(self).tile_at((x, y)), true),
            final(self).marks == old(self).marks,
            final(self).special_locations == old(self).special_locations,
    {
        assert(old(self).tiles@[x as int]@.len() == old(self).tiles@.len());
        self.tiles[x][y].visible = true;
        proof {
            assert forall|i: int| 0 <= i < self.tiles@.len()
                implies (#[trigger] self.tiles@[i])@.len()
                == self.tiles@.len() by {
                assert(old(self).tiles@[i]@.len() == old(self).tiles@.len());
            }
        }
    }

    /// Lets the player look at the map: every tile in view becomes visible,
    /// and stays so. Nothing else changes.
    pub fn update(&mut self, player: &Player)
        requires
            old(self).is_square(),
        ensures
            final(self).side() == old(self).side(),
            final(self).is_square(),
            final(self).marks == old(self).marks,
            final(self).special_locations == old(self).special_locations,
            forall|at: Place|
                final(self).in_map(at) ==> #[trigger] final(self).tile_at(at) == seen(
                    old(self).tile_at(at),
                    in_sight(player@.place(), player@.sight(), at),
                ),
            final(self).grid() == old(self).grid(),
            old(self).wf() ==> final(self).wf(),
            old(self).placed() ==> final(self).placed(),
    {
        let sight = player.get_view_distance() as usize;
        let (player_x, player_y) = player.place();
        let start_x = match player_x.checked_sub(sight) {
            Some(x) => x,
            None => 0,
        };
        let start_y = match player_y.checked_sub(sight) {
            Some(y) => y,
            None => 0,
        };
        let map_side = self.tiles.len();
        let end_x = if player_x >= map_side || sight >= map_side - player_x {
            map_side
        } else {
            player_x + sight
        };
        let end_y = if player_y >= map_side || sight >= map_side - player_y {
            map_side
        } else {
            player_y + sight
        };
        let ghost center = player@.place();
        let mut x = start_x;
        while x < end_x
            invariant
                self.is_square(),
                self.side() == old(self).side(),
                map_side == self.side(),
                self.marks == old(self).marks,
                self.special_locations == old(self).special_locations,
                sight == player@.sight(),
                center == (player_x, player_y),
                start_x as int == if player_x >= sight {
                    player_x - sight
                } else {
                    0
                },
                start_y as int == if player_y >= sight {
                    player_y - sight
                } else {
                    0
                },
                end_x as int == if player_x + sight >= map_side {
                    map_side as int
                } else {
                    player_x + sight
                },
                end_y as int == if player_y + sight >= map_side {
                    map_side as int
                } else {
                    player_y + sight
                },
                start_x <= x,
                forall|at: Place|
                    self.in_map(at) ==> #[trigger] self.tile_at(at) == seen(
                        old(self).tile_at(at),
                        in_sight(center, sight as u8, at) && at.0 < x,
                    ),
            decreases end_x - x,
        {
            let mut y = start_y;
            while y < end_y
                invariant
                    self.is_square(),
                    self.side() == old(self).side(),
                    map_side == self.side(),
                    self.marks == old(self).marks,
                    self.special_locations == old(self).special_locations,
                    sight == player@.sight(),
                    center == (player_x, player_y),
                    start_x as int == if player_x >= sight {
                        player_x - sight
                    } else {
                        0
                    },
                    start_y as int == if player_y >= sight {
                        player_y - sight
                    } else {
                        0
                    },
                    end_x as int == if player_x + sight >= map_side {
                        map_side as int
                    } else {
                        player_x + sight
                    },
                    end_y as int == if player_y + sight >= map_side {
                        map_side as int
                    } else {
                        player_y + sight
                    },
                    start_x <= x < end_x,
                    start_y <= y,
                    forall|at: Place|
                        self.in_map(at) ==> #[trigger] self.tile_at(at) == seen(
                            old(self).tile_at(at),
                            in_sight(center, sight as u8, at) && (at.0 < x || (at.0 == x && at.1
                                < y)),
                        ),
                decreases end_y - y,
            {
                let ghost before = *self;
                self.show_tile(x, y);
                proof {
                    assert forall|at: Place| self.in_map(at) implies #[trigger] self.tile_at(at)
                        == seen(
                        old(self).tile_at(at),
                        in_sight(center, sight as u8, at) && (at.0 < x || (at.0 == x && at.1 < y
                            + 1)),
                    ) by {
                        if at != (x, y) {
                            assert(self.tile_at(at) == before.tile_at(at));
                        }
                    }
                }
                y += 1;
            }
            x += 1;
        }
        proof {
            assert forall|at: Place| self.in_map(at) implies (#[trigger] self.tile_at(at)).passable
                == old(self).tile_at(at).passable by {}
            lemma_passable_decides_grid(*self, *old(self));
            if old(self).wf() {
                assert forall|at: Place| self.in_map(at) implies (#[trigger] self.tile_at(
                    at,
                )).consistent() by {
                    assert(old(self).tile_at(at).consistent());
                }
            }
            if old(self).placed() {
                let start = self.special_locations.start->0;
                assert forall|kind: EndType| self.curio_placed(start, kind) by {
                    assert(old(self).curio_placed(start, kind));
                }
            }
        }
    }
}

/// Whether two texts are the same.
pub fn same_text(a: &str, b: &str) -> (same: bool)
    ensures
        same == (a@ == b@),
{
    let left = String::from_str(a);
    let right = String::from_str(b);
    left == right
}

impl GameMap {
    /// The place registered under `name`: "start", or the name of a kind of
    /// curio.
    pub fn get_location(&self, name: &str) -> (place: Option<(usize, usize)>)
        ensures
            place == self.special_locations.named(name@),
    {
        if same_text(name, "start") {
            self.special_locations.start
        } else if same_text(name, "children") {
            self.special_locations.children
        } else if same_text(name, "body") {
            self.special_locations.body
        } else if same_text(name, "lair") {
            self.special_locations.lair
        } else if same_text(name, "item") {
            self.special_locations.item
        } else if same_text(name, "rest") {
            self.special_locations.rest
        } else {
            None
        }
    }

    /// Leaves a mark at (`x`, `y`), unless there is one already.
    pub fn add_mark(&mut self, x: usize, y: usize)
        ensures
            final(self).marks@ == if old(self).marks@.contains((x, y)) {
                old(self).marks@
            } else {
                old(self).marks@.push((x, y))
            },
            final(self).tiles == old(self).tiles,
            final(self).special_locations == old(self).special_locations,
    {
        let mut i: usize = 0;
        while i < self.marks.len()
            invariant
                *self == *old(self),
                i <= self.marks@.len(),
                forall|j: int| 0 <= j < i ==> self.marks@[j] != (x, y),
            decreases self.marks@.len() - i,
        {
            let mark = self.marks[i];
            if mark.0 == x && mark.1 == y {
                assert(self.marks@[i as int] == (x, y));
                return ;
            }
            i += 1;
        }
        self.marks.push((x, y));
    }
}

/// Whether a map is well-formed, and which of its cells can be entered,
/// depends on its tiles alone.
pub proof fn lemma_tiles_decide(a: GameMap, b: GameMap)
    requires
        a.tiles == b.tiles,
    ensures
        a.wf() == b.wf(),
        a.grid() == b.grid(),
{
    if a.wf() {
        assert forall|at: Place| b.in_map(at) implies (#[trigger] b.tile_at(at)).consistent() by {
            assert(a.tile_at(at).consistent());
        }
    }
    if b.wf() {
        assert forall|at: Place| a.in_map(at) implies (#[trigger] a.tile_at(at)).consistent() by {
            assert(b.tile_at(at).consistent());
        }
    }
}

/// Two square maps of one size in which the same cells can be entered have
/// the same grid.
pub proof fn lemma_passable_decides_grid(a: GameMap, b: GameMap)
    requires
        a.is_square(),
        b.is_square(),
        a.side() == b.side(),
        forall|at: Place|
            a.in_map(at) ==> (#[trigger] a.tile_at(at)).passable == b.tile_at(at).passable,
    ensures
        a.grid() == b.grid(),
{
    assert(a.side() <= usize::MAX) by {
        assert(a.tiles.len() == a.tiles@.len());
    }
    assert forall|x: int| 0 <= x < a.side() implies #[trigger] a.grid()[x] =~= b.grid()[x] by {
        assert(a.tiles@[x]@.len() == a.tiles@.len());
        assert(b.tiles@[x]@.len() == b.tiles@.len());
        assert forall|y: int| 0 <= y < a.side() implies a.grid()[x][y] == b.grid()[x][y] by {
            let at = (x as usize, y as usize);
            assert(a.in_map(at));
            assert(a.tile_at(at).passable == b.tile_at(at).passable);
        }
    }
    assert(a.grid() =~= b.grid());
}

/// The start and each curio lie at different cells, and a walk leads from
/// the start to each curio.
pub proof fn lemma_placed_curios_are_apart_and_reachable(map: GameMap, a: EndType, b: EndType)
    requires
        map.placed(),
    ensures
        map.special_locations.start is Some,
        map.special_locations.curio(a) is Some,
        map.special_locations.curio(a) != map.special_locations.start,
        a != b ==> map.special_locations.curio(a) != map.special_locations.curio(b),
        map.path_distance(
            map.special_locations.start->0,
            map.special_locations.curio(a)->0,
        ) is Some,
        connected(
            map.grid(),
            map.special_locations.start->0,
            map.special_locations.curio(a)->0,
        ),
{
    let start = map.special_locations.start->0;
    assert(map.curio_placed(start, a));
}

/// Whether the search has arrived.
pub fn same_place(at: &(usize, usize), end: &(usize, usize)) -> (same: bool)
    ensures
        same == (*at == *end),
{
    at.0 == end.0 && at.1 == end.1
}

/// `pathfinding::directed::astar::astar`, from `start`, over the steps of
/// `passable_steps`, with `estimate` as the heuristic, until `same_place`
/// holds of `end`; the path found is dropped and its cost kept.
///
/// The search returns a cost exactly if some walk leads from `start` to
/// `end`: it visits every place that walks from `start` reach before it gives
/// up. The cost it returns is the length of a walk that it has followed from
/// `start` to `end`. Which walk that is depends on the order in which the
/// search visits places, so the cost goes by the name `astar_cost`. Where
/// `start` is `end`, the search has arrived before its first step, and the
/// cost is 0. The search adds costs and estimates in a `usize`; no sum
/// exceeds the number of cells plus 256, which a well-formed map keeps in
/// range.
#[verifier::external_body]
fn astar_search(map: &GameMap, start: &(usize, usize), end: &(usize, usize)) -> (found: Option<
    usize,
>)
    requires
        map.wf(),
    ensures
        found == astar_cost(map.grid(), start.0, start.1, end.0, end.1),
        found matches Some(cost) ==> walk_of_cost(map.grid(), *start, *end, cost as nat),
        found is None ==> !connected(map.grid(), *start, *end),
        *start == *end ==> found == Some(0usize),
{
    astar(
        start,
        |at| map.passable_steps(at),
        |at| map.estimate(at, end),
        |at| same_place(at, end),
    ).map(|found| found.1)
}

/// A cost as `get_path_distance` reports it.
pub open spec fn shown_cost(found: Option<usize>) -> Option<u8> {
    match found {
        Some(cost) => Some(
            if cost >= 255 {
                255u8
            } else {
                cost as u8
            },
        ),
        None => None,
    }
}

} // verus!
