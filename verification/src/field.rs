//! Fields of cards: a pool of cards is dealt into a square field, and the
//! field is flattened into one grid of tiles.

use rand::StdRng;
use vstd::prelude::*;
use vstd::string::StringExecFns;

use crate::card::Card;
use crate::permutation::lemma_permutation_maps;
use crate::random::shuffle_all;
use crate::tile::{fresh_tile, Tile, TileType, TileView};

verus! {

/// The position, along one axis of the map, of an offset `within` the card
/// that is number `block` along that axis.
pub open spec fn flat(block: int, within: int, card_side: int) -> int {
    block * card_side + within
}

/// The side of the cards of a field: that of the card in its first corner,
/// and 0 where the field has none there.
pub open spec fn card_side_of(field: Seq<Vec<Card>>) -> nat {
    if field.len() > 0 && field[0]@.len() > 0 {
        field[0]@[0]@.len()
    } else {
        0
    }
}

/// Every card of the field is square and as wide as the first, and no
/// column of the field holds more cards than the field has columns.
pub open spec fn field_fits(field: Seq<Vec<Card>>) -> bool {
    &&& forall|fx: int| 0 <= fx < field.len() ==> (#[trigger] field[fx])@.len() <= field.len()
    &&& forall|fx: int, fy: int|
        0 <= fx < field.len() && 0 <= fy < field[fx]@.len() ==> (#[trigger] field[fx]@[fy]).wf()
            && field[fx]@[fy]@.len() == card_side_of(field)
}

/// The tile that the field puts at offset (`x`, `y`) of cell (`fx`, `fy`):
/// that of the card in the cell, or a blank wall where the cell is empty.
pub open spec fn field_tile(field: Seq<Vec<Card>>, fx: int, fy: int, x: int, y: int) -> TileView {
    if fy < field[fx]@.len() {
        field[fx]@[fy]@[x][y]
    } else {
        fresh_tile(TileType::Wall, Seq::empty())
    }
}

/// `column` is the column of the map at offset `x` of the cells in column
/// `fx` of the field, as far as its first `cells` cells and `rows` rows of
/// the next.
pub open spec fn column_holds(
    column: Seq<Tile>,
    field: Seq<Vec<Card>>,
    fx: int,
    x: int,
    cells: int,
    rows: int,
) -> bool {
    let card_side = card_side_of(field) as int;
    forall|fy: int, y: int|
        0 <= fy && 0 <= y < card_side && (fy < cells || (fy == cells && y < rows))
            ==> #[trigger] column[flat(fy, y, card_side)]@ == field_tile(field, fx, fy, x, y)
}

/// `tiles` is the field flattened: a square grid in which the tile at
/// offset (`x`, `y`) of cell (`fx`, `fy`) stands at column
/// `fx * card_side + x`, row `fy * card_side + y`.
pub open spec fn flattens(tiles: Seq<Vec<Tile>>, field: Seq<Vec<Card>>) -> bool {
    let card_side = card_side_of(field) as int;
    let side = field.len() * card_side;
    &&& tiles.len() == side
    &&& forall|gx: int| 0 <= gx < side ==> (#[trigger] tiles[gx])@.len() == side
    &&& forall|fx: int, x: int|
        0 <= fx < field.len() && 0 <= x < card_side ==> column_holds(
            #[trigger] tiles[flat(fx, x, card_side)]@,
            field,
            fx,
            x,
            field.len() as int,
            0,
        )
}

proof fn lemma_flat_in_range(block: int, within: int, card_side: int, blocks: int)
    requires
        0 <= block < blocks,
        0 <= within < card_side,
    ensures
        0 <= flat(block, within, card_side) < blocks * card_side,
{
    assert(0 <= block * card_side + within < blocks * card_side) by (nonlinear_arith)
        requires
            0 <= block < blocks,
            0 <= within < card_side,
    ;
}

proof fn lemma_flat_next_block(block: int, card_side: int, blocks: int)
    requires
        0 <= block < blocks,
        0 <= card_side,
    ensures
        flat(block, card_side, card_side) == flat(block + 1, 0, card_side),
        flat(block, 0, card_side) <= flat(block + 1, 0, card_side) <= blocks * card_side,
{
    assert(block * card_side + card_side == (block + 1) * card_side && block * card_side <= (block
        + 1) * card_side && (block + 1) * card_side <= blocks * card_side) by (nonlinear_arith)
        requires
            0 <= block < blocks,
            0 <= card_side,
    ;
}

proof fn lemma_flat_is_one_to_one(a: int, i: int, b: int, j: int, card_side: int)
    requires
        0 <= a,
        0 <= b,
        0 <= i < card_side,
        0 <= j < card_side,
        flat(a, i, card_side) == flat(b, j, card_side),
    ensures
        a == b,
        i == j,
{
    assert(a == b && i == j) by (nonlinear_arith)
        requires
            0 <= a,
            0 <= b,
            0 <= i < card_side,
            0 <= j < card_side,
            a * card_side + i == b * card_side + j,
    ;
}

/// A wall with no text: what stands where the field has no card.
pub fn blank_wall() -> (tile: Tile)
    ensures
        tile@ == fresh_tile(TileType::Wall, Seq::empty()),
{
    Tile {
        ttype: TileType::Wall,
        passable: false,
        visible: false,
        search_text: String::new(),
        icon: String::from_str("wall.png"),
    }
}

/// Flattens a field of cards into the tiles of a map. Cells of the field
/// that hold no card become blank walls.
pub fn generate_map(cards_field: &Vec<Vec<Card>>) -> (tiles: Vec<Vec<Tile>>)
    requires
        field_fits(cards_field@),
        cards_field@.len() * card_side_of(cards_field@) <= usize::MAX,
    ensures
        flattens(tiles@, cards_field@),
{
    let field_side = cards_field.len();
    let card_side = if field_side > 0 && cards_field[0].len() > 0 {
        cards_field[0][0].side()
    } else {
        0
    };
    let ghost field = cards_field@;
    let ghost side = field_side * card_side;
    let mut map: Vec<Vec<Tile>> = Vec::new();
    let mut field_x: usize = 0;
    while field_x < field_side
        invariant
            field == cards_field@,
            field_fits(field),
            field_side == field.len(),
            card_side == card_side_of(field),
            side == field_side * card_side,
            side <= usize::MAX,
            field_x <= field_side,
            map@.len() == flat(field_x as int, 0, card_side as int),
            forall|gx: int| 0 <= gx < map@.len() ==> (#[trigger] map@[gx])@.len() == side,
            forall|fx: int, x: int|
                0 <= fx < field_x && 0 <= x < card_side ==> column_holds(
                    #[trigger] map@[flat(fx, x, card_side as int)]@,
                    field,
                    fx,
                    x,
                    field_side as int,
                    0,
                ),
        decreases field_side - field_x,
    {
        let mut x: usize = 0;
        while x < card_side
            invariant
                field == cards_field@,
                field_fits(field),
                field_side == field.len(),
                card_side == card_side_of(field),
                side == field_side * card_side,
                side <= usize::MAX,
                field_x < field_side,
                x <= card_side,
                map@.len() == flat(field_x as int, x as int, card_side as int),
                forall|gx: int| 0 <= gx < map@.len() ==> (#[trigger] map@[gx])@.len() == side,
                forall|fx: int, i: int|
                    0 <= fx && 0 <= i < card_side && (fx < field_x || (fx == field_x && i < x))
                        ==> column_holds(
                        #[trigger] map@[flat(fx, i, card_side as int)]@,
                        field,
                        fx,
                        i,
                        field_side as int,
                        0,
                    ),
            decreases card_side - x,
        {
            let column = flat_column(cards_field, field_x, x, card_side);
            let ghost before = map@;
            map.push(column);
            proof {
                assert forall|fx: int, i: int|
                    0 <= fx && 0 <= i < card_side && (fx < field_x || (fx == field_x && i < x + 1))
                    implies column_holds(
                    #[trigger] map@[flat(fx, i, card_side as int)]@,
                    field,
                    fx,
                    i,
                    field_side as int,
                    0,
                ) by {
                    if fx == field_x && i == x {
                    } else {
                        lemma_flat_in_range(fx, i, card_side as int, field_side as int);
                        if flat(fx, i, card_side as int) >= before.len() {
                            if fx < field_x {
                                lemma_flat_in_range(fx, i, card_side as int, field_x as int);
                            }
                        }
                        assert(map@[flat(fx, i, card_side as int)] == before[flat(
                            fx,
                            i,
                            card_side as int,
                        )]);
                    }
                }
            }
            x += 1;
        }
        proof {
            lemma_flat_next_block(field_x as int, card_side as int, field_side as int);
        }
        field_x += 1;
    }
    proof {
        assert(flat(field_side as int, 0, card_side as int) == side);
    }
    map
}

/// The column of the map at offset `x` of the cells in column `field_x` of
/// the field.
fn flat_column(cards_field: &Vec<Vec<Card>>, field_x: usize, x: usize, card_side: usize) -> (column:
    Vec<Tile>)
    requires
        field_fits(cards_field@),
        card_side == card_side_of(cards_field@),
        cards_field@.len() * card_side <= usize::MAX,
        field_x < cards_field@.len(),
        x < card_side,
    ensures
        column@.len() == cards_field@.len() * card_side,
        column_holds(column@, cards_field@, field_x as int, x as int, cards_field@.len() as int, 0),
{
    let field_side = cards_field.len();
    let ghost field = cards_field@;
    let mut column: Vec<Tile> = Vec::new();
    let mut field_y: usize = 0;
    while field_y < field_side
        invariant
            field == cards_field@,
            field_fits(field),
            field_side == field.len(),
            card_side == card_side_of(field),
            field_side * card_side <= usize::MAX,
            field_x < field_side,
            x < card_side,
            field_y <= field_side,
            column@.len() == flat(field_y as int, 0, card_side as int),
            column_holds(column@, field, field_x as int, x as int, field_y as int, 0),
        decreases field_side - field_y,
    {
        let mut y: usize = 0;
        while y < card_side
            invariant
                field == cards_field@,
                field_fits(field),
                field_side == field.len(),
                card_side == card_side_of(field),
                field_side * card_side <= usize::MAX,
                field_x < field_side,
                x < card_side,
                field_y < field_side,
                y <= card_side,
                column@.len() == flat(field_y as int, y as int, card_side as int),
                column_holds(column@, field, field_x as int, x as int, field_y as int, y as int),
            decreases card_side - y,
        {
            let ghost before = column@;
            let tile = if field_y < cards_field[field_x].len() {
                let card = &cards_field[field_x][field_y];
                assert(card.wf() && card@.len() == card_side);
                assert(card@[x as int].len() == card@.len());
                card.tile(x, y).duplicate()
            } else {
                blank_wall()
            };
            assert(tile@ == field_tile(field, field_x as int, field_y as int, x as int, y as int));
            column.push(tile);
            proof {
                assert forall|fy: int, j: int|
                    0 <= fy && 0 <= j < card_side && (fy < field_y || (fy == field_y && j < y + 1))
                    implies #[trigger] column@[flat(fy, j, card_side as int)]@ == field_tile(
                    field,
                    field_x as int,
                    fy,
                    x as int,
                    j,
                ) by {
                    if fy == field_y && j == y {
                    } else {
                        if fy < field_y {
                            lemma_flat_in_range(fy, j, card_side as int, field_y as int);
                        }
                        assert(column@[flat(fy, j, card_side as int)] == before[flat(
                            fy,
                            j,
                            card_side as int,
                        )]);
                    }
                }
            }
            y += 1;
        }
        proof {
            lemma_flat_next_block(field_y as int, card_side as int, field_side as int);
        }
        field_y += 1;
    }
    proof {
        assert(flat(field_side as int, 0, card_side as int) == field_side * card_side);
    }
    column
}

/// How many cards column `fx` of a field of the given side holds when
/// `cards` cards are dealt into it: columns are filled one after the other,
/// with `side` cards each, until the cards run out.
pub open spec fn dealt_len(cards: nat, side: nat, fx: int) -> nat {
    let left = cards - flat(fx, 0, side as int);
    if left <= 0 {
        0
    } else if left >= side {
        side
    } else {
        left as nat
    }
}

/// `field` is what dealing `order` gives: a field of `side` columns, filled
/// column by column from the end of `order`.
pub open spec fn deals(field: Seq<Vec<Card>>, order: Seq<Card>, side: nat) -> bool {
    &&& field.len() == side
    &&& forall|fx: int|
        0 <= fx < side ==> (#[trigger] field[fx])@.len() == dealt_len(order.len(), side, fx)
    &&& forall|fx: int, fy: int|
        0 <= fx < side && 0 <= fy < field[fx]@.len()
            ==> (#[trigger] field[fx]@[fy]) == order[order.len()
            - 1 - flat(fx, fy, side as int)]
}

/// The cards of a pool as the contracts see them.
pub open spec fn card_views(cards: Seq<Card>) -> Seq<Seq<Seq<TileView>>> {
    cards.map_values(|card: Card| card@)
}

/// Deals cards into a field of `cardfield_side` columns of up to
/// `cardfield_side` cards each, taking them from the end of `cards`. Where
/// the cards run out, the rest of the field stays empty.
pub fn deal_field(cards: Vec<Card>, cardfield_side: usize) -> (cardfield: Vec<Vec<Card>>)
    ensures
        deals(cardfield@, cards@, cardfield_side as nat),
{
    let ghost order = cards@;
    let ghost side = cardfield_side as int;
    let mut cards = cards;
    let mut cardfield: Vec<Vec<Card>> = Vec::with_capacity(cardfield_side);
    let mut x: usize = 0;
    while x < cardfield_side
        invariant
            side == cardfield_side,
            x <= cardfield_side,
            cardfield@.len() == x,
            cards@.len() <= order.len(),
            cards@ == order.take(cards@.len() as int),
            cards@.len() as int == if order.len() >= flat(x as int, 0, side) {
                order.len() - flat(x as int, 0, side)
            } else {
                0
            },
            forall|fx: int|
                0 <= fx < x ==> (#[trigger] cardfield@[fx])@.len() == dealt_len(
                    order.len(),
                    side as nat,
                    fx,
                ),
            forall|fx: int, fy: int|
                0 <= fx < x && 0 <= fy < cardfield@[fx]@.len() ==> (#[trigger] cardfield@[fx]@[fy])
                    == order[order.len() - 1 - flat(fx, fy, side)],
        decreases cardfield_side - x,
    {
        let mut column: Vec<Card> = Vec::with_capacity(cardfield_side);
        let ghost base = flat(x as int, 0, side);
        proof {
            lemma_flat_next_block(x as int, side, side);
        }
        let mut y: usize = 0;
        while y < cardfield_side
            invariant
                side == cardfield_side,
                x < cardfield_side,
                y <= cardfield_side,
                base == flat(x as int, 0, side),
                0 <= base,
                cards@.len() <= order.len(),
                cards@ == order.take(cards@.len() as int),
                cards@.len() as int == if order.len() >= base + y {
                    order.len() - (base + y)
                } else {
                    0
                },
                column@.len() as int == if order.len() >= base + y {
                    y as int
                } else if order.len() >= base {
                    order.len() - base
                } else {
                    0
                },
                forall|fy: int|
                    0 <= fy < column@.len() ==> (#[trigger] column@[fy]) == order[order.len() - 1
                        - (base + fy)],
            decreases cardfield_side - y,
        {
            if let Some(card) = cards.pop() {
                column.push(card);
            }
            y += 1;
        }
        cardfield.push(column);
        x += 1;
    }
    cardfield
}

/// Shuffles a copy of the pool and deals it: the field holds the last
/// cards of some reordering of the pool.
pub fn generate_field(fields: &Vec<Card>, cardfield_side: usize, rng: &mut StdRng) -> (cardfield:
    Vec<Vec<Card>>)
    ensures
        exists|order: Seq<Card>|
            #![trigger deals(cardfield@, order, cardfield_side as nat)]
            deals(cardfield@, order, cardfield_side as nat) && card_views(order).to_multiset()
                == card_views(fields@).to_multiset(),
{
    let mut mut_fields: Vec<Card> = Vec::with_capacity(fields.len());
    let mut i: usize = 0;
    while i < fields.len()
        invariant
            i <= fields@.len(),
            mut_fields@.len() == i,
            forall|j: int| 0 <= j < i ==> (#[trigger] mut_fields@[j])@ == fields@[j]@,
        decreases fields@.len() - i,
    {
        mut_fields.push(fields[i].duplicate());
        i += 1;
    }
    let ghost copies = mut_fields@;
    assert(card_views(copies) =~= card_views(fields@));
    shuffle_all(rng, &mut mut_fields);
    let ghost order = mut_fields@;
    proof {
        lemma_permutation_maps(order, copies, |card: Card| card@);
    }
    let cardfield = deal_field(mut_fields, cardfield_side);
    assert(deals(cardfield@, order, cardfield_side as nat));
    cardfield
}

/// The side of the cards of a pool: that of the first, and 0 where the
/// pool is empty.
pub open spec fn pool_side(pool: Seq<Card>) -> nat {
    if pool.len() > 0 {
        pool[0]@.len()
    } else {
        0
    }
}

/// Every card of the pool is well-formed and as wide as the first.
pub open spec fn pool_fits(pool: Seq<Card>) -> bool {
    forall|i: int|
        0 <= i < pool.len() ==> (#[trigger] pool[i]).wf() && pool[i]@.len() == pool_side(pool)
}

/// The side of the map that a pool gives when `field_side` cards lie along
/// each side.
pub open spec fn map_side(pool: Seq<Card>, field_side: nat) -> nat {
    field_side * pool_side(pool)
}

/// A field dealt from a reordering of a fitting pool can be flattened, and
/// its cards are as wide as those of the pool.
pub proof fn lemma_dealt_field_fits(
    field: Seq<Vec<Card>>,
    order: Seq<Card>,
    pool: Seq<Card>,
    side: nat,
)
    requires
        deals(field, order, side),
        card_views(order).to_multiset() == card_views(pool).to_multiset(),
        pool_fits(pool),
    ensures
        field_fits(field),
        field.len() * card_side_of(field) == if side > 0 && pool.len() > 0 {
            map_side(pool, side)
        } else {
            0
        },
        forall|fx: int, fy: int|
            0 <= fx < field.len() && 0 <= fy < field[fx]@.len()
                ==> (#[trigger] field[fx]@[fy]).wf(),
{
    vstd::seq_lib::to_multiset_len(card_views(order));
    vstd::seq_lib::to_multiset_len(card_views(pool));
    assert(order.len() == pool.len());
    assert forall|i: int| 0 <= i < order.len() implies (#[trigger] order[i]).wf() && order[i]@.len()
        == pool_side(pool) by {
        let shown = order[i]@;
        assert(card_views(order)[i] == shown);
        assert(card_views(order).contains(shown));
        vstd::seq_lib::to_multiset_contains(card_views(order), shown);
        vstd::seq_lib::to_multiset_contains(card_views(pool), shown);
        let j = choose|j: int| 0 <= j < card_views(pool).len() && card_views(pool)[j] == shown;
        assert(pool[j]@ == shown);
        assert(pool[j].wf());
    }
    assert(flat(0, 0, side as int) == 0);
    assert forall|fx: int, fy: int|
        0 <= fx < field.len() && 0 <= fy < field[fx]@.len() implies (#[trigger] field[fx]@[fy]).wf()
        && field[fx]@[fy]@.len() == pool_side(pool) by {
        assert(field[fx]@.len() == dealt_len(order.len(), side, fx));
        let from = order.len() - 1 - flat(fx, fy, side as int);
        assert(0 <= from < order.len()) by (nonlinear_arith)
            requires
                from == order.len() - 1 - (fx * side + fy),
                0 <= fx,
                0 <= fy < dealt_len(order.len(), side, fx),
                dealt_len(order.len(), side, fx) <= order.len() - (fx * side + 0),
        ;
        assert(field[fx]@[fy] == order[from]);
    }
    if side > 0 && pool.len() > 0 {
        assert(field[0]@.len() == dealt_len(order.len(), side, 0));
        assert(field[0]@[0] == order[order.len() - 1 - flat(0, 0, side as int)]);
        assert(card_side_of(field) == pool_side(pool));
    } else if side > 0 {
        assert(field[0]@.len() == dealt_len(order.len(), side, 0));
        assert(card_side_of(field) == 0);
        assert(field.len() * card_side_of(field) == 0) by (nonlinear_arith)
            requires
                card_side_of(field) == 0,
        ;
    } else {
        assert(field.len() * card_side_of(field) == 0) by (nonlinear_arith)
            requires
                field.len() == 0,
        ;
    }
    assert forall|fx: int, fy: int|
        0 <= fx < field.len() && 0 <= fy < field[fx]@.len() implies (#[trigger] field[fx]@[fy]).wf()
        && field[fx]@[fy]@.len() == card_side_of(field) by {
        assert(field[fx]@[fy]@.len() == pool_side(pool));
        if !(side > 0 && pool.len() > 0) {
            assert(field[fx]@.len() == dealt_len(order.len(), side, fx));
            assert(flat(fx, 0, side as int) >= 0) by (nonlinear_arith)
                requires
                    fx >= 0,
                    side >= 0,
                    flat(fx, 0, side as int) == fx * side + 0,
            ;
        }
    }
    assert forall|fx: int| 0 <= fx < field.len() implies (#[trigger] field[fx])@.len()
        <= field.len() by {
        assert(field[fx]@.len() == dealt_len(order.len(), side, fx));
    }
}

/// Every position along a side of the map lies in exactly one card, at
/// one offset: flattening leaves no gap.
pub proof fn lemma_position_is_one_cell(position: int, card_side: int, blocks: int)
    requires
        0 <= position < blocks * card_side,
        0 <= card_side,
    ensures
        0 <= position / card_side < blocks,
        0 <= position % card_side < card_side,
        flat(position / card_side, position % card_side, card_side) == position,
{
    assert(card_side > 0) by (nonlinear_arith)
        requires
            0 <= position < blocks * card_side,
            0 <= card_side,
    ;
    vstd::arithmetic::div_mod::lemma_fundamental_div_mod(position, card_side);
    vstd::arithmetic::div_mod::lemma_mod_pos_bound(position, card_side);
    let block = position / card_side;
    let within = position % card_side;
    assert(card_side * block == block * card_side) by (nonlinear_arith);
    assert(0 <= block < blocks) by (nonlinear_arith)
        requires
            0 <= position < blocks * card_side,
            position == block * card_side + within,
            0 <= within < card_side,
    ;
}

/// No two cells of the field share a position of the map: flattening
/// makes no tile stand in for two.
pub proof fn lemma_cells_do_not_overlap(a: int, i: int, b: int, j: int, card_side: int)
    requires
        0 <= a,
        0 <= b,
        0 <= i < card_side,
        0 <= j < card_side,
        flat(a, i, card_side) == flat(b, j, card_side),
    ensures
        a == b,
        i == j,
{
    lemma_flat_is_one_to_one(a, i, b, j, card_side);
}

} // verus!
