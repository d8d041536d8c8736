//! Cards: the square blocks of tiles that a map is assembled from.
//!
//! A card is defined by a text of as many lines as the card is wide. The
//! character at position `x` of line `y` stands for the tile at column `x`,
//! row `y`: `_` is floor, anything else is wall, and so is what a short line
//! leaves out.

use vstd::prelude::*;
use vstd::string::StrSliceExecFns;
use vstd::string::StringExecFns;

use crate::tile::{fresh_tile, Tile, TileType, TileView};

verus! {

/// A line without the carriage return that may end it.
pub open spec fn without_return(line: Seq<char>) -> Seq<char> {
    if line.len() > 0 && line[line.len() - 1] == '\r' {
        line.drop_last()
    } else {
        line
    }
}

/// The lines of `pending` followed by `rest`, where `pending` is the
/// beginning of a line. A line ends at a line feed; a carriage return just
/// before the line feed belongs to the line ending. What follows the last
/// line feed is a line of its own unless it is empty.
pub open spec fn lines_after(pending: Seq<char>, rest: Seq<char>) -> Seq<Seq<char>>
    decreases rest.len(),
{
    if rest.len() == 0 {
        if pending.len() == 0 {
            Seq::empty()
        } else {
            seq![pending]
        }
    } else if rest[0] == '\n' {
        seq![without_return(pending)] + lines_after(Seq::empty(), rest.drop_first())
    } else {
        lines_after(pending.push(rest[0]), rest.drop_first())
    }
}

/// The lines of a text.
pub open spec fn text_lines(text: Seq<char>) -> Seq<Seq<char>> {
    lines_after(Seq::empty(), text)
}

/// The type of the tile at column `x`, row `y` of the card that `lines`
/// define.
pub open spec fn drawn_type(lines: Seq<Seq<char>>, x: int, y: int) -> TileType {
    if x < lines[y].len() && lines[y][x] == '_' {
        TileType::Floor
    } else {
        TileType::Wall
    }
}

/// No line is longer than there are lines.
pub open spec fn fits_square(lines: Seq<Seq<char>>) -> bool {
    forall|y: int| 0 <= y < lines.len() ==> (#[trigger] lines[y]).len() <= lines.len()
}

/// A square block of tiles. Seen as a sequence of columns: `card@[x][y]` is
/// the tile at column `x`, row `y`.
#[derive(Clone, Debug)]
pub struct Card {
    tiles: Vec<Vec<Tile>>,
}

impl View for Card {
    type V = Seq<Seq<TileView>>;

    closed spec fn view(&self) -> Seq<Seq<TileView>> {
        Seq::new(
            self.tiles@.len(),
            |x: int| Seq::new(self.tiles@[x]@.len(), |y: int| self.tiles@[x]@[y]@),
        )
    }
}

/// The columns form a square.
pub open spec fn is_square(columns: Seq<Seq<TileView>>) -> bool {
    forall|x: int| 0 <= x < columns.len() ==> (#[trigger] columns[x]).len() == columns.len()
}

impl Card {
    /// The card is square, and each of its tiles can be entered exactly if
    /// its type says so.
    pub open spec fn wf(&self) -> bool {
        &&& is_square(self@)
        &&& forall|x: int, y: int|
            0 <= x < self@.len() && 0 <= y < self@.len() ==> (#[trigger] self@[x][y]).consistent()
    }

    /// The side of the card, in tiles.
    pub fn side(&self) -> (side: usize)
        ensures
            side == self@.len(),
    {
        self.tiles.len()
    }

    /// The tile at column `x`, row `y`.
    pub fn tile(&self, x: usize, y: usize) -> (tile: &Tile)
        requires
            x < self@.len(),
            y < self@[x as int].len(),
        ensures
            tile@ == self@[x as int][y as int],
    {
        &self.tiles[x][y]
    }

    /// A copy of this card.
    pub fn duplicate(&self) -> (copy: Card)
        ensures
            copy@ == self@,
    {
        let mut tiles: Vec<Vec<Tile>> = Vec::with_capacity(self.tiles.len());
        let mut x: usize = 0;
        while x < self.tiles.len()
            invariant
                x <= self.tiles@.len(),
                tiles@.len() == x,
                forall|i: int|
                    0 <= i < x ==> (#[trigger] tiles@[i])@.len() == self.tiles@[i]@.len(),
                forall|i: int, j: int|
                    0 <= i < x && 0 <= j < self.tiles@[i]@.len() ==> (#[trigger] tiles@[i]@[j])@
                        == self.tiles@[i]@[j]@,
            decreases self.tiles@.len() - x,
        {
            let mut column: Vec<Tile> = Vec::with_capacity(self.tiles[x].len());
            let mut y: usize = 0;
            while y < self.tiles[x].len()
                invariant
                    x < self.tiles@.len(),
                    y <= self.tiles@[x as int]@.len(),
                    column@.len() == y,
                    forall|j: int|
                        0 <= j < y ==> (#[trigger] column@[j])@ == self.tiles@[x as int]@[j]@,
                decreases self.tiles@[x as int]@.len() - y,
            {
                column.push(self.tiles[x][y].duplicate());
                y += 1;
            }
            tiles.push(column);
            x += 1;
        }
        let copy = Card { tiles };
        proof {
            assert forall|x: int| 0 <= x < self@.len() implies #[trigger] copy@[x] =~= self@[x] by {
                assert forall|y: int| 0 <= y < self@[x].len()
                    implies copy@[x][y] == self@[x][y] by {
                    assert(copy.tiles@[x]@[y]@ == self.tiles@[x]@[y]@);
                }
            }
            assert(copy@ =~= self@);
        }
        copy
    }

    /// Reads a card from its definition. The definition is refused where a
    /// line is longer than there are lines: such a card would not be square.
    pub fn new(definition: &str) -> (made: Result<Card, ()>)
        ensures
            made is Ok <==> fits_square(text_lines(definition@)),
            made matches Ok(card) ==> {
                &&& card.wf()
                &&& card@.len() == text_lines(definition@).len()
                &&& forall|x: int, y: int|
                    0 <= x < card@.len() && 0 <= y < card@.len() ==> #[trigger] card@[x][y]
                        == fresh_tile(drawn_type(text_lines(definition@), x, y), "empty"@)
            },
    {
        let lines = split_lines(definition);
        let card_side = lines.len();
        let mut y: usize = 0;
        while y < card_side
            invariant
                card_side == lines@.len(),
                y <= card_side,
                view_lines(lines@) == text_lines(definition@),
                forall|j: int| 0 <= j < y ==> (#[trigger] lines@[j])@.len() <= card_side,
            decreases card_side - y,
        {
            if lines[y].len() > card_side {
                proof {
                    let shown = view_lines(lines@);
                    assert(shown[y as int].len() > shown.len());
                }
                return Err(());
            }
            y += 1;
        }
        proof {
            let shown = view_lines(lines@);
            assert forall|j: int| 0 <= j < shown.len() implies (#[trigger] shown[j]).len()
                <= shown.len() by {
                assert(lines@[j]@.len() <= card_side);
            }
        }
        let mut tiles: Vec<Vec<Tile>> = Vec::with_capacity(card_side);
        let mut x: usize = 0;
        while x < card_side
            invariant
                card_side == lines@.len(),
                x <= card_side,
                tiles@.len() == x,
                forall|i: int| 0 <= i < x ==> (#[trigger] tiles@[i])@.len() == card_side,
                forall|i: int, j: int|
                    0 <= i < x && 0 <= j < card_side ==> (#[trigger] tiles@[i]@[j])@ == fresh_tile(
                        drawn_type(view_lines(lines@), i, j),
                        "empty"@,
                    ),
            decreases card_side - x,
        {
            let mut column: Vec<Tile> = Vec::with_capacity(card_side);
            let mut y: usize = 0;
            while y < card_side
                invariant
                    card_side == lines@.len(),
                    x < card_side,
                    y <= card_side,
                    column@.len() == y,
                    forall|j: int|
                        0 <= j < y ==> (#[trigger] column@[j])@ == fresh_tile(
                            drawn_type(view_lines(lines@), x as int, j),
                            "empty"@,
                        ),
                decreases card_side - y,
            {
                let floor = x < lines[y].len() && lines[y][x] == '_';
                assert(view_lines(lines@)[y as int] == lines@[y as int]@);
                let tile_type = if floor {
                    TileType::Floor
                } else {
                    TileType::Wall
                };
                match Tile::with_text(tile_type, String::from_str("empty")) {
                    Some(tile) => column.push(tile),
                    None => {},
                }
                y += 1;
            }
            tiles.push(column);
            x += 1;
        }
        let card = Card { tiles };
        proof {
            let shown = view_lines(lines@);
            assert(card@.len() == shown.len());
            assert forall|x: int| 0 <= x < card@.len() implies (#[trigger] card@[x]).len()
                == card@.len() by {
                assert(card.tiles@[x]@.len() == card_side);
            }
            assert forall|x: int, y: int|
                0 <= x < card@.len() && 0 <= y < card@.len() implies #[trigger] card@[x][y]
                == fresh_tile(drawn_type(shown, x, y), "empty"@) by {
                assert(card.tiles@[x]@.len() == card_side);
                assert(card.tiles@[x]@[y]@ == fresh_tile(drawn_type(shown, x, y), "empty"@));
            }
        }
        Ok(card)
    }
}

/// Lines of characters as sequences.
pub open spec fn view_lines(lines: Seq<Vec<char>>) -> Seq<Seq<char>> {
    Seq::new(lines.len(), |y: int| lines[y]@)
}

/// Splits a text into its lines.
pub fn split_lines(text: &str) -> (lines: Vec<Vec<char>>)
    ensures
        view_lines(lines@) == text_lines(text@),
{
    let mut lines: Vec<Vec<char>> = Vec::new();
    let mut pending: Vec<char> = Vec::new();
    let length = text.unicode_len();
    let mut at: usize = 0;
    assert(text@.skip(0) == text@);
    assert(view_lines(lines@) + text_lines(text@) == text_lines(text@));
    while at < length
        invariant
            length == text@.len(),
            at <= length,
            text_lines(text@) == view_lines(lines@) + lines_after(pending@, text@.skip(at as int)),
        decreases length - at,
    {
        let c = text.get_char(at);
        let ghost rest = text@.skip(at as int);
        let ghost before = view_lines(lines@);
        let ghost held = pending@;
        assert(rest[0] == c);
        assert(rest.drop_first() == text@.skip(at + 1));
        if c == '\n' {
            if pending.len() > 0 && pending[pending.len() - 1] == '\r' {
                pending.pop();
            }
            lines.push(pending);
            pending = Vec::new();
            assert(view_lines(lines@) == before + seq![without_return(held)]);
            assert(pending@ == Seq::<char>::empty());
        } else {
            pending.push(c);
        }
        at += 1;
    }
    let ghost before = view_lines(lines@);
    assert(text@.skip(at as int).len() == 0);
    if pending.len() > 0 {
        let ghost held = pending@;
        lines.push(pending);
        assert(view_lines(lines@) == before + seq![held]);
    } else {
        assert(before + Seq::<Seq<char>>::empty() == before);
    }
    lines
}

} // verus!
