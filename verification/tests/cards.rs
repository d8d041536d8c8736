use sevend::card::{split_lines, Card};
use sevend::field::{blank_wall, deal_field, generate_field, generate_map};
use sevend::tile::{EndType, Tile, TileType};

use rand::{SeedableRng, StdRng};

fn seeded_for_cards(seed: usize) -> StdRng {
    let seed_words = [seed, 7, 11, 13];
    SeedableRng::from_seed(&seed_words[..])
}

fn card_of(definition: &str) -> Card {
    Card::new(definition).expect("the definition is square")
}

#[test]
fn lines_end_at_line_feeds() {
    let lines = split_lines("ab\ncd\n");
    assert_eq!(lines, vec![vec!['a', 'b'], vec!['c', 'd']]);
}

#[test]
fn last_line_needs_no_line_feed() {
    let lines = split_lines("ab\ncd");
    assert_eq!(lines, vec![vec!['a', 'b'], vec!['c', 'd']]);
}

#[test]
fn carriage_return_before_line_feed_is_dropped() {
    let lines = split_lines("ab\r\ncd\r\n");
    assert_eq!(lines, vec![vec!['a', 'b'], vec!['c', 'd']]);
}

#[test]
fn carriage_return_at_the_very_end_stays() {
    let lines = split_lines("ab\ncd\r");
    assert_eq!(lines, vec![vec!['a', 'b'], vec!['c', 'd', '\r']]);
}

#[test]
fn empty_lines_are_lines() {
    let lines = split_lines("\n\nx");
    assert_eq!(lines, vec![vec![], vec![], vec!['x']]);
    assert_eq!(split_lines("").len(), 0);
}

#[test]
fn lines_agree_with_the_standard_library() {
    for text in ["", "\n", "a", "a\n", "a\r\n", "a\r", "\r\n\r\n", "_#_\n###\n_#_", "x\r\r\ny"] {
        let expected: Vec<Vec<char>> = text.lines().map(|line| line.chars().collect()).collect();
        assert_eq!(split_lines(text), expected);
    }
}

#[test]
fn card_reads_floor_and_wall() {
    let card = card_of("_#\n#_");
    assert_eq!(card.side(), 2);
    assert_eq!(card.tile(0, 0).ttype, TileType::Floor);
    assert_eq!(card.tile(1, 0).ttype, TileType::Wall);
    assert_eq!(card.tile(0, 1).ttype, TileType::Wall);
    assert_eq!(card.tile(1, 1).ttype, TileType::Floor);
}

#[test]
fn card_columns_come_first() {
    // Line 0 is "_##": only column 0 of row 0 is floor.
    let card = card_of("_##\n###\n###");
    assert_eq!(card.tile(0, 0).ttype, TileType::Floor);
    assert_eq!(card.tile(1, 0).ttype, TileType::Wall);
    assert_eq!(card.tile(0, 1).ttype, TileType::Wall);
    // Line 2 is "##_" in this one: column 2 of row 2.
    let other = card_of("###\n###\n##_");
    assert_eq!(other.tile(2, 2).ttype, TileType::Floor);
    assert_eq!(other.tile(2, 0).ttype, TileType::Wall);
}

#[test]
fn card_tiles_are_fresh() {
    let card = card_of("_#\n__");
    let floor = card.tile(0, 0);
    assert!(floor.passable);
    assert!(!floor.visible);
    assert_eq!(floor.search_text, "empty");
    assert_eq!(floor.icon, "floor.png");
    let wall = card.tile(1, 0);
    assert!(!wall.passable);
    assert!(!wall.visible);
    assert_eq!(wall.search_text, "empty");
    assert_eq!(wall.icon, "wall.png");
}

#[test]
fn unknown_characters_are_wall() {
    let card = card_of("x?\n z");
    for x in 0..2 {
        for y in 0..2 {
            assert_eq!(card.tile(x, y).ttype, TileType::Wall);
        }
    }
}

#[test]
fn short_lines_are_filled_with_wall() {
    let card = card_of("_\n__");
    assert_eq!(card.side(), 2);
    assert_eq!(card.tile(0, 0).ttype, TileType::Floor);
    assert_eq!(card.tile(1, 0).ttype, TileType::Wall);
    assert_eq!(card.tile(0, 1).ttype, TileType::Floor);
    assert_eq!(card.tile(1, 1).ttype, TileType::Floor);
}

#[test]
fn long_line_is_refused() {
    assert!(Card::new("___\n_").is_err());
    assert!(Card::new("__").is_err());
}

#[test]
fn empty_definition_is_an_empty_card() {
    let card = card_of("");
    assert_eq!(card.side(), 0);
}

#[test]
fn card_copy_has_the_same_tiles() {
    let card = card_of("_#_\n#_#\n___");
    let copy = card.duplicate();
    assert_eq!(copy.side(), 3);
    for x in 0..3 {
        for y in 0..3 {
            assert_eq!(copy.tile(x, y).ttype, card.tile(x, y).ttype);
            assert_eq!(copy.tile(x, y).passable, card.tile(x, y).passable);
            assert_eq!(copy.tile(x, y).icon, card.tile(x, y).icon);
        }
    }
}

#[test]
fn regular_tiles_follow_their_type() {
    let mut rng = seeded_for_cards(1);
    let none: Vec<String> = Vec::new();
    let floor = Tile::init_regular(TileType::Floor, &none, &mut rng).unwrap();
    assert_eq!(floor.ttype, TileType::Floor);
    assert!(floor.passable);
    assert_eq!(floor.icon, "floor.png");
    assert_eq!(floor.search_text, "empty");
    let wall = Tile::init_regular(TileType::Wall, &none, &mut rng).unwrap();
    assert!(!wall.passable);
    assert_eq!(wall.icon, "wall.png");
    assert_eq!(wall.search_text, "empty");
    assert!(Tile::init_regular(TileType::Curiosity, &none, &mut rng).is_none());
    assert!(Tile::with_text(TileType::Curiosity, String::from("x")).is_none());
}

#[test]
fn obstacle_carries_one_of_the_lines() {
    let mut rng = seeded_for_cards(2);
    let lines = vec![String::from("obstacle_rock"), String::from("obstacle_pit")];
    for _ in 0..20 {
        let tile = Tile::init_regular(TileType::Obstacle, &lines, &mut rng).unwrap();
        assert_eq!(tile.ttype, TileType::Obstacle);
        assert!(!tile.passable);
        assert!(!tile.visible);
        assert_eq!(tile.icon, "floor.png");
        assert!(lines.contains(&tile.search_text));
    }
}

#[test]
fn obstacle_without_lines_carries_no_text() {
    let mut rng = seeded_for_cards(3);
    let none: Vec<String> = Vec::new();
    let tile = Tile::init_regular(TileType::Obstacle, &none, &mut rng).unwrap();
    assert_eq!(tile.search_text, "");
}

#[test]
fn curio_tiles_are_named_after_their_kind() {
    let kinds = [
        (EndType::Children, "children"),
        (EndType::Body, "body"),
        (EndType::Lair, "lair"),
        (EndType::Item, "item"),
        (EndType::Rest, "rest"),
    ];
    for (kind, name) in kinds {
        assert_eq!(kind.name(), name);
        let tile = Tile::init_curio(kind).unwrap();
        assert_eq!(tile.ttype, TileType::Curiosity);
        assert!(tile.passable);
        assert!(!tile.visible);
        assert_eq!(tile.search_text, name);
        assert_eq!(tile.icon, "floor.png");
    }
}

#[test]
fn tile_copy_is_equal() {
    let tile = Tile::with_text(TileType::Obstacle, String::from("a rock")).unwrap();
    let copy = tile.duplicate();
    assert_eq!(copy.ttype, TileType::Obstacle);
    assert_eq!(copy.passable, tile.passable);
    assert_eq!(copy.visible, tile.visible);
    assert_eq!(copy.search_text, "a rock");
    assert_eq!(copy.icon, "floor.png");
}

#[test]
fn cards_are_dealt_from_the_end_column_by_column() {
    // Three cards that can be told apart by their corner.
    let first = card_of("_#\n##");
    let second = card_of("#_\n##");
    let third = card_of("##\n_#");
    let field = deal_field(vec![first, second, third], 2);
    assert_eq!(field.len(), 2);
    assert_eq!(field[0].len(), 2);
    assert_eq!(field[1].len(), 1);
    // Column 0 holds the last card, then the one before it.
    assert_eq!(field[0][0].tile(0, 1).ttype, TileType::Floor);
    assert_eq!(field[0][1].tile(1, 0).ttype, TileType::Floor);
    // Column 1 holds the first card.
    assert_eq!(field[1][0].tile(0, 0).ttype, TileType::Floor);
}

#[test]
fn dealing_more_cards_than_fit_leaves_the_first() {
    let pool = vec![card_of("_"), card_of("#"), card_of("#"), card_of("#"), card_of("#")];
    let field = deal_field(pool, 2);
    assert_eq!(field.len(), 2);
    assert_eq!(field[0].len(), 2);
    assert_eq!(field[1].len(), 2);
    for column in field.iter() {
        for card in column.iter() {
            assert_eq!(card.tile(0, 0).ttype, TileType::Wall);
        }
    }
}

#[test]
fn dealing_nothing_gives_empty_columns() {
    let field = deal_field(Vec::new(), 3);
    assert_eq!(field.len(), 3);
    for column in field.iter() {
        assert_eq!(column.len(), 0);
    }
    assert_eq!(deal_field(vec![card_of("_")], 0).len(), 0);
}

#[test]
fn field_is_a_reordering_of_the_pool() {
    let mut pool = Vec::new();
    for i in 0..9 {
        pool.push(card_of(if i < 4 { "_" } else { "#" }));
    }
    let mut rng = seeded_for_cards(4);
    let field = generate_field(&pool, 3, &mut rng);
    assert_eq!(field.len(), 3);
    let mut floors = 0;
    for column in field.iter() {
        assert_eq!(column.len(), 3);
        for card in column.iter() {
            if card.tile(0, 0).ttype == TileType::Floor {
                floors += 1;
            }
        }
    }
    assert_eq!(floors, 4);
    assert_eq!(pool.len(), 9);
}

#[test]
fn field_is_shuffled() {
    // Sixteen cards with the floor in a different place each.
    let mut pool = Vec::new();
    for i in 0..16 {
        let mut definition = String::new();
        for y in 0..4 {
            for x in 0..4 {
                definition.push(if y * 4 + x == i { '_' } else { '#' });
            }
            definition.push('\n');
        }
        pool.push(card_of(&definition));
    }
    let unshuffled = deal_field(pool.iter().map(|card| card.duplicate()).collect(), 4);
    let mut rng = seeded_for_cards(5);
    let field = generate_field(&pool, 4, &mut rng);
    let mut moved = 0;
    for fx in 0..4 {
        for fy in 0..4 {
            for x in 0..4 {
                for y in 0..4 {
                    if field[fx][fy].tile(x, y).ttype != unshuffled[fx][fy].tile(x, y).ttype {
                        moved += 1;
                    }
                }
            }
        }
    }
    assert!(moved > 0);
}

#[test]
fn field_is_flattened_cell_by_cell() {
    // field[0] = [a, b], field[1] = [c, d], each 2 by 2 with one floor tile.
    let a = card_of("_#\n##");
    let b = card_of("#_\n##");
    let c = card_of("##\n_#");
    let d = card_of("##\n#_");
    let field = vec![vec![a, b], vec![c, d]];
    let tiles = generate_map(&field);
    assert_eq!(tiles.len(), 4);
    for column in tiles.iter() {
        assert_eq!(column.len(), 4);
    }
    let mut floors = Vec::new();
    for x in 0..4 {
        for y in 0..4 {
            if tiles[x][y].ttype == TileType::Floor {
                floors.push((x, y));
            }
        }
    }
    // a at cell (0, 0) offset (0, 0); b at cell (0, 1) offset (1, 0);
    // c at cell (1, 0) offset (0, 1); d at cell (1, 1) offset (1, 1).
    assert_eq!(floors, vec![(0, 0), (1, 2), (2, 1), (3, 3)]);
}

#[test]
fn empty_cells_become_blank_walls() {
    let field = vec![vec![card_of("_"), card_of("_")], vec![card_of("_")]];
    let tiles = generate_map(&field);
    assert_eq!(tiles.len(), 2);
    assert_eq!(tiles[0][0].ttype, TileType::Floor);
    assert_eq!(tiles[0][1].ttype, TileType::Floor);
    assert_eq!(tiles[1][0].ttype, TileType::Floor);
    let blank = &tiles[1][1];
    assert_eq!(blank.ttype, TileType::Wall);
    assert!(!blank.passable);
    assert!(!blank.visible);
    assert_eq!(blank.search_text, "");
    assert_eq!(blank.icon, "wall.png");
    let wall = blank_wall();
    assert_eq!(wall.ttype, TileType::Wall);
    assert_eq!(wall.search_text, "");
}

#[test]
fn field_without_a_corner_card_gives_no_tiles() {
    let field: Vec<Vec<Card>> = vec![Vec::new(), Vec::new()];
    assert_eq!(generate_map(&field).len(), 0);
    let none: Vec<Vec<Card>> = Vec::new();
    assert_eq!(generate_map(&none).len(), 0);
}
