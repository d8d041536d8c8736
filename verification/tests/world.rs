use sevend::card::Card;
use sevend::field::{deal_field, generate_map};
use sevend::map::GameMap;
use sevend::objects::{
    key_action, shifted, Action, Event, EventCurioFound, EventObstacleFound, EventPlayerInDanger,
    EventPlayerMeetMonster, EventResourceFound, EventResourceGone, EventResourceRefill, Key,
    Kobold, Player, Resources,
};
use sevend::settings::Settings;
use sevend::tile::{EndType, Tile, TileType};

use rand::{SeedableRng, StdRng};

fn seeded_for_worlds(seed: usize) -> StdRng {
    let seed_words = [seed, 31, 37, 41];
    SeedableRng::from_seed(&seed_words[..])
}

fn world_of(definition: &str) -> GameMap {
    let card = Card::new(definition).expect("the definition is square");
    GameMap::from_tiles(generate_map(&deal_field(vec![card], 1)))
}

fn open_world(side: usize) -> GameMap {
    let mut definition = String::new();
    for _ in 0..side {
        for _ in 0..side {
            definition.push('_');
        }
        definition.push('\n');
    }
    world_of(&definition)
}

fn no_monster(map: &GameMap) -> Kobold {
    let kobold = Kobold::init(map, &Settings::new());
    assert!(!kobold.is_alive());
    kobold
}

fn monster_at(map: &mut GameMap, at: (usize, usize), danger: u8) -> Kobold {
    map.special_locations.lair = Some(at);
    let settings = Settings { kobold_danger_dist: Some(danger - 1), ..Settings::new() };
    let kobold = Kobold::init(map, &settings);
    map.special_locations.lair = None;
    kobold
}

fn no_resources() -> Resources {
    Resources::from_locations(Vec::new())
}

fn visible_cells(map: &GameMap) -> Vec<(usize, usize)> {
    let mut cells = Vec::new();
    for x in 0..map.tiles.len() {
        for y in 0..map.tiles[x].len() {
            if map.tiles[x][y].visible {
                cells.push((x, y));
            }
        }
    }
    cells
}

#[test]
fn player_starts_with_the_defaults() {
    let player = Player::init(3, 4, &Settings::new());
    assert_eq!(player.x, 3);
    assert_eq!(player.y, 4);
    assert_eq!(player.place(), (3, 4));
    assert_eq!(player.get_view_distance(), 5);
    assert_eq!(player.get_view_resource(), 10);
    assert_eq!(player.get_view_resource_max(), 10);
    assert_eq!(player.get_view_resource_count(), 3);
    assert!(!player.is_in_danger());
}

#[test]
fn player_starts_with_the_settings() {
    let settings = Settings {
        visible_distance: Some(7),
        visible_distance_danger: Some(1),
        resource_max: Some(20),
        resource_start: Some(0),
        ..Settings::new()
    };
    let player = Player::init(0, 0, &settings);
    assert_eq!(player.get_view_distance(), 7);
    assert_eq!(player.get_view_resource(), 20);
    assert_eq!(player.get_view_resource_max(), 20);
    assert_eq!(player.get_view_resource_count(), 0);
}

#[test]
fn settings_have_defaults() {
    let settings = Settings::new();
    assert_eq!(settings.view_distance(), 5);
    assert_eq!(settings.view_distance_danger(), 2);
    assert_eq!(settings.view_resource_max(), 10);
    assert_eq!(settings.view_resource_count(), 3);
    assert_eq!(settings.danger_distance(), 6);
    assert_eq!(settings.max_obstacles(), 6);
    assert_eq!(settings.tries_max(), 100);
    assert_eq!(settings.cards_map_side(), 3);
    assert_eq!(settings.time_max(), 3);
}

#[test]
fn settings_give_what_was_set() {
    let settings = Settings {
        visible_distance: Some(1),
        visible_distance_danger: Some(2),
        resource_max: Some(3),
        resource_start: Some(4),
        resource_distance: Some(5),
        kobold_danger_dist: Some(6),
        obstacle_max: Some(7),
        map_max_tries: Some(8),
        field_side: Some(9),
        textline_time_max: Some(10),
    };
    assert_eq!(settings.view_distance(), 1);
    assert_eq!(settings.view_distance_danger(), 2);
    assert_eq!(settings.view_resource_max(), 3);
    assert_eq!(settings.view_resource_count(), 4);
    assert_eq!(settings.danger_distance(), 7);
    assert_eq!(settings.max_obstacles(), 7);
    assert_eq!(settings.tries_max(), 8);
    assert_eq!(settings.cards_map_side(), 9);
    assert_eq!(settings.time_max(), 10);
    let far = Settings { kobold_danger_dist: Some(255), ..Settings::new() };
    assert_eq!(far.danger_distance(), 255);
    let near = Settings { kobold_danger_dist: Some(0), ..Settings::new() };
    assert_eq!(near.danger_distance(), 1);
}

#[test]
fn fuel_burns_down_to_nothing() {
    let settings = Settings { resource_max: Some(2), ..Settings::new() };
    let mut player = Player::init(0, 0, &settings);
    assert_eq!(player.get_view_resource(), 2);
    player.drain_view_resource();
    assert_eq!(player.get_view_resource(), 1);
    assert_eq!(player.get_view_distance(), 5);
    player.drain_view_resource();
    assert_eq!(player.get_view_resource(), 0);
    assert_eq!(player.get_view_distance(), 0);
    player.drain_view_resource();
    assert_eq!(player.get_view_resource(), 0);
    assert_eq!(player.get_view_distance(), 0);
}

#[test]
fn refill_takes_from_the_stock() {
    let settings = Settings { resource_max: Some(4), resource_start: Some(2), ..Settings::new() };
    let mut player = Player::init(0, 0, &settings);
    player.drain_view_resource();
    player.drain_view_resource();
    assert_eq!(player.refill_view_resource(), Ok(()));
    assert_eq!(player.get_view_resource(), 4);
    assert_eq!(player.get_view_resource_count(), 1);
    assert_eq!(player.refill_view_resource(), Ok(()));
    assert_eq!(player.get_view_resource_count(), 0);
    player.drain_view_resource();
    assert_eq!(player.refill_view_resource(), Err(()));
    assert_eq!(player.get_view_resource(), 3);
    assert_eq!(player.get_view_resource_count(), 0);
}

#[test]
fn refill_without_stock_changes_nothing() {
    let settings = Settings { resource_start: Some(0), ..Settings::new() };
    let mut player = Player::init(1, 1, &settings);
    player.drain_view_resource();
    let map = open_world(3);
    let monster = no_monster(&map);
    let mut events = Vec::new();
    assert_eq!(player.refill_view_resource(), Err(()));
    assert_eq!(player.get_view_resource(), 9);
    let updated = player.update(&Key::R, &map, &monster, &no_resources(), &mut events);
    assert!(updated);
    assert_eq!(events, vec![Event::RefillResult(EventResourceRefill { success: false })]);
    assert_eq!(player.get_view_resource(), 9);
    assert_eq!(player.get_view_resource_count(), 0);
    assert_eq!(player.place(), (1, 1));
}

#[test]
fn refill_with_stock_is_an_event_too() {
    let mut player = Player::init(1, 1, &Settings::new());
    player.drain_view_resource();
    let map = open_world(3);
    let monster = no_monster(&map);
    let mut events = Vec::new();
    assert!(player.update(&Key::R, &map, &monster, &no_resources(), &mut events));
    assert_eq!(events, vec![Event::RefillResult(EventResourceRefill { success: true })]);
    assert_eq!(player.get_view_resource(), 10);
    assert_eq!(player.get_view_resource_count(), 2);
}

#[test]
fn the_stock_of_refills_stops_at_255() {
    let settings = Settings { resource_start: Some(254), ..Settings::new() };
    let mut player = Player::init(0, 0, &settings);
    player.add_view_resource_count();
    assert_eq!(player.get_view_resource_count(), 255);
    player.add_view_resource_count();
    assert_eq!(player.get_view_resource_count(), 255);
}

#[test]
fn danger_shortens_the_view() {
    let mut map = open_world(5);
    let monster = monster_at(&mut map, (2, 3), 3);
    let mut player = Player::init(2, 2, &Settings::new());
    let mut events = Vec::new();
    player.update(&Key::R, &map, &monster, &no_resources(), &mut events);
    assert!(player.is_in_danger());
    assert_eq!(player.get_view_distance(), 2);
    let settings = Settings { resource_max: Some(0), ..Settings::new() };
    let mut dark = Player::init(2, 2, &settings);
    dark.update(&Key::R, &map, &monster, &no_resources(), &mut events);
    assert_eq!(dark.get_view_resource(), 0);
    assert_eq!(dark.get_view_distance(), 0);
}

#[test]
fn keys_stand_for_actions() {
    for key in [Key::Up, Key::Kp8, Key::Num8] {
        assert_eq!(key_action(&key), Some(Action::Step(0, -1)));
    }
    for key in [Key::Down, Key::Kp2, Key::Num2] {
        assert_eq!(key_action(&key), Some(Action::Step(0, 1)));
    }
    for key in [Key::Left, Key::Kp4, Key::Num4] {
        assert_eq!(key_action(&key), Some(Action::Step(-1, 0)));
    }
    for key in [Key::Right, Key::Kp6, Key::Num6] {
        assert_eq!(key_action(&key), Some(Action::Step(1, 0)));
    }
    for key in [Key::Kp1, Key::Num1] {
        assert_eq!(key_action(&key), Some(Action::Step(-1, 1)));
    }
    for key in [Key::Kp3, Key::Num3] {
        assert_eq!(key_action(&key), Some(Action::Step(1, 1)));
    }
    for key in [Key::Kp7, Key::Num7] {
        assert_eq!(key_action(&key), Some(Action::Step(-1, -1)));
    }
    for key in [Key::Kp9, Key::Num9] {
        assert_eq!(key_action(&key), Some(Action::Step(1, -1)));
    }
    assert_eq!(key_action(&Key::R), Some(Action::Refill));
    assert_eq!(key_action(&Key::Other), None);
}

#[test]
fn coordinates_are_shifted_within_the_map() {
    assert_eq!(shifted(3, 1, 9), 4);
    assert_eq!(shifted(3, -1, 9), 2);
    assert_eq!(shifted(3, 0, 9), 3);
    assert_eq!(shifted(0, -1, 9), 0);
    assert_eq!(shifted(8, 1, 9), 8);
    assert_eq!(shifted(8, 5, 9), 8);
    assert_eq!(shifted(2, -7, 9), 0);
    assert_eq!(shifted(20, -1, 9), 8);
    assert_eq!(shifted(20, 1, 9), 8);
    assert_eq!(shifted(20, -15, 9), 5);
    assert_eq!(shifted(0, 0, 1), 0);
    assert_eq!(shifted(usize::MAX, isize::MAX, 9), 8);
    assert_eq!(shifted(usize::MAX, isize::MIN, 9), 8);
    assert_eq!(shifted(5, isize::MIN, 9), 0);
    assert_eq!(shifted(0, isize::MAX, 9), 8);
}

#[test]
fn moves_stay_in_the_map() {
    let map = open_world(4);
    for x in 0..4usize {
        for y in 0..4usize {
            for x_mod in -1..2isize {
                for y_mod in -1..2isize {
                    let mut player = Player::init(x, y, &Settings::new());
                    let moved = player.move_relative(x_mod, y_mod, &map);
                    assert_eq!(moved, Ok(()));
                    assert!(player.x < 4);
                    assert!(player.y < 4);
                    let to_x = (x as isize + x_mod).max(0).min(3) as usize;
                    let to_y = (y as isize + y_mod).max(0).min(3) as usize;
                    assert_eq!(player.place(), (to_x, to_y));
                }
            }
        }
    }
}

#[test]
fn a_move_from_outside_leads_into_the_map() {
    let map = open_world(4);
    let mut player = Player::init(100, 100, &Settings::new());
    assert_eq!(player.move_relative(0, -1, &map), Ok(()));
    assert_eq!(player.place(), (3, 3));
}

#[test]
fn a_blocked_move_from_outside_stays_outside() {
    let map = world_of("___\n___\n__#");
    let mut player = Player::init(100, 100, &Settings::new());
    assert_eq!(player.move_relative(0, -1, &map), Err((2, 2)));
    assert_eq!(player.place(), (100, 100));
}

#[test]
fn a_blocked_move_names_the_cell_in_the_way() {
    let map = world_of("_#_\n___\n___");
    let mut player = Player::init(0, 0, &Settings::new());
    assert_eq!(player.move_relative(1, 0, &map), Err((1, 0)));
    assert_eq!(player.place(), (0, 0));
    assert_eq!(player.move_relative(1, 1, &map), Ok(()));
    assert_eq!(player.place(), (1, 1));
    assert_eq!(player.move_relative(0, -1, &map), Err((1, 0)));
    assert_eq!(player.place(), (1, 1));
    assert_eq!(player.get_view_resource(), 10);
}

#[test]
fn a_step_burns_fuel() {
    let map = open_world(3);
    let monster = no_monster(&map);
    let mut player = Player::init(1, 1, &Settings::new());
    let mut events = Vec::new();
    assert!(player.update(&Key::Right, &map, &monster, &no_resources(), &mut events));
    assert_eq!(player.place(), (2, 1));
    assert_eq!(player.get_view_resource(), 9);
    assert!(player.update(&Key::Kp7, &map, &monster, &no_resources(), &mut events));
    assert_eq!(player.place(), (1, 0));
    assert_eq!(player.get_view_resource(), 8);
    assert!(player.update(&Key::Num2, &map, &monster, &no_resources(), &mut events));
    assert_eq!(player.place(), (1, 1));
    assert!(player.update(&Key::Kp1, &map, &monster, &no_resources(), &mut events));
    assert_eq!(player.place(), (0, 2));
    assert!(player.update(&Key::Num9, &map, &monster, &no_resources(), &mut events));
    assert_eq!(player.place(), (1, 1));
    assert!(player.update(&Key::Kp3, &map, &monster, &no_resources(), &mut events));
    assert_eq!(player.place(), (2, 2));
    assert!(player.update(&Key::Up, &map, &monster, &no_resources(), &mut events));
    assert_eq!(player.place(), (2, 1));
    assert!(player.update(&Key::Left, &map, &monster, &no_resources(), &mut events));
    assert_eq!(player.place(), (1, 1));
    assert!(player.update(&Key::Down, &map, &monster, &no_resources(), &mut events));
    assert_eq!(player.place(), (1, 2));
    assert_eq!(player.get_view_resource(), 1);
    assert_eq!(events, vec![]);
}

#[test]
fn a_step_against_a_wall_is_nothing() {
    let map = world_of("_#_\n___\n___");
    let monster = no_monster(&map);
    let mut player = Player::init(0, 0, &Settings::new());
    let mut events = Vec::new();
    assert!(!player.update(&Key::Right, &map, &monster, &no_resources(), &mut events));
    assert_eq!(player.place(), (0, 0));
    assert_eq!(player.get_view_resource(), 10);
    assert_eq!(events, vec![]);
}

#[test]
fn a_step_against_the_edge_is_nothing() {
    let map = open_world(3);
    let monster = no_monster(&map);
    let mut player = Player::init(0, 2, &Settings::new());
    let mut events = Vec::new();
    assert!(!player.update(&Key::Left, &map, &monster, &no_resources(), &mut events));
    assert!(!player.update(&Key::Down, &map, &monster, &no_resources(), &mut events));
    assert!(!player.update(&Key::Kp1, &map, &monster, &no_resources(), &mut events));
    assert_eq!(player.place(), (0, 2));
    assert_eq!(player.get_view_resource(), 10);
    assert_eq!(events, vec![]);
    // Along the edge the step goes as far as the map does.
    assert!(player.update(&Key::Kp7, &map, &monster, &no_resources(), &mut events));
    assert_eq!(player.place(), (0, 1));
    assert_eq!(player.get_view_resource(), 9);
}

#[test]
fn another_key_is_nothing() {
    let mut map = open_world(3);
    let monster = monster_at(&mut map, (1, 1), 3);
    let mut player = Player::init(1, 1, &Settings::new());
    let resources = Resources::from_locations(vec![(1, 1)]);
    let mut events = Vec::new();
    assert!(!player.update(&Key::Other, &map, &monster, &resources, &mut events));
    assert_eq!(events, vec![]);
    assert!(!player.is_in_danger());
    assert_eq!(player.get_view_resource(), 10);
}

#[test]
fn an_obstacle_in_the_way_is_an_event() {
    let mut map = open_world(3);
    map.put_tile(1, 0, Tile::with_text(TileType::Obstacle, String::from("obstacle_rock")).unwrap());
    let monster = no_monster(&map);
    let mut player = Player::init(0, 0, &Settings::new());
    let mut events = Vec::new();
    assert!(player.update(&Key::Right, &map, &monster, &no_resources(), &mut events));
    assert_eq!(player.place(), (0, 0));
    assert_eq!(player.get_view_resource(), 10);
    assert_eq!(
        events,
        vec![Event::ObstacleFound(EventObstacleFound { text: String::from("obstacle_rock") })]
    );
}

#[test]
fn a_curio_underfoot_is_an_event() {
    let mut map = open_world(3);
    map.put_tile(1, 0, Tile::init_curio(EndType::Item).unwrap());
    let monster = no_monster(&map);
    let mut player = Player::init(0, 0, &Settings::new());
    let mut events = Vec::new();
    assert!(player.update(&Key::Right, &map, &monster, &no_resources(), &mut events));
    assert_eq!(player.place(), (1, 0));
    assert_eq!(events, vec![Event::CurioFound(EventCurioFound { scene: String::from("item") })]);
    // Held back by the edge, the player finds nothing anew.
    events.clear();
    assert!(!player.update(&Key::Up, &map, &monster, &no_resources(), &mut events));
    assert_eq!(events, vec![]);
}

#[test]
fn a_near_monster_is_a_danger() {
    let mut map = open_world(5);
    let monster = monster_at(&mut map, (0, 1), 3);
    assert!(monster.is_alive());
    assert_eq!(monster.get_danger_distance(), 3);
    assert_eq!(monster.place(), (0, 1));
    let mut player = Player::init(0, 0, &Settings::new());
    assert_eq!(map.get_path_distance(&player.place(), &monster.place()), Some(1));
    let mut events = Vec::new();
    assert!(player.update(&Key::R, &map, &monster, &no_resources(), &mut events));
    assert!(player.is_in_danger());
    assert_eq!(
        events,
        vec![
            Event::RefillResult(EventResourceRefill { success: true }),
            Event::PlayerInDanger(EventPlayerInDanger {}),
        ]
    );
}

#[test]
fn a_step_towards_the_monster_brings_danger() {
    let mut map = open_world(7);
    let monster = monster_at(&mut map, (6, 3), 3);
    let mut player = Player::init(2, 3, &Settings::new());
    let mut events = Vec::new();
    assert!(player.update(&Key::Right, &map, &monster, &no_resources(), &mut events));
    assert!(!player.is_in_danger());
    assert_eq!(events, vec![]);
    assert!(player.update(&Key::Right, &map, &monster, &no_resources(), &mut events));
    assert_eq!(player.place(), (4, 3));
    assert!(player.is_in_danger());
    assert_eq!(events, vec![Event::PlayerInDanger(EventPlayerInDanger {})]);
    events.clear();
    assert!(player.update(&Key::Left, &map, &monster, &no_resources(), &mut events));
    assert!(!player.is_in_danger());
    assert_eq!(events, vec![]);
}

#[test]
fn a_monster_behind_a_wall_is_no_danger() {
    let mut map = world_of("_#_\n_#_\n_#_");
    let monster = monster_at(&mut map, (2, 1), 5);
    let mut player = Player::init(0, 1, &Settings::new());
    let mut events = Vec::new();
    assert!(player.update(&Key::Up, &map, &monster, &no_resources(), &mut events));
    assert!(!player.is_in_danger());
    assert_eq!(events, vec![]);
}

#[test]
fn a_dead_monster_is_no_danger() {
    let mut map = open_world(3);
    let mut monster = monster_at(&mut map, (1, 1), 5);
    monster.die();
    assert!(!monster.is_alive());
    let mut player = Player::init(0, 1, &Settings::new());
    let mut events = Vec::new();
    assert!(player.update(&Key::Right, &map, &monster, &no_resources(), &mut events));
    assert_eq!(player.place(), (1, 1));
    assert!(!player.is_in_danger());
    assert_eq!(events, vec![]);
}

#[test]
fn meeting_the_monster_is_an_event() {
    let mut map = open_world(3);
    let monster = monster_at(&mut map, (1, 1), 3);
    let mut player = Player::init(0, 1, &Settings::new());
    let mut events = Vec::new();
    assert!(player.update(&Key::Right, &map, &monster, &no_resources(), &mut events));
    assert!(player.is_in_danger());
    assert_eq!(
        events,
        vec![
            Event::PlayerInDanger(EventPlayerInDanger {}),
            Event::PlayerMeetMonster(EventPlayerMeetMonster {}),
        ]
    );
}

#[test]
fn on_the_cell_of_the_monster_there_is_danger() {
    for danger in [1u8, 2, 6, 255] {
        let mut map = world_of("_#_\n###\n___");
        let monster = monster_at(&mut map, (0, 0), danger);
        let mut player = Player::init(0, 0, &Settings::new());
        assert_eq!(map.get_path_distance(&player.place(), &monster.place()), Some(0));
        let mut events = Vec::new();
        assert!(player.update(&Key::R, &map, &monster, &no_resources(), &mut events));
        assert!(player.is_in_danger());
        assert_eq!(
            events,
            vec![
                Event::RefillResult(EventResourceRefill { success: true }),
                Event::PlayerInDanger(EventPlayerInDanger {}),
                Event::PlayerMeetMonster(EventPlayerMeetMonster {}),
            ]
        );
    }
}

#[test]
fn leaving_the_monster_ends_the_danger() {
    let mut map = open_world(3);
    // With the least danger distance, 1, only the monster's own cell is dangerous.
    let monster = monster_at(&mut map, (1, 1), 1);
    let mut player = Player::init(0, 1, &Settings::new());
    let mut events = Vec::new();
    assert!(player.update(&Key::Right, &map, &monster, &no_resources(), &mut events));
    assert!(player.is_in_danger());
    events.clear();
    assert!(player.update(&Key::Left, &map, &monster, &no_resources(), &mut events));
    assert!(!player.is_in_danger());
    assert_eq!(events, vec![]);
}

#[test]
fn each_resource_underfoot_is_found() {
    let map = open_world(3);
    let monster = no_monster(&map);
    let resources = Resources::from_locations(vec![(1, 1), (2, 2), (1, 1), (0, 1)]);
    let mut player = Player::init(0, 1, &Settings::new());
    let mut events = Vec::new();
    assert!(player.update(&Key::Right, &map, &monster, &resources, &mut events));
    assert_eq!(
        events,
        vec![
            Event::ResourceFound(EventResourceFound { index: 0 }),
            Event::ResourceFound(EventResourceFound { index: 2 }),
        ]
    );
    events.clear();
    assert!(player.update(&Key::Right, &map, &monster, &resources, &mut events));
    assert_eq!(events, vec![]);
    assert!(player.update(&Key::Down, &map, &monster, &resources, &mut events));
    assert_eq!(events, vec![Event::ResourceFound(EventResourceFound { index: 1 })]);
}

#[test]
fn a_found_resource_leaves_the_list() {
    let mut resources = Resources::from_locations(vec![(1, 1), (2, 2), (3, 3)]);
    assert_eq!(resources.len(), 3);
    resources.process_event(&EventResourceFound { index: 1 });
    assert_eq!(resources.len(), 2);
    assert_eq!(resources.location(0), (1, 1));
    assert_eq!(resources.location(1), (3, 3));
    resources.process_event(&EventResourceFound { index: 0 });
    assert_eq!(resources.len(), 1);
    assert_eq!(resources.location(0), (3, 3));
}

#[test]
fn the_last_fuel_running_out_is_an_event() {
    let map = open_world(3);
    let monster = no_monster(&map);
    let settings = Settings { resource_max: Some(2), ..Settings::new() };
    let mut player = Player::init(0, 0, &settings);
    let mut events = Vec::new();
    assert!(player.update(&Key::Right, &map, &monster, &no_resources(), &mut events));
    assert_eq!(events, vec![]);
    assert!(player.update(&Key::Right, &map, &monster, &no_resources(), &mut events));
    assert_eq!(events, vec![Event::ResourceGone(EventResourceGone {})]);
    assert_eq!(player.get_view_resource(), 0);
    assert_eq!(player.get_view_distance(), 0);
    events.clear();
    assert!(player.update(&Key::Down, &map, &monster, &no_resources(), &mut events));
    assert_eq!(events, vec![]);
    assert_eq!(player.get_view_resource(), 0);
}

#[test]
fn events_come_in_a_fixed_order() {
    let mut map = open_world(3);
    map.put_tile(1, 1, Tile::init_curio(EndType::Lair).unwrap());
    let monster = monster_at(&mut map, (1, 1), 2);
    let resources = Resources::from_locations(vec![(1, 1)]);
    let settings = Settings { resource_max: Some(1), ..Settings::new() };
    let mut player = Player::init(0, 0, &settings);
    let mut events = vec![Event::ResourceGone(EventResourceGone {})];
    assert!(player.update(&Key::Kp3, &map, &monster, &resources, &mut events));
    assert_eq!(
        events,
        vec![
            Event::ResourceGone(EventResourceGone {}),
            Event::CurioFound(EventCurioFound { scene: String::from("lair") }),
            Event::PlayerInDanger(EventPlayerInDanger {}),
            Event::PlayerMeetMonster(EventPlayerMeetMonster {}),
            Event::ResourceFound(EventResourceFound { index: 0 }),
            Event::ResourceGone(EventResourceGone {}),
        ]
    );
}

#[test]
fn an_action_and_the_reactions_can_be_had_apart() {
    let mut map = open_world(3);
    let monster = monster_at(&mut map, (2, 2), 4);
    let resources = Resources::from_locations(vec![(1, 0)]);
    let mut player = Player::init(0, 0, &Settings::new());
    let mut events = Vec::new();
    assert!(player.act(Action::Step(1, 0), &map, &mut events));
    assert_eq!(player.place(), (1, 0));
    assert_eq!(events, vec![]);
    player.observe(10, &map, &monster, &resources, Some(3), &mut events);
    assert!(player.is_in_danger());
    assert_eq!(
        events,
        vec![
            Event::PlayerInDanger(EventPlayerInDanger {}),
            Event::ResourceFound(EventResourceFound { index: 0 }),
        ]
    );
    events.clear();
    player.observe(10, &map, &monster, &resources, Some(4), &mut events);
    assert!(!player.is_in_danger());
    assert_eq!(events, vec![Event::ResourceFound(EventResourceFound { index: 0 })]);
    events.clear();
    player.observe(10, &map, &monster, &no_resources(), None, &mut events);
    assert!(!player.is_in_danger());
    assert_eq!(events, vec![]);
    assert!(!player.act(Action::Step(0, 0), &map, &mut events));
    assert!(player.act(Action::Refill, &map, &mut events));
    assert_eq!(events, vec![Event::RefillResult(EventResourceRefill { success: true })]);
}

#[test]
fn a_far_monster_is_no_danger_whatever_the_path() {
    let mut map = open_world(9);
    let monster = monster_at(&mut map, (8, 8), 3);
    let mut player = Player::init(0, 0, &Settings::new());
    let mut events = Vec::new();
    player.observe(10, &map, &monster, &no_resources(), Some(1), &mut events);
    assert!(!player.is_in_danger());
    assert_eq!(events, vec![]);
}

#[test]
fn the_monster_starts_in_its_lair() {
    let mut map = open_world(4);
    map.special_locations.lair = Some((3, 2));
    let monster = Kobold::init(&map, &Settings::new());
    assert!(monster.is_alive());
    assert_eq!(monster.x, 3);
    assert_eq!(monster.y, 2);
    assert_eq!(monster.get_danger_distance(), 6);
}

#[test]
fn without_a_lair_the_monster_is_dead() {
    let map = open_world(4);
    let monster = Kobold::init(&map, &Settings::new());
    assert!(!monster.is_alive());
    assert_eq!(monster.place(), (0, 0));
}

#[test]
fn the_monster_moves_to_a_cell_next_to_it() {
    let mut map = world_of("_#_\n___\n#__");
    for seed in 0..30 {
        let mut rng = seeded_for_worlds(seed);
        let mut monster = monster_at(&mut map, (1, 1), 3);
        monster.update(&map, &mut rng);
        let at = monster.place();
        assert_ne!(at, (1, 1));
        assert!(at.0 < 3 && at.1 < 3);
        assert!(map.tiles[at.0][at.1].passable);
        assert!(monster.is_alive());
        assert_eq!(monster.get_danger_distance(), 3);
    }
}

#[test]
fn the_monster_gets_around() {
    let mut map = open_world(3);
    let mut seen = Vec::new();
    for seed in 0..40 {
        let mut rng = seeded_for_worlds(100 + seed);
        let mut monster = monster_at(&mut map, (1, 1), 3);
        monster.update(&map, &mut rng);
        if !seen.contains(&monster.place()) {
            seen.push(monster.place());
        }
    }
    assert!(seen.len() > 1);
}

#[test]
fn a_walled_in_monster_stays() {
    let mut map = world_of("###\n#_#\n###");
    let mut rng = seeded_for_worlds(1);
    let mut monster = monster_at(&mut map, (1, 1), 3);
    monster.update(&map, &mut rng);
    assert_eq!(monster.place(), (1, 1));
    let mut single = open_world(1);
    let mut alone = monster_at(&mut single, (0, 0), 3);
    alone.update(&single, &mut rng);
    assert_eq!(alone.place(), (0, 0));
}

#[test]
fn a_dead_monster_stays() {
    let mut map = open_world(3);
    let mut rng = seeded_for_worlds(2);
    let mut monster = monster_at(&mut map, (1, 1), 3);
    monster.die();
    monster.update(&map, &mut rng);
    assert_eq!(monster.place(), (1, 1));
    assert!(!monster.is_alive());
}

#[test]
fn the_monster_goes_where_the_draw_falls() {
    let mut map = open_world(3);
    let mut monster = monster_at(&mut map, (1, 1), 3);
    let step = ((2, 0), 1);
    monster.step_to(Some(&step));
    assert_eq!(monster.place(), (2, 0));
    monster.step_to(None);
    assert_eq!(monster.place(), (2, 0));
}

#[test]
fn each_section_gives_a_resource() {
    let map = open_world(4);
    let settings = Settings { resource_distance: Some(2), ..Settings::new() };
    let player = Player::init(0, 0, &settings);
    for seed in 0..20 {
        let mut rng = seeded_for_worlds(200 + seed);
        let resources = Resources::init(&map, &player, &settings, &mut rng);
        assert_eq!(resources.len(), 4);
        let sections: Vec<(usize, usize)> =
            (0..4).map(|i| resources.location(i)).map(|at| (at.0 / 2, at.1 / 2)).collect();
        assert_eq!(sections, vec![(0, 0), (0, 1), (1, 0), (1, 1)]);
    }
}

#[test]
fn sections_at_the_far_edges_are_narrower() {
    let map = open_world(5);
    let settings = Settings { resource_distance: Some(3), ..Settings::new() };
    let player = Player::init(0, 0, &settings);
    let mut rng = seeded_for_worlds(3);
    let resources = Resources::init(&map, &player, &settings, &mut rng);
    assert_eq!(resources.len(), 4);
    let last = resources.location(3);
    assert!(last.0 >= 3 && last.0 < 5 && last.1 >= 3 && last.1 < 5);
}

#[test]
fn resources_lie_on_cells_that_can_be_entered() {
    let map = world_of("_###\n####\n##__\n##_#");
    let settings = Settings { resource_distance: Some(2), ..Settings::new() };
    let player = Player::init(0, 0, &settings);
    for seed in 0..20 {
        let mut rng = seeded_for_worlds(300 + seed);
        let resources = Resources::init(&map, &player, &settings, &mut rng);
        assert_eq!(resources.len(), 2);
        assert_eq!(resources.location(0), (0, 0));
        let second = resources.location(1);
        assert!(second == (2, 2) || second == (3, 2) || second == (2, 3));
    }
}

#[test]
fn by_default_sections_are_as_wide_as_a_lamp_lasts() {
    let map = open_world(6);
    let settings = Settings { resource_max: Some(3), ..Settings::new() };
    let player = Player::init(0, 0, &settings);
    let mut rng = seeded_for_worlds(4);
    let resources = Resources::init(&map, &player, &settings, &mut rng);
    assert_eq!(resources.len(), 4);
    let wide = Settings::new();
    let lamp = Player::init(0, 0, &wide);
    let one = Resources::init(&map, &lamp, &wide, &mut rng);
    assert_eq!(one.len(), 1);
}

#[test]
fn resources_are_drawn_at_random() {
    let map = open_world(6);
    let settings = Settings::new();
    let player = Player::init(0, 0, &settings);
    let mut seen = Vec::new();
    for seed in 0..30 {
        let mut rng = seeded_for_worlds(400 + seed);
        let resources = Resources::init(&map, &player, &settings, &mut rng);
        if !seen.contains(&resources.location(0)) {
            seen.push(resources.location(0));
        }
    }
    assert!(seen.len() > 1);
}

#[test]
fn the_player_sees_around() {
    let mut map = open_world(5);
    let settings = Settings { visible_distance: Some(1), ..Settings::new() };
    let player = Player::init(2, 2, &settings);
    map.update(&player);
    assert_eq!(visible_cells(&map), vec![(1, 1), (1, 2), (2, 1), (2, 2)]);
}

#[test]
fn what_was_seen_stays_visible() {
    let mut map = open_world(5);
    let settings = Settings { visible_distance: Some(1), ..Settings::new() };
    let mut player = Player::init(1, 1, &settings);
    map.update(&player);
    assert_eq!(visible_cells(&map), vec![(0, 0), (0, 1), (1, 0), (1, 1)]);
    assert_eq!(player.move_relative(1, 1, &map), Ok(()));
    assert_eq!(player.move_relative(1, 1, &map), Ok(()));
    map.update(&player);
    assert_eq!(
        visible_cells(&map),
        vec![(0, 0), (0, 1), (1, 0), (1, 1), (2, 2), (2, 3), (3, 2), (3, 3)]
    );
}

#[test]
fn the_view_is_clipped_at_the_edges() {
    let mut map = open_world(4);
    let player = Player::init(0, 3, &Settings::new());
    map.update(&player);
    assert_eq!(visible_cells(&map).len(), 16);
    let mut small = open_world(3);
    let settings = Settings { visible_distance: Some(2), ..Settings::new() };
    let corner = Player::init(0, 0, &settings);
    small.update(&corner);
    assert_eq!(visible_cells(&small), vec![(0, 0), (0, 1), (1, 0), (1, 1)]);
    let mut other = open_world(3);
    let far_corner = Player::init(2, 2, &settings);
    other.update(&far_corner);
    assert_eq!(visible_cells(&other).len(), 9);
}

#[test]
fn without_fuel_nothing_is_seen() {
    let mut map = open_world(3);
    let settings = Settings { resource_max: Some(0), ..Settings::new() };
    let player = Player::init(1, 1, &settings);
    map.update(&player);
    assert_eq!(visible_cells(&map), vec![]);
}

#[test]
fn looking_changes_nothing_but_what_is_visible() {
    let mut map = world_of("_#_\n___\n#__");
    map.add_mark(1, 1);
    map.special_locations.start = Some((0, 0));
    let player = Player::init(1, 1, &Settings::new());
    map.update(&player);
    assert_eq!(map.marks, vec![(1, 1)]);
    assert_eq!(map.get_location("start"), Some((0, 0)));
    assert_eq!(map.tiles[1][0].ttype, TileType::Wall);
    assert!(!map.tiles[1][0].passable);
    assert!(map.tiles[1][0].visible);
    assert_eq!(map.tiles[0][0].ttype, TileType::Floor);
    assert_eq!(map.tiles[0][0].search_text, "empty");
    map.show_tile(2, 2);
    assert!(map.tiles[2][2].visible);
}
