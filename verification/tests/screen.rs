use sevend::graphics::{Background, TextLine, TextScene};
use sevend::random::{pick_text, text_or_blank};
use sevend::settings::Settings;

use rand::{SeedableRng, StdRng};

fn seeded_for_screen(seed: usize) -> StdRng {
    let seed_words = [seed, 43, 47, 53];
    SeedableRng::from_seed(&seed_words[..])
}

#[test]
fn the_line_starts_with_the_start() {
    let line = TextLine::init(&Settings::new());
    assert_eq!(line.get_situation(), "start");
    assert_eq!(line.get_time(), 3);
    let settings = Settings { textline_time_max: Some(9), ..Settings::new() };
    assert_eq!(TextLine::init(&settings).get_time(), 9);
}

#[test]
fn the_line_fades_turn_by_turn() {
    let mut line = TextLine::init(&Settings::new());
    line.update();
    assert_eq!(line.get_time(), 2);
    line.update();
    line.update();
    assert_eq!(line.get_time(), 0);
    line.update();
    assert_eq!(line.get_time(), 0);
    assert_eq!(line.get_situation(), "start");
}

#[test]
fn a_new_situation_is_shown_for_the_full_time() {
    let mut line = TextLine::init(&Settings::new());
    line.update();
    line.update();
    line.set_situation("resource_refill");
    assert_eq!(line.get_situation(), "resource_refill");
    assert_eq!(line.get_time(), 3);
}

#[test]
fn one_of_the_situations_is_drawn() {
    let situations = vec![String::from("danger_1"), String::from("danger_2"), String::from("danger_3")];
    let mut seen = Vec::new();
    for seed in 0..40 {
        let mut rng = seeded_for_screen(seed);
        let mut line = TextLine::init(&Settings::new());
        line.update();
        line.set_any_situation(&situations, &mut rng);
        assert!(situations.contains(line.get_situation()));
        assert_eq!(line.get_time(), 3);
        if !seen.contains(line.get_situation()) {
            seen.push(line.get_situation().clone());
        }
    }
    assert!(seen.len() > 1);
}

#[test]
fn without_situations_the_line_is_empty() {
    let mut rng = seeded_for_screen(1);
    let mut line = TextLine::init(&Settings::new());
    line.update();
    line.set_any_situation(&Vec::new(), &mut rng);
    assert_eq!(line.get_situation(), "empty");
    assert_eq!(line.get_time(), 2);
}

#[test]
fn the_line_tells_what_was_drawn() {
    let mut line = TextLine::init(&Settings::new());
    line.update();
    let drawn = String::from("resource_found_2");
    line.set_drawn_situation(Some(&drawn));
    assert_eq!(line.get_situation(), "resource_found_2");
    assert_eq!(line.get_time(), 3);
    line.update();
    line.set_drawn_situation(None);
    assert_eq!(line.get_situation(), "empty");
    assert_eq!(line.get_time(), 2);
}

#[test]
fn the_background_is_the_map_picture() {
    assert_eq!(Background::init().get_texture_name(), "map.png");
}

#[test]
fn no_scene_is_shown_at_first() {
    let scene = TextScene::init();
    assert!(!scene.active);
    assert_eq!(scene.scene, "empty");
}

#[test]
fn a_text_is_drawn_among_the_candidates() {
    let candidates = vec![String::from("a"), String::from("b"), String::from("c")];
    let mut seen = Vec::new();
    for seed in 0..40 {
        let mut rng = seeded_for_screen(100 + seed);
        let text = pick_text(&mut rng, &candidates);
        assert!(candidates.contains(&text));
        if !seen.contains(&text) {
            seen.push(text);
        }
    }
    assert!(seen.len() > 1);
    let mut rng = seeded_for_screen(2);
    assert_eq!(pick_text(&mut rng, &Vec::new()), "");
    let only = vec![String::from("only")];
    assert_eq!(pick_text(&mut rng, &only), "only");
}

#[test]
fn no_draw_gives_the_blank_text() {
    let line = String::from("a line");
    assert_eq!(text_or_blank(Some(&line)), "a line");
    assert_eq!(text_or_blank(None), "");
}
