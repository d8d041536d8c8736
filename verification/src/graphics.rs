//! What the screen shows besides the map: the line of text, the background
//! and the scene of text. Only their state lives here; drawing does not.

use rand::StdRng;
use vstd::prelude::*;
use vstd::string::StringExecFns;

use crate::random::choose_one;
use crate::settings::{given_or, Settings};

verus! {

/// The line of text under the map: the situation it tells of, and for how
/// many turns it is still shown.
#[derive(Clone, Debug)]
pub struct TextLine {
    situation: String,
    time_max: u8,
    time: u8,
}

/// The line of text as the contracts see it.
pub struct TextLineView {
    pub situation: Seq<char>,
    pub time_max: u8,
    pub time: u8,
}

impl View for TextLine {
    type V = TextLineView;

    closed spec fn view(&self) -> TextLineView {
        TextLineView { situation: self.situation@, time_max: self.time_max, time: self.time }
    }
}

impl TextLine {
    /// The line at the start of a game: it tells of the start, for as long
    /// as the settings say.
    pub fn init(settings: &Settings) -> (line: TextLine)
        ensures
            line@ == (TextLineView {
                situation: "start"@,
                time_max: given_or(settings.textline_time_max, 3),
                time: given_or(settings.textline_time_max, 3),
            }),
    {
        let time_max = settings.time_max();
        TextLine { situation: String::from_str("start"), time_max, time: time_max }
    }

    /// The situation that the line tells of.
    pub fn get_situation(&self) -> (situation: &String)
        ensures
            situation@ == self@.situation,
    {
        &self.situation
    }

    /// For how many turns the line is still shown.
    pub fn get_time(&self) -> (time: u8)
        ensures
            time == self@.time,
    {
        self.time
    }

    /// One turn passes: the line is shown for one turn less, if it still
    /// is.
    pub fn update(&mut self)
        ensures
            final(self)@ == (TextLineView {
                time: if old(self)@.time > 0 {
                    (old(self)@.time - 1) as u8
                } else {
                    0
                },
                ..old(self)@
            }),
    {
        if self.time > 0 {
            self.time -= 1;
        }
    }

    /// Makes the line tell of `situation`, for the full time.
    pub fn set_situation(&mut self, situation: &str)
        ensures
            final(self)@ == (TextLineView {
                situation: situation@,
                time: old(self)@.time_max,
                ..old(self)@
            }),
    {
        self.situation = String::from_str(situation);
        self.time = self.time_max;
    }

    /// Makes the line tell of the situation drawn: for the full time where
    /// one was drawn; else the line tells of "empty", and the time it is
    /// shown for stays as it is.
    pub fn set_drawn_situation(&mut self, drawn: Option<&String>)
        ensures
            final(self)@ == match drawn {
                Some(situation) => TextLineView {
                    situation: situation@,
                    time: old(self)@.time_max,
                    ..old(self)@
                },
                None => TextLineView { situation: "empty"@, ..old(self)@ },
            },
    {
        let situation_sample = match drawn {
            Some(sit) => {
                self.time = self.time_max;
                sit.clone()
            },
            None => String::from_str("empty"),
        };
        self.situation = situation_sample;
    }

    /// Makes the line tell of one of `situations`, drawn at random, for the
    /// full time. With none to draw from, the line tells of "empty", and
    /// the time it is shown for stays as it is.
    pub fn set_any_situation(&mut self, situations: &Vec<String>, rng: &mut StdRng)
        ensures
            final(self)@.time_max == old(self)@.time_max,
            situations@.len() == 0 ==> final(self)@ == (TextLineView {
                situation: "empty"@,
                ..old(self)@
            }),
            situations@.len() > 0 ==> final(self)@.time == old(self)@.time_max && exists|i: int|
                0 <= i < situations@.len() && final(self)@.situation == #[trigger] situations@[i]@,
    {
        let drawn = choose_one(rng, situations);
        proof {
            if let Some(situation) = drawn {
                let i = choose|i: int| 0 <= i < situations@.len() && situations@[i] == *situation;
                assert(situations@[i]@ == situation@);
            }
        }
        self.set_drawn_situation(drawn);
    }
}

/// The picture behind everything.
#[derive(Clone, Debug)]
pub struct Background {
    texture_name: String,
}

impl View for Background {
    type V = Seq<char>;

    closed spec fn view(&self) -> Seq<char> {
        self.texture_name@
    }
}

impl Background {
    /// The background: the picture "map.png".
    pub fn init() -> (background: Background)
        ensures
            background@ == "map.png"@,
    {
        Background { texture_name: String::from_str("map.png") }
    }

    /// The name of the picture.
    pub fn get_texture_name(&self) -> (name: &String)
        ensures
            name@ == self@,
    {
        &self.texture_name
    }
}

/// The scene of text that covers the map when there is something to tell.
#[derive(Clone, Debug)]
pub struct TextScene {
    pub active: bool,
    pub scene: String,
}

impl TextScene {
    /// No scene is shown at the start; the one in waiting is "empty".
    pub fn init() -> (scene: TextScene)
        ensures
            !scene.active,
            scene.scene@ == "empty"@,
    {
        TextScene { active: false, scene: String::from_str("empty") }
    }
}

} // verus!
