//! The numbers that a game is configured with. Each may be left unset, and
//! then has a default.

use vstd::prelude::*;

verus! {

/// Settings as they were read: `None` where a setting is not given.
#[derive(Clone, Copy, Debug)]
pub struct Settings {
    /// How far the player sees.
    pub visible_distance: Option<u8>,
    /// How far the player sees while in danger.
    pub visible_distance_danger: Option<u8>,
    /// How much fuel a refill gives.
    pub resource_max: Option<u8>,
    /// How many refills the player starts with.
    pub resource_start: Option<u8>,
    /// The side of the sections of the map that hold one resource each.
    pub resource_distance: Option<u32>,
    /// Up to which distance the monster is a danger.
    pub kobold_danger_dist: Option<u8>,
    /// One more than the largest number of obstacles.
    pub obstacle_max: Option<u8>,
    /// How often the generation of a map is tried.
    pub map_max_tries: Option<u8>,
    /// How many cards lie along one side of the map.
    pub field_side: Option<usize>,
    /// For how many turns a line of text is shown.
    pub textline_time_max: Option<u8>,
}

/// The value of a setting: what was given, else the default.
pub open spec fn given_or<T>(given: Option<T>, default: T) -> T {
    match given {
        Some(value) => value,
        None => default,
    }
}

impl Settings {
    /// Settings in which nothing is given.
    pub open spec fn unset() -> Settings {
        Settings {
            visible_distance: None,
            visible_distance_danger: None,
            resource_max: None,
            resource_start: None,
            resource_distance: None,
            kobold_danger_dist: None,
            obstacle_max: None,
            map_max_tries: None,
            field_side: None,
            textline_time_max: None,
        }
    }

    /// Settings in which nothing is given: every value is its default.
    pub fn new() -> (settings: Settings)
        ensures
            settings == Settings::unset(),
    {
        Settings {
            visible_distance: None,
            visible_distance_danger: None,
            resource_max: None,
            resource_start: None,
            resource_distance: None,
            kobold_danger_dist: None,
            obstacle_max: None,
            map_max_tries: None,
            field_side: None,
            textline_time_max: None,
        }
    }

    /// How far the player sees: 5 by default.
    pub fn view_distance(&self) -> (value: u8)
        ensures
            value == given_or(self.visible_distance, 5),
    {
        match self.visible_distance {
            Some(value) => value,
            None => 5,
        }
    }

    /// How far the player sees while in danger: 2 by default.
    pub fn view_distance_danger(&self) -> (value: u8)
        ensures
            value == given_or(self.visible_distance_danger, 2),
    {
        match self.visible_distance_danger {
            Some(value) => value,
            None => 2,
        }
    }

    /// How much fuel a refill gives: 10 by default.
    pub fn view_resource_max(&self) -> (value: u8)
        ensures
            value == given_or(self.resource_max, 10),
    {
        match self.resource_max {
            Some(value) => value,
            None => 10,
        }
    }

    /// How many refills the player starts with: 3 by default.
    pub fn view_resource_count(&self) -> (value: u8)
        ensures
            value == given_or(self.resource_start, 3),
    {
        match self.resource_start {
            Some(value) => value,
            None => 3,
        }
    }

    /// Below which distance the monster is a danger: one more than the
    /// setting, which is 5 by default, and 255 at most.
    pub fn danger_distance(&self) -> (value: u8)
        ensures
            value as int == if given_or(self.kobold_danger_dist, 5) == 255 {
                255
            } else {
                given_or(self.kobold_danger_dist, 5) + 1
            },
    {
        let given = match self.kobold_danger_dist {
            Some(value) => value,
            None => 5,
        };
        if given == 255 {
            255
        } else {
            given + 1
        }
    }

    /// One more than the largest number of obstacles: 6 by default.
    pub fn max_obstacles(&self) -> (value: u8)
        ensures
            value == given_or(self.obstacle_max, 6),
    {
        match self.obstacle_max {
            Some(value) => value,
            None => 6,
        }
    }

    /// How often the generation of a map is tried: 100 times by default.
    pub fn tries_max(&self) -> (value: u8)
        ensures
            value == given_or(self.map_max_tries, 100),
    {
        match self.map_max_tries {
            Some(value) => value,
            None => 100,
        }
    }

    /// How many cards lie along one side of the map: 3 by default.
    pub fn cards_map_side(&self) -> (value: usize)
        ensures
            value == given_or(self.field_side, 3),
    {
        match self.field_side {
            Some(value) => value,
            None => 3,
        }
    }

    /// For how many turns a line of text is shown: 3 by default.
    pub fn time_max(&self) -> (value: u8)
        ensures
            value == given_or(self.textline_time_max, 3),
    {
        match self.textline_time_max {
            Some(value) => value,
            None => 3,
        }
    }
}

} // verus!
