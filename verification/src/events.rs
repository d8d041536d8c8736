//! What the player can do in a turn, and what a turn can bring about.

use vstd::prelude::*;

verus! {

/// A resource was found: the one at `index` in the list of resources.
#[derive(Clone, Copy, PartialEq, Eq, Debug)]
pub struct EventResourceFound {
    pub index: usize,
}

/// The fuel has run out.
#[derive(Clone, Copy, PartialEq, Eq, Debug)]
pub struct EventResourceGone {}

/// A refill was asked for, and made or not.
#[derive(Clone, Copy, PartialEq, Eq, Debug)]
pub struct EventResourceRefill {
    pub success: bool,
}

/// The player has run into an obstacle, which carries this text.
#[derive(Clone, PartialEq, Eq, Debug)]
pub struct EventObstacleFound {
    pub text: String,
}

/// The player has stepped onto the curio of this name.
#[derive(Clone, PartialEq, Eq, Debug)]
pub struct EventCurioFound {
    pub scene: String,
}

/// The monster is near.
#[derive(Clone, Copy, PartialEq, Eq, Debug)]
pub struct EventPlayerInDanger {}

/// The player and the monster stand on the same cell.
#[derive(Clone, Copy, PartialEq, Eq, Debug)]
pub struct EventPlayerMeetMonster {}

/// What one action of the player has brought about.
#[derive(Clone, PartialEq, Eq, Debug)]
pub enum Event {
    ResourceFound(EventResourceFound),
    ResourceGone(EventResourceGone),
    RefillResult(EventResourceRefill),
    ObstacleFound(EventObstacleFound),
    CurioFound(EventCurioFound),
    PlayerInDanger(EventPlayerInDanger),
    PlayerMeetMonster(EventPlayerMeetMonster),
}

/// An event as the contracts see it.
pub enum EventView {
    ResourceFound { index: usize },
    ResourceGone,
    RefillResult { success: bool },
    ObstacleFound { text: Seq<char> },
    CurioFound { name: Seq<char> },
    PlayerInDanger,
    PlayerMeetMonster,
}

impl View for Event {
    type V = EventView;

    open spec fn view(&self) -> EventView {
        match *self {
            Event::ResourceFound(found) => EventView::ResourceFound { index: found.index },
            Event::ResourceGone(_) => EventView::ResourceGone,
            Event::RefillResult(refill) => EventView::RefillResult { success: refill.success },
            Event::ObstacleFound(found) => EventView::ObstacleFound { text: found.text@ },
            Event::CurioFound(found) => EventView::CurioFound { name: found.scene@ },
            Event::PlayerInDanger(_) => EventView::PlayerInDanger,
            Event::PlayerMeetMonster(_) => EventView::PlayerMeetMonster,
        }
    }
}

/// A list of events as the contracts see it.
pub open spec fn event_views(events: Seq<Event>) -> Seq<EventView> {
    events.map_values(|event: Event| event@)
}

/// The keys that the game reads.
#[derive(Clone, Copy, PartialEq, Eq, Debug, Structural)]
pub enum Key {
    Up,
    Down,
    Left,
    Right,
    Kp1,
    Kp2,
    Kp3,
    Kp4,
    Kp6,
    Kp7,
    Kp8,
    Kp9,
    Num1,
    Num2,
    Num3,
    Num4,
    Num6,
    Num7,
    Num8,
    Num9,
    R,
    /// Any other key.
    Other,
}

/// What the player can do in a turn.
#[derive(Clone, Copy, PartialEq, Eq, Debug, Structural)]
pub enum Action {
    /// A step by this much to the right and this much down.
    Step(isize, isize),
    /// Refilling the lamp.
    Refill,
}

/// The action that a key stands for, if any.
pub open spec fn action_of(key: Key) -> Option<Action> {
    match key {
        Key::Up | Key::Kp8 | Key::Num8 => Some(Action::Step(0, -1isize)),
        Key::Down | Key::Kp2 | Key::Num2 => Some(Action::Step(0, 1)),
        Key::Left | Key::Kp4 | Key::Num4 => Some(Action::Step(-1isize, 0)),
        Key::Right | Key::Kp6 | Key::Num6 => Some(Action::Step(1, 0)),
        Key::Kp1 | Key::Num1 => Some(Action::Step(-1isize, 1)),
        Key::Kp3 | Key::Num3 => Some(Action::Step(1, 1)),
        Key::Kp7 | Key::Num7 => Some(Action::Step(-1isize, -1isize)),
        Key::Kp9 | Key::Num9 => Some(Action::Step(1, -1isize)),
        Key::R => Some(Action::Refill),
        Key::Other => None,
    }
}

/// The action that a key stands for, if any.
pub fn key_action(key: &Key) -> (action: Option<Action>)
    ensures
        action == action_of(*key),
{
    match key {
        Key::Up | Key::Kp8 | Key::Num8 => Some(Action::Step(0, -1)),
        Key::Down | Key::Kp2 | Key::Num2 => Some(Action::Step(0, 1)),
        Key::Left | Key::Kp4 | Key::Num4 => Some(Action::Step(-1, 0)),
        Key::Right | Key::Kp6 | Key::Num6 => Some(Action::Step(1, 0)),
        Key::Kp1 | Key::Num1 => Some(Action::Step(-1, 1)),
        Key::Kp3 | Key::Num3 => Some(Action::Step(1, 1)),
        Key::Kp7 | Key::Num7 => Some(Action::Step(-1, -1)),
        Key::Kp9 | Key::Num9 => Some(Action::Step(1, -1)),
        Key::R => Some(Action::Refill),
        Key::Other => None,
    }
}

} // verus!
