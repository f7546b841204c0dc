use vstd::prelude::*;
use crate::diagram::FaceKey;
use crate::scalar::{Point, Scalar};
use crate::tree::NodeKey;

verus! {

/// What an event is about.
#[derive(Clone, Copy, Debug)]
pub enum EventType {
    /// The sweep line reaches the site of `face`.
    SiteEvent { face: FaceKey },
    /// The arc `arc` shrinks to the point `point` and vanishes.
    CircleEvent { point: Point, arc: NodeKey },
}

/// An event of the sweep: what happens, and the `y` at which the sweep line meets it.
#[derive(Clone, Copy, Debug)]
pub struct Event {
    pub y: Scalar,
    pub event_type: EventType,
}

impl Event {
    pub fn site_event(y: Scalar, face: FaceKey) -> (r: Self)
        ensures
            r == (Event { y, event_type: EventType::SiteEvent { face } }),
    {
        Event { y, event_type: EventType::SiteEvent { face } }
    }

    pub fn circle_event(y: Scalar, point: Point, arc: NodeKey) -> (r: Self)
        ensures
            r == (Event { y, event_type: EventType::CircleEvent { point, arc } }),
    {
        Event { y, event_type: EventType::CircleEvent { point, arc } }
    }

    pub fn y(&self) -> (r: Scalar)
        ensures
            r == self.y,
    {
        self.y
    }

    pub fn event_type(&self) -> (r: &EventType)
        ensures
            *r == self.event_type,
    {
        &self.event_type
    }

    /// Events are ordered by their `y` alone: `self` comes before `other`.
    pub fn precedes(&self, other: &Event) -> (r: bool)
        ensures
            r == self.y.lt_spec(other.y),
    {
        self.y.lt(&other.y)
    }

    /// Events count as equal where their `y` is.
    pub fn coincides(&self, other: &Event) -> (r: bool)
        ensures
            r == self.y.same_spec(other.y),
    {
        self.y.same(&other.y)
    }
}

} // verus!
