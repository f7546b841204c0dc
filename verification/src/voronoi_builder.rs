use vstd::prelude::*;
use crate::beachline::{Arc, Beachline, Descent, Located};
use crate::boundingbox::{BoundingBox, Side};
use crate::diagram::{Diagram, Face, FaceKey, HalfEdge, HalfEdgeKey, VertexKey};
use crate::error::BuildError;
use crate::event::{Event, EventType};
use crate::pool::POOL_LIMIT;
use crate::queue::{PriorityQueue, QueueIndex};
use crate::scalar::{Point, Scalar};
use crate::steady::{
    edges_apart, lemma_closed_steady, lemma_events_steady, lemma_join_end, lemma_join_middle,
    lemma_split_steady, lemma_steady_root, same_seams, steady, unshared,
};
use crate::ties::{
    alone, lemma_circle_ahead, lemma_circle_tied, lemma_popped_ahead, lemma_popped_tied,
    lemma_site_ahead, lemma_site_tied, site_face, sites_ahead, tied, unarced,
};
use crate::tree::NodeKey;

verus! {

/// The circle through the sites of three arcs that follow each other: its centre, and the
/// `y` of its lowest point, at which the sweep line has the whole circle behind it.
#[derive(Clone, Copy, Debug)]
pub struct Circle {
    pub center: Point,
    pub event_y: Scalar,
}

/// Whether the breakpoint between the arcs of two sites moves to the right as the sweep
/// line goes down: it does where the site on the left has the larger `y`.
pub open spec fn moving_right_spec(left: Point, right: Point) -> bool {
    right.y.lt_spec(left.y)
}

pub fn is_moving_right(left: Point, right: Point) -> (r: bool)
    ensures
        r == moving_right_spec(left, right),
{
    left.y.gt(&right.y)
}

/// The `x` at which the breakpoint between two arcs set out: that of the site that was met
/// first.
pub fn get_initial_x(left: Point, right: Point, moving_right: bool) -> (r: Scalar)
    ensures
        r == (if moving_right {
            left.x
        } else {
            right.x
        }),
{
    if moving_right {
        left.x
    } else {
        right.x
    }
}

/// A breakpoint that set out at `initial_x` comes to the centre of the circle: it moves to
/// the right and set out on the left of the centre, or the other way round.
pub open spec fn converges(moving_right: bool, initial_x: Scalar, center: Point) -> bool {
    (moving_right && initial_x.le_spec(center.x)) || (!moving_right && center.x.le_spec(initial_x))
}

/// The circle through the sites `left`, `middle` and `right` of three arcs that follow
/// each other is due as an event: its lowest point is a number, `ahead` says that the
/// sweep line has not passed it, and both breakpoints of the arc in the middle come to the
/// centre.
pub open spec fn circle_is_due(left: Point, middle: Point, right: Point, circle: Circle, ahead: bool) -> bool {
    &&& ahead
    &&& circle.event_y.is_number()
    &&& converges(
        moving_right_spec(left, middle),
        if moving_right_spec(left, middle) {
            left.x
        } else {
            middle.x
        },
        circle.center,
    )
    &&& converges(
        moving_right_spec(middle, right),
        if moving_right_spec(middle, right) {
            middle.x
        } else {
            right.x
        },
        circle.center,
    )
}

/// Decides whether a circle is due as an event: see `circle_is_due`.
pub fn check_circle(left: Point, middle: Point, right: Point, circle: Circle, ahead: bool) -> (r: bool)
    ensures
        r == circle_is_due(left, middle, right, circle, ahead),
{
    if !ahead || !circle.event_y.number() {
        return false;
    }
    let left_breakpoint_moving_right = is_moving_right(left, middle);
    let right_breakpoint_moving_right = is_moving_right(middle, right);
    let left_initial_x = get_initial_x(left, middle, left_breakpoint_moving_right);
    let right_initial_x = get_initial_x(middle, right, right_breakpoint_moving_right);
    ((left_breakpoint_moving_right && left_initial_x.le(&circle.center.x)) || (
    !left_breakpoint_moving_right && left_initial_x.ge(&circle.center.x))) && ((
    right_breakpoint_moving_right && right_initial_x.le(&circle.center.x)) || (
    !right_breakpoint_moving_right && right_initial_x.ge(&circle.center.x)))
}

/// The events of a queue without the one that a handle names.
pub open spec fn without(live: Map<usize, Event>, index: QueueIndex) -> Map<usize, Event> {
    match index.id {
        Some(id) => live.remove(id),
        None => live,
    }
}

/// The arc without its circle event.
pub open spec fn cleared(arc: Arc) -> Arc {
    Arc { event_index: QueueIndex { id: None }, ..arc }
}

/// Takes the circle event of an arc, if it has one, out of the queue, and clears the handle
/// at the arc.
pub fn delete_event(arc: NodeKey, beachline: &mut Beachline, event_queue: &mut PriorityQueue)
    requires
        old(beachline).tree.wf(),
        old(beachline).tree.has(arc),
        old(event_queue).wf(),
    ensures
        final(event_queue).wf(),
        final(event_queue).issued() == old(event_queue).issued(),
        final(event_queue).live() == without(
            old(event_queue).live(),
            old(beachline).arcs()[arc].event_index,
        ),
        final(beachline).changed(old(beachline), arc, cleared(old(beachline).arcs()[arc])),
        same_seams(final(beachline).arcs(), old(beachline).arcs()),
        final(beachline).order() == old(beachline).order(),
{
    event_queue.remove(beachline.get_arc_event(arc));
    beachline.set_arc_event(arc, QueueIndex::new());
    proof {
        assert(final(beachline).arcs().dom() =~= old(beachline).arcs().dom());
    }
}

/// The circle event of the arc `middle` for the circle `circle`.
pub open spec fn circle_event(middle: NodeKey, circle: Circle) -> Event {
    Event {
        y: circle.event_y,
        event_type: EventType::CircleEvent { point: circle.center, arc: middle },
    }
}

/// The arcs after `schedule`: where the circle was due, the arc `middle` has the handle
/// that the queue gave out, which is the number of handles given out before.
pub open spec fn scheduled_arcs(arcs: Map<NodeKey, Arc>, middle: NodeKey, issued: nat, due: bool) -> Map<NodeKey, Arc> {
    if due {
        arcs.insert(
            middle,
            Arc { event_index: QueueIndex { id: Some(issued as usize) }, ..arcs[middle] },
        )
    } else {
        arcs
    }
}

/// The events after `schedule`: where the circle was due, its event is among them.
pub open spec fn scheduled_events(
    live: Map<usize, Event>,
    middle: NodeKey,
    issued: nat,
    due: bool,
    circle: Circle,
) -> Map<usize, Event> {
    if due {
        live.insert(issued as usize, circle_event(middle, circle))
    } else {
        live
    }
}

/// Enters the circle event of the arc `middle_arc`, whose neighbours have the sites
/// `left` and `right`, where the circle is due: see `circle_is_due`.
pub fn schedule(
    middle_arc: NodeKey,
    left: Point,
    middle: Point,
    right: Point,
    circle: Circle,
    ahead: bool,
    beachline: &mut Beachline,
    event_queue: &mut PriorityQueue,
) -> (due: bool)
    requires
        old(beachline).tree.wf(),
        old(beachline).tree.has(middle_arc),
        old(event_queue).wf(),
    ensures
        due == circle_is_due(left, middle, right, circle, ahead),
        final(event_queue).wf(),
        final(beachline).tree.wf(),
        final(beachline).same_nodes(old(beachline)),
        final(beachline).order() == old(beachline).order(),
        same_seams(final(beachline).arcs(), old(beachline).arcs()),
        final(beachline).arcs() == scheduled_arcs(
            old(beachline).arcs(),
            middle_arc,
            old(event_queue).issued(),
            due,
        ),
        final(event_queue).live() == scheduled_events(
            old(event_queue).live(),
            middle_arc,
            old(event_queue).issued(),
            due,
            circle,
        ),
        final(event_queue).issued() == old(event_queue).issued() + (if due {
            1nat
        } else {
            0nat
        }),
{
    if check_circle(left, middle, right, circle, ahead) {
        let event = event_queue.push(Event::circle_event(circle.event_y, circle.center, middle_arc));
        beachline.set_arc_event(middle_arc, event);
        proof {
            assert(final(beachline).arcs().dom() =~= old(beachline).arcs().dom());
        }
        true
    } else {
        proof {
            beachline.tree.lemma_shape_refl();
        }
        false
    }
}

/// The sweep line at `current_y` has not passed the lowest point of a circle: that point
/// lies at `current_y` or below, or so little above that `close` holds.
pub open spec fn is_ahead(event_y: Scalar, current_y: Scalar, close: bool) -> bool {
    current_y.le_spec(event_y) || close
}

/// What was found for three arcs that follow each other: the circle through their sites,
/// and whether its lowest point is within the tolerance of the sweep line.
#[derive(Clone, Copy, Debug)]
pub struct Answer {
    pub circle: Circle,
    pub close: bool,
}

/// The site of the face of an arc.
pub open spec fn site_of(voronoi: &Diagram, arcs: Map<NodeKey, Arc>, arc: NodeKey) -> Point {
    voronoi.faces()[arcs[arc].face.unwrap()].point
}

/// With the answer `answer` for the arcs `arcs`, the circle event of the middle one is
/// due.
pub open spec fn due_for(
    voronoi: &Diagram,
    arcs: Map<NodeKey, Arc>,
    triple: (NodeKey, NodeKey, NodeKey),
    current_y: Scalar,
    answer: Answer,
) -> bool {
    circle_is_due(
        site_of(voronoi, arcs, triple.0),
        site_of(voronoi, arcs, triple.1),
        site_of(voronoi, arcs, triple.2),
        answer.circle,
        is_ahead(answer.circle.event_y, current_y, answer.close),
    )
}

/// `answer` is what `circle` and `near` gave for the arcs `triple` with the sweep line at
/// `current_y`.
pub open spec fn answered<N: Fn(Scalar, Scalar) -> bool, C: Fn(Point, Point, Point) -> Circle>(
    voronoi: &Diagram,
    arcs: Map<NodeKey, Arc>,
    triple: (NodeKey, NodeKey, NodeKey),
    current_y: Scalar,
    near: &N,
    circle: &C,
    answer: Answer,
) -> bool {
    &&& call_ensures(
        *circle,
        (
            site_of(voronoi, arcs, triple.0),
            site_of(voronoi, arcs, triple.1),
            site_of(voronoi, arcs, triple.2),
        ),
        answer.circle,
    )
    &&& call_ensures(*near, (answer.circle.event_y, current_y), answer.close)
}

/// Looks at three arcs that follow each other, and enters the circle event of the one in
/// the middle where it is due.
///
/// `circle` gives the circle through three sites, and `near` says whether two ordinates
/// differ by less than the tolerance of the sweep. Returns what they answered; with that,
/// the outcome is that of `schedule`.
pub fn add_event<N: Fn(Scalar, Scalar) -> bool, C: Fn(Point, Point, Point) -> Circle>(
    left_arc: NodeKey,
    middle_arc: NodeKey,
    right_arc: NodeKey,
    voronoi: &Diagram,
    beachline: &mut Beachline,
    current_y: Scalar,
    event_queue: &mut PriorityQueue,
    near: &N,
    circle: &C,
) -> (answer: Answer)
    requires
        voronoi.wf(),
        old(beachline).wf(),
        old(beachline).fits(voronoi),
        old(beachline).tree.has(left_arc),
        old(beachline).tree.has(middle_arc),
        old(beachline).tree.has(right_arc),
        old(event_queue).wf(),
        forall|a: Scalar, b: Scalar| call_requires(*near, (a, b)),
        forall|a: Point, b: Point, c: Point| call_requires(*circle, (a, b, c)),
    ensures
        final(event_queue).wf(),
        final(beachline).wf(),
        final(beachline).fits(voronoi),
        final(beachline).same_nodes(old(beachline)),
        answered(
            voronoi,
            old(beachline).arcs(),
            (left_arc, middle_arc, right_arc),
            current_y,
            near,
            circle,
            answer,
        ),
        final(beachline).order() == old(beachline).order(),
        same_seams(final(beachline).arcs(), old(beachline).arcs()),
        final(beachline).arcs() == scheduled_arcs(
            old(beachline).arcs(),
            middle_arc,
            old(event_queue).issued(),
            due_for(
                voronoi,
                old(beachline).arcs(),
                (left_arc, middle_arc, right_arc),
                current_y,
                answer,
            ),
        ),
        final(event_queue).live() == scheduled_events(
            old(event_queue).live(),
            middle_arc,
            old(event_queue).issued(),
            due_for(
                voronoi,
                old(beachline).arcs(),
                (left_arc, middle_arc, right_arc),
                current_y,
                answer,
            ),
            answer.circle,
        ),
        final(event_queue).issued() == old(event_queue).issued() + (if due_for(
            voronoi,
            old(beachline).arcs(),
            (left_arc, middle_arc, right_arc),
            current_y,
            answer,
        ) {
            1nat
        } else {
            0nat
        }),
{
    let left_point = voronoi.get_face_point(beachline.get_arc_face(left_arc).unwrap());
    let middle_point = voronoi.get_face_point(beachline.get_arc_face(middle_arc).unwrap());
    let right_point = voronoi.get_face_point(beachline.get_arc_face(right_arc).unwrap());
    let found = circle(left_point, middle_point, right_point);
    let close = near(found.event_y, current_y);
    let ahead = found.event_y.ge(&current_y) || close;
    schedule(
        middle_arc,
        left_point,
        middle_point,
        right_point,
        found,
        ahead,
        beachline,
        event_queue,
    );
    Answer { circle: found, close }
}

/// The half edges with `vertex` as the origin of `half_edge`.
pub open spec fn with_origin(
    half_edges: Map<HalfEdgeKey, HalfEdge>,
    half_edge: HalfEdgeKey,
    vertex: VertexKey,
) -> Map<HalfEdgeKey, HalfEdge> {
    half_edges.insert(half_edge, HalfEdge { origin: Some(vertex), ..half_edges[half_edge] })
}

/// The half edges with `vertex` as the destination of `half_edge`.
pub open spec fn with_destination(
    half_edges: Map<HalfEdgeKey, HalfEdge>,
    half_edge: HalfEdgeKey,
    vertex: VertexKey,
) -> Map<HalfEdgeKey, HalfEdge> {
    half_edges.insert(half_edge, HalfEdge { destination: Some(vertex), ..half_edges[half_edge] })
}

/// The half edges that an arc hangs on: its own two, the right one of the arc before it
/// and the left one of the arc behind it.
pub struct Hinge {
    pub left: HalfEdgeKey,
    pub right: HalfEdgeKey,
    pub prev_right: HalfEdgeKey,
    pub next_left: HalfEdgeKey,
}

/// The half edges after an arc has shrunk to the vertex `vertex`: the four half edges of
/// the hinge end there, the two of the arc follow each other, and a new edge `pair`
/// between `prev_face` and `next_face` sets out from the vertex, linked to the half
/// edges that the neighbours had towards the arc.
pub open spec fn closed_at(
    half_edges: Map<HalfEdgeKey, HalfEdge>,
    hinge: Hinge,
    vertex: VertexKey,
    pair: (HalfEdgeKey, HalfEdgeKey),
    prev_face: FaceKey,
    next_face: FaceKey,
) -> Map<HalfEdgeKey, HalfEdge> {
    let ended = with_destination(
        with_origin(
            with_destination(with_origin(half_edges, hinge.prev_right, vertex), hinge.left, vertex),
            hinge.right,
            vertex,
        ),
        hinge.next_left,
        vertex,
    );
    let joined = Diagram::linked(ended, hinge.left, hinge.right);
    let opened = joined.insert(
        pair.0,
        HalfEdge { twin: Some(pair.1), ..HalfEdge::fresh(prev_face) },
    ).insert(pair.1, HalfEdge { twin: Some(pair.0), ..HalfEdge::fresh(next_face) });
    let started = with_origin(with_destination(opened, pair.0, vertex), pair.1, vertex);
    Diagram::linked(Diagram::linked(started, pair.0, hinge.prev_right), hinge.next_left, pair.1)
}

/// The hinge of an arc that has a neighbour on either side, where all four half edges are
/// set and in the diagram.
pub open spec fn hinge_of(arc: NodeKey, voronoi: &Diagram, beachline: &Beachline) -> Option<Hinge> {
    let rank = beachline.tree.rank(arc);
    if beachline.arcs().contains_key(arc) && 0 < rank && rank + 1 < beachline.order().len() {
        let own = beachline.arcs()[arc];
        let prev = beachline.arcs()[beachline.order()[rank - 1]];
        let next = beachline.arcs()[beachline.order()[rank + 1]];
        if own.left_half_edge.is_some() && own.right_half_edge.is_some()
            && prev.right_half_edge.is_some() && next.left_half_edge.is_some() {
            let hinge = Hinge {
                left: own.left_half_edge.unwrap(),
                right: own.right_half_edge.unwrap(),
                prev_right: prev.right_half_edge.unwrap(),
                next_left: next.left_half_edge.unwrap(),
            };
            if voronoi.half_edges().contains_key(hinge.left) && voronoi.half_edges().contains_key(
                hinge.right,
            ) && voronoi.half_edges().contains_key(hinge.prev_right)
                && voronoi.half_edges().contains_key(hinge.next_left) {
                Some(hinge)
            } else {
                None
            }
        } else {
            None
        }
    } else {
        None
    }
}

/// Finds the hinge of an arc: see `hinge_of`.
pub fn find_hinge(arc: NodeKey, voronoi: &Diagram, beachline: &Beachline) -> (r: Option<Hinge>)
    requires
        voronoi.wf(),
        beachline.tree.wf(),
    ensures
        r == hinge_of(arc, voronoi, beachline),
{
    if !beachline.tree.contains(arc) {
        return None;
    }
    proof {
        beachline.tree.lemma_rank(arc);
        beachline.tree.lemma_order();
    }
    let prev = beachline.tree.get_prev(arc);
    let next = beachline.tree.get_next(arc);
    if prev.is_none() || next.is_none() {
        return None;
    }
    let left = beachline.get_left_half_edge(arc);
    let right = beachline.get_right_half_edge(arc);
    let prev_right = beachline.get_right_half_edge(prev.unwrap());
    let next_left = beachline.get_left_half_edge(next.unwrap());
    if left.is_none() || right.is_none() || prev_right.is_none() || next_left.is_none() {
        return None;
    }
    let hinge = Hinge {
        left: left.unwrap(),
        right: right.unwrap(),
        prev_right: prev_right.unwrap(),
        next_left: next_left.unwrap(),
    };
    if voronoi.has_half_edge(hinge.left) && voronoi.has_half_edge(hinge.right)
        && voronoi.has_half_edge(hinge.prev_right) && voronoi.has_half_edge(hinge.next_left) {
        Some(hinge)
    } else {
        None
    }
}

/// The arcs after an arc was taken off the beachline: the arc is gone, the arc before it
/// has the first half edge of `pair` on its right and the arc behind it the second on its
/// left.
pub open spec fn arc_removed(
    arcs: Map<NodeKey, Arc>,
    arc: NodeKey,
    prev: NodeKey,
    next: NodeKey,
    pair: (HalfEdgeKey, HalfEdgeKey),
) -> Map<NodeKey, Arc> {
    let first = arcs.insert(prev, Arc { right_half_edge: Some(pair.0), ..arcs[prev] });
    first.insert(next, Arc { left_half_edge: Some(pair.1), ..first[next] }).remove(arc)
}

/// Closes the diagram at the vertex to which an arc has shrunk: see `closed_at`. Returns
/// the new edge between the faces of the two neighbours of the arc.
pub fn close_at(
    hinge: Hinge,
    vertex: VertexKey,
    prev_face: FaceKey,
    next_face: FaceKey,
    voronoi: &mut Diagram,
) -> (pair: (HalfEdgeKey, HalfEdgeKey))
    requires
        old(voronoi).wf(),
        old(voronoi).half_edges().contains_key(hinge.left),
        old(voronoi).half_edges().contains_key(hinge.right),
        old(voronoi).half_edges().contains_key(hinge.prev_right),
        old(voronoi).half_edges().contains_key(hinge.next_left),
        old(voronoi).faces().contains_key(prev_face),
        old(voronoi).faces().contains_key(next_face),
        old(voronoi).half_edge_total() + 1 < POOL_LIMIT,
    ensures
        final(voronoi).wf(),
        !old(voronoi).half_edges().contains_key(pair.0),
        !old(voronoi).half_edges().contains_key(pair.1),
        pair.0 != pair.1,
        final(voronoi).half_edges() == closed_at(
            old(voronoi).half_edges(),
            hinge,
            vertex,
            pair,
            prev_face,
            next_face,
        ),
        final(voronoi).faces() == Diagram::faces_with(
            Diagram::faces_with(old(voronoi).faces(), prev_face, pair.0),
            next_face,
            pair.1,
        ),
        final(voronoi).face_order() == old(voronoi).face_order(),
        final(voronoi).vertices_kept(old(voronoi)),
        final(voronoi).half_edge_total() == old(voronoi).half_edge_total() + 2,
        old(voronoi).twins_paired() ==> final(voronoi).twins_paired(),
        old(voronoi).ends_present() && old(voronoi).vertices().contains_key(vertex) ==> final(voronoi).ends_present(),
{
    voronoi.set_half_edge_origin(hinge.prev_right, Some(vertex));
    voronoi.set_half_edge_destination(hinge.left, Some(vertex));
    voronoi.set_half_edge_origin(hinge.right, Some(vertex));
    voronoi.set_half_edge_destination(hinge.next_left, Some(vertex));
    voronoi.link_half_edges(hinge.left, hinge.right);
    let ghost joined = voronoi.half_edges();
    let ghost count = voronoi.half_edge_total();
    assert(count == old(voronoi).half_edge_total()) by {
        assert(joined.dom() =~= old(voronoi).half_edges().dom());
    }
    let pair = voronoi.add_edge(prev_face, next_face);
    let ghost opened = voronoi.half_edges();
    voronoi.set_half_edge_destination(pair.0, Some(vertex));
    voronoi.set_half_edge_origin(pair.1, Some(vertex));
    voronoi.link_half_edges(pair.0, hinge.prev_right);
    voronoi.link_half_edges(hinge.next_left, pair.1);
    proof {
        assert(voronoi.half_edges().dom() =~= opened.dom());
    }
    pair
}

/// Takes an arc that has shrunk to the vertex `vertex` off the beachline and closes the
/// diagram behind it: see `closed_at` and `arc_removed`. Returns the new edge between the
/// faces of the two neighbours. Fails, and changes nothing, where the arc has no hinge.
pub fn remove_arc(arc: NodeKey, vertex: VertexKey, voronoi: &mut Diagram, beachline: &mut Beachline) -> (r: Result<(HalfEdgeKey, HalfEdgeKey), BuildError>)
    requires
        old(voronoi).wf(),
        old(beachline).wf(),
        old(beachline).fits(old(voronoi)),
        old(voronoi).half_edge_total() + 1 < POOL_LIMIT,
    ensures
        final(voronoi).wf(),
        final(beachline).wf(),
        final(beachline).fits(final(voronoi)),
        r.is_ok() == hinge_of(arc, old(voronoi), old(beachline)).is_some(),
        r.is_err() ==> r == Err::<(HalfEdgeKey, HalfEdgeKey), BuildError>(
            BuildError::GeometryInvariant,
        ) && *final(voronoi) == *old(voronoi) && *final(beachline) == *old(beachline),
        r.is_ok() ==> {
            let hinge = hinge_of(arc, old(voronoi), old(beachline)).unwrap();
            let rank = old(beachline).tree.rank(arc);
            let prev = old(beachline).order()[rank - 1];
            let next = old(beachline).order()[rank + 1];
            let prev_face = old(beachline).arcs()[prev].face.unwrap();
            let next_face = old(beachline).arcs()[next].face.unwrap();
            &&& !old(voronoi).half_edges().contains_key(r.unwrap().0)
            &&& !old(voronoi).half_edges().contains_key(r.unwrap().1)
            &&& r.unwrap().0 != r.unwrap().1
            &&& final(voronoi).half_edges() == closed_at(
                old(voronoi).half_edges(),
                hinge,
                vertex,
                r.unwrap(),
                prev_face,
                next_face,
            )
            &&& final(voronoi).faces() == Diagram::faces_with(
                Diagram::faces_with(old(voronoi).faces(), prev_face, r.unwrap().0),
                next_face,
                r.unwrap().1,
            )
            &&& final(voronoi).face_order() == old(voronoi).face_order()
            &&& final(voronoi).vertices_kept(old(voronoi))
            &&& final(voronoi).half_edge_total() == old(voronoi).half_edge_total() + 2
            &&& final(beachline).order() == old(beachline).order().remove(rank)
            &&& final(beachline).arcs() == arc_removed(old(beachline).arcs(), arc, prev, next, r.unwrap())
            &&& (old(voronoi).twins_paired() ==> final(voronoi).twins_paired())
            &&& (old(voronoi).ends_present() && old(voronoi).vertices().contains_key(vertex)
                ==> final(voronoi).ends_present())
            &&& (steady(old(voronoi), old(beachline)) ==> steady(final(voronoi), final(beachline)))
        },
{
    let hinge = match find_hinge(arc, voronoi, beachline) {
        Some(hinge) => hinge,
        None => {
            return Err(BuildError::GeometryInvariant);
        },
    };
    proof {
        beachline.tree.lemma_rank(arc);
    }
    let prev = beachline.tree.get_prev(arc).unwrap();
    let next = beachline.tree.get_next(arc).unwrap();
    proof {
        beachline.tree.lemma_rank_at(beachline.tree.rank(arc) - 1, prev);
        beachline.tree.lemma_rank_at(beachline.tree.rank(arc) + 1, next);
    }
    let prev_face = beachline.get_arc_face(prev).unwrap();
    let next_face = beachline.get_arc_face(next).unwrap();
    let pair = close_at(hinge, vertex, prev_face, next_face, voronoi);
    proof {
        assert(voronoi.faces().dom() =~= old(voronoi).faces().dom());
    }
    drop_arc(arc, prev, next, pair, beachline);
    proof {
        if steady(old(voronoi), old(beachline)) {
            lemma_closed_steady(
                old(voronoi).half_edges(),
                old(beachline).order(),
                old(beachline).arcs(),
                old(beachline).tree.rank(arc),
                vertex,
                pair,
            );
        }
    }
    Ok(pair)
}

/// Takes an arc off the beachline and hands its neighbours the two half edges of the edge
/// between them: see `arc_removed`.
fn drop_arc(arc: NodeKey, prev: NodeKey, next: NodeKey, pair: (HalfEdgeKey, HalfEdgeKey), beachline: &mut Beachline)
    requires
        old(beachline).wf(),
        old(beachline).tree.has(arc),
        old(beachline).tree.has(prev),
        old(beachline).tree.has(next),
    ensures
        final(beachline).wf(),
        final(beachline).order() == old(beachline).order().remove(old(beachline).tree.rank(arc)),
        final(beachline).arcs() == arc_removed(old(beachline).arcs(), arc, prev, next, pair),
{
    beachline.set_right_half_edge(prev, Some(pair.0));
    beachline.set_left_half_edge(next, Some(pair.1));
    beachline.tree.delete_node(arc);
}

/// The arcs after an arc was split for a new site: the arc at `middle` is an arc of
/// `face` between the two half edges of the new edge `pair`; on its sides stand the two
/// parts of the old arc, each with the half edge that the old arc had on that side and,
/// towards the new arc, the first half edge of `pair`. None of the three has an event.
pub open spec fn split_arcs(
    arcs: Map<NodeKey, Arc>,
    middle: NodeKey,
    face: FaceKey,
    sides: (NodeKey, NodeKey),
    pair: (HalfEdgeKey, HalfEdgeKey),
) -> Map<NodeKey, Arc> {
    let old_arc = arcs[middle];
    arcs.insert(
        middle,
        Arc {
            face: Some(face),
            left_half_edge: Some(pair.1),
            right_half_edge: Some(pair.1),
            event_index: QueueIndex { id: None },
        },
    ).insert(
        sides.0,
        Arc {
            face: old_arc.face,
            left_half_edge: old_arc.left_half_edge,
            right_half_edge: Some(pair.0),
            event_index: QueueIndex { id: None },
        },
    ).insert(
        sides.1,
        Arc {
            face: old_arc.face,
            left_half_edge: Some(pair.0),
            right_half_edge: old_arc.right_half_edge,
            event_index: QueueIndex { id: None },
        },
    )
}

/// The half edges with a new edge `pair` between `left_face` and `right_face`.
pub open spec fn with_edge(
    half_edges: Map<HalfEdgeKey, HalfEdge>,
    pair: (HalfEdgeKey, HalfEdgeKey),
    left_face: FaceKey,
    right_face: FaceKey,
) -> Map<HalfEdgeKey, HalfEdge> {
    half_edges.insert(pair.0, HalfEdge { twin: Some(pair.1), ..HalfEdge::fresh(left_face) }).insert(
        pair.1,
        HalfEdge { twin: Some(pair.0), ..HalfEdge::fresh(right_face) },
    )
}

/// What `split_arc` made: the nodes of the arcs on the left and on the right, and the new
/// edge.
#[derive(Clone, Copy, Debug)]
pub struct Split {
    pub left: NodeKey,
    pub right: NodeKey,
    pub pair: (HalfEdgeKey, HalfEdgeKey),
}

/// Splits the arc above a new site: cancels the circle event of the arc, breaks the arc in
/// three, and opens an edge between the face of the arc and the face of the new site.
pub fn split_arc(
    middle_arc: NodeKey,
    face: FaceKey,
    voronoi: &mut Diagram,
    beachline: &mut Beachline,
    event_queue: &mut PriorityQueue,
) -> (made: Split)
    requires
        old(voronoi).wf(),
        old(beachline).wf(),
        old(beachline).fits(old(voronoi)),
        old(beachline).tree.has(middle_arc),
        old(voronoi).faces().contains_key(face),
        old(event_queue).wf(),
        old(voronoi).half_edge_total() + 1 < POOL_LIMIT,
    ensures
        final(voronoi).wf(),
        final(beachline).wf(),
        final(beachline).fits(final(voronoi)),
        final(event_queue).wf(),
        final(event_queue).issued() == old(event_queue).issued(),
        final(event_queue).live() == without(
            old(event_queue).live(),
            old(beachline).arcs()[middle_arc].event_index,
        ),
        made.left != made.right,
        made.pair.0 != made.pair.1,
        !old(beachline).arcs().contains_key(made.left),
        !old(beachline).arcs().contains_key(made.right),
        !old(voronoi).half_edges().contains_key(made.pair.0),
        !old(voronoi).half_edges().contains_key(made.pair.1),
        final(beachline).order() == old(beachline).order().insert(
            old(beachline).tree.rank(middle_arc),
            made.left,
        ).insert(old(beachline).tree.rank(middle_arc) + 2, made.right),
        final(beachline).tree.rank(made.left) == old(beachline).tree.rank(middle_arc),
        final(beachline).tree.rank(middle_arc) == old(beachline).tree.rank(middle_arc) + 1,
        final(beachline).tree.rank(made.right) == old(beachline).tree.rank(middle_arc) + 2,
        final(beachline).arcs() == split_arcs(
            old(beachline).arcs(),
            middle_arc,
            face,
            (made.left, made.right),
            made.pair,
        ),
        final(voronoi).half_edges() == with_edge(
            old(voronoi).half_edges(),
            made.pair,
            old(beachline).arcs()[middle_arc].face.unwrap(),
            face,
        ),
        final(voronoi).faces() == Diagram::faces_with(
            Diagram::faces_with(
                old(voronoi).faces(),
                old(beachline).arcs()[middle_arc].face.unwrap(),
                made.pair.0,
            ),
            face,
            made.pair.1,
        ),
        final(voronoi).face_order() == old(voronoi).face_order(),
        final(voronoi).vertices_kept(old(voronoi)),
        final(voronoi).half_edge_total() == old(voronoi).half_edge_total() + 2,
        old(voronoi).twins_paired() ==> final(voronoi).twins_paired(),
        old(voronoi).links_paired() ==> final(voronoi).links_paired(),
        old(voronoi).ends_present() ==> final(voronoi).ends_present(),
        steady(old(voronoi), old(beachline)) ==> steady(final(voronoi), final(beachline)),
{
    delete_event(middle_arc, beachline, event_queue);
    let (left_arc, right_arc) = beachline.break_arc(middle_arc, face);
    let pair = voronoi.add_edge(
        beachline.get_arc_face(left_arc).unwrap(),
        beachline.get_arc_face(middle_arc).unwrap(),
    );
    beachline.set_right_half_edge(left_arc, Some(pair.0));
    beachline.set_left_half_edge(middle_arc, Some(pair.1));
    beachline.set_right_half_edge(middle_arc, Some(pair.1));
    beachline.set_left_half_edge(right_arc, Some(pair.0));
    proof {
        assert(voronoi.faces().dom() =~= old(voronoi).faces().dom());
        assert(beachline.arcs() =~= split_arcs(
            old(beachline).arcs(),
            middle_arc,
            face,
            (left_arc, right_arc),
            pair,
        ));
    }
    proof {
        if steady(old(voronoi), old(beachline)) {
            old(beachline).tree.lemma_rank(middle_arc);
            lemma_split_steady(
                old(voronoi).half_edges(),
                old(beachline).order(),
                old(beachline).arcs(),
                old(beachline).tree.rank(middle_arc),
                face,
                (left_arc, right_arc),
                pair,
            );
        }
    }
    Split { left: left_arc, right: right_arc, pair }
}

/// The part of a sweep that the circle events live in: the arcs, the events in the queue,
/// and the number of handles that the queue has given out.
pub struct Front {
    pub arcs: Map<NodeKey, Arc>,
    pub live: Map<usize, Event>,
    pub issued: nat,
}

/// The front of a beachline and a queue.
pub open spec fn front_of(beachline: &Beachline, event_queue: &PriorityQueue) -> Front {
    Front { arcs: beachline.arcs(), live: event_queue.live(), issued: event_queue.issued() }
}

/// The front after three arcs that follow each other were looked at, where there were
/// three, and `answer` was what was found for them: the circle event of the one in the
/// middle is entered where it is due.
pub open spec fn checked(
    voronoi: &Diagram,
    front: Front,
    triple: Option<(NodeKey, NodeKey, NodeKey)>,
    current_y: Scalar,
    answer: Option<Answer>,
) -> Front {
    match triple {
        Some(arcs) => {
            let due = due_for(voronoi, front.arcs, arcs, current_y, answer.unwrap());
            Front {
                arcs: scheduled_arcs(front.arcs, arcs.1, front.issued, due),
                live: scheduled_events(front.live, arcs.1, front.issued, due, answer.unwrap().circle),
                issued: front.issued + (if due {
                    1nat
                } else {
                    0nat
                }),
            }
        },
        None => front,
    }
}

/// `answer` is what was found for the arcs `triple`, where there are three, and nothing
/// where there are not.
pub open spec fn answered_if<N: Fn(Scalar, Scalar) -> bool, C: Fn(Point, Point, Point) -> Circle>(
    voronoi: &Diagram,
    arcs: Map<NodeKey, Arc>,
    triple: Option<(NodeKey, NodeKey, NodeKey)>,
    current_y: Scalar,
    near: &N,
    circle: &C,
    answer: Option<Answer>,
) -> bool {
    match triple {
        Some(three) => answer.is_some() && answered(
            voronoi,
            arcs,
            three,
            current_y,
            near,
            circle,
            answer.unwrap(),
        ),
        None => answer.is_none(),
    }
}

/// Looks at the arcs `triple`, where there are three: see `add_event` and `checked`.
pub fn check_triple<N: Fn(Scalar, Scalar) -> bool, C: Fn(Point, Point, Point) -> Circle>(
    triple: Option<(NodeKey, NodeKey, NodeKey)>,
    voronoi: &Diagram,
    beachline: &mut Beachline,
    current_y: Scalar,
    event_queue: &mut PriorityQueue,
    near: &N,
    circle: &C,
) -> (answer: Option<Answer>)
    requires
        voronoi.wf(),
        old(beachline).wf(),
        old(beachline).fits(voronoi),
        triple.is_some() ==> old(beachline).tree.has(triple.unwrap().0) && old(beachline).tree.has(
            triple.unwrap().1,
        ) && old(beachline).tree.has(triple.unwrap().2),
        old(event_queue).wf(),
        forall|a: Scalar, b: Scalar| call_requires(*near, (a, b)),
        forall|a: Point, b: Point, c: Point| call_requires(*circle, (a, b, c)),
    ensures
        final(event_queue).wf(),
        final(beachline).wf(),
        final(beachline).fits(voronoi),
        final(beachline).same_nodes(old(beachline)),
        final(beachline).order() == old(beachline).order(),
        same_seams(final(beachline).arcs(), old(beachline).arcs()),
        answered_if(voronoi, old(beachline).arcs(), triple, current_y, near, circle, answer),
        front_of(final(beachline), final(event_queue)) == checked(
            voronoi,
            front_of(old(beachline), old(event_queue)),
            triple,
            current_y,
            answer,
        ),
{
    match triple {
        Some(arcs) => {
            let answer = add_event(
                arcs.0,
                arcs.1,
                arcs.2,
                voronoi,
                beachline,
                current_y,
                event_queue,
                near,
                circle,
            );
            Some(answer)
        },
        None => {
            proof {
                beachline.tree.lemma_shape_refl();
            }
            None
        },
    }
}

/// What the handler of an event did.
#[derive(Clone, Copy, Debug)]
pub enum Handled {
    /// The first site: the beachline has its first arc, at `root`.
    Started { root: NodeKey },
    /// A later site: the arc at `middle` was found above it and split as `made` says.
    /// `first` and `second` are what was found for the arcs round the left and the right
    /// part of the old arc, where there were three.
    Site { middle: NodeKey, made: Split, first: Option<Answer>, second: Option<Answer> },
    /// A site on the sweep line like the site of the arc `arc`, right beside it: `made`
    /// says what was done. `first`, `second` and `third` are what was found for the arcs
    /// round the neighbour on the left, the new arc and the neighbour on the right, where
    /// there were three.
    Beside {
        arc: NodeKey,
        after: bool,
        joint: Joint,
        first: Option<Answer>,
        second: Option<Answer>,
        third: Option<Answer>,
    },
    /// A circle: its arc has shrunk to the new vertex `vertex` and is gone, and `pair` is
    /// the new edge between the faces of its neighbours. `first` and `second` are what was
    /// found for the arcs round the neighbour on the left and the one on the right, where
    /// there were three.
    Circle {
        vertex: VertexKey,
        pair: (HalfEdgeKey, HalfEdgeKey),
        first: Option<Answer>,
        second: Option<Answer>,
    },
}

/// The three arcs that end with the two given ones, where an arc stands before them.
pub open spec fn triple_before(order: Seq<NodeKey>, rank: int, left: NodeKey, right: NodeKey) -> Option<
    (NodeKey, NodeKey, NodeKey),
> {
    if rank > 0 {
        Some((order[rank - 1], left, right))
    } else {
        None
    }
}

/// The three arcs that begin with the two given ones, where an arc stands behind them.
pub open spec fn triple_behind(order: Seq<NodeKey>, rank: int, left: NodeKey, right: NodeKey) -> Option<
    (NodeKey, NodeKey, NodeKey),
> {
    if rank + 1 < order.len() {
        Some((left, right, order[rank + 1]))
    } else {
        None
    }
}

/// A half edge that has nothing set but its face and its twin.
pub open spec fn is_bare(half_edge: HalfEdge) -> bool {
    &&& half_edge.origin.is_none()
    &&& half_edge.destination.is_none()
    &&& half_edge.prev.is_none()
    &&& half_edge.next.is_none()
}

/// The edge between two arcs that stand next to each other, where it is still as it was
/// made: the right half edge of the arc on the left and the left half edge of the arc on
/// the right are twins in the diagram, and bare.
pub open spec fn open_pair_of(
    voronoi: &Diagram,
    arcs: Map<NodeKey, Arc>,
    left: NodeKey,
    right: NodeKey,
) -> Option<(HalfEdgeKey, HalfEdgeKey)> {
    let l = arcs[left].right_half_edge;
    let r = arcs[right].left_half_edge;
    if l.is_some() && r.is_some() && l != r && voronoi.half_edges().contains_key(l.unwrap())
        && voronoi.half_edges().contains_key(r.unwrap()) && voronoi.half_edges()[l.unwrap()].twin
        == r && voronoi.half_edges()[r.unwrap()].twin == l && is_bare(
        voronoi.half_edges()[l.unwrap()],
    ) && is_bare(voronoi.half_edges()[r.unwrap()]) {
        Some((l.unwrap(), r.unwrap()))
    } else {
        None
    }
}

/// Finds the edge between two arcs where it is still as it was made: see `open_pair_of`.
pub fn find_open_pair(left: NodeKey, right: NodeKey, voronoi: &Diagram, beachline: &Beachline) -> (r:
    Option<(HalfEdgeKey, HalfEdgeKey)>)
    requires
        voronoi.wf(),
        beachline.tree.has(left),
        beachline.tree.has(right),
    ensures
        r == open_pair_of(voronoi, beachline.arcs(), left, right),
{
    let l = match beachline.get_right_half_edge(left) {
        Some(l) => l,
        None => {
            return None;
        },
    };
    let r = match beachline.get_left_half_edge(right) {
        Some(r) => r,
        None => {
            return None;
        },
    };
    if l == r || !voronoi.has_half_edge(l) || !voronoi.has_half_edge(r) {
        return None;
    }
    if voronoi.get_half_edge_twin(l) != Some(r) || voronoi.get_half_edge_twin(r) != Some(l) {
        return None;
    }
    if voronoi.get_half_edge_origin(l).is_some() || voronoi.get_half_edge_destination(l).is_some()
        || voronoi.get_half_edge_prev(l).is_some() || voronoi.get_half_edge_next(l).is_some() {
        return None;
    }
    if voronoi.get_half_edge_origin(r).is_some() || voronoi.get_half_edge_destination(r).is_some()
        || voronoi.get_half_edge_prev(r).is_some() || voronoi.get_half_edge_next(r).is_some() {
        return None;
    }
    Some((l, r))
}

/// The faces after the half edge `half_edge` of the face `face` has left the diagram: where
/// it was the outer component of the face, the face has none.
pub open spec fn unhooked(
    faces: Map<FaceKey, Face>,
    face: Option<FaceKey>,
    half_edge: HalfEdgeKey,
) -> Map<FaceKey, Face> {
    if face.is_some() && faces.contains_key(face.unwrap()) && faces[face.unwrap()].outer_component
        == Some(half_edge) {
        faces.insert(face.unwrap(), Face { outer_component: None, ..faces[face.unwrap()] })
    } else {
        faces
    }
}

/// Takes a half edge out of the diagram; where it was the outer component of its face, the
/// face is left with none.
pub fn unhook(half_edge: HalfEdgeKey, voronoi: &mut Diagram)
    requires
        old(voronoi).wf(),
        old(voronoi).half_edges().contains_key(half_edge),
    ensures
        final(voronoi).wf(),
        final(voronoi).half_edges() == old(voronoi).half_edges().remove(half_edge),
        final(voronoi).faces() == unhooked(
            old(voronoi).faces(),
            old(voronoi).half_edges()[half_edge].incident_face,
            half_edge,
        ),
        final(voronoi).face_order() == old(voronoi).face_order(),
        final(voronoi).vertices_kept(old(voronoi)),
        final(voronoi).half_edge_total() + 1 == old(voronoi).half_edge_total(),
{
    proof {
        voronoi.lemma_finite();
    }
    match voronoi.get_half_edge_incident_face(half_edge) {
        Some(face) => {
            if voronoi.has_face(face) && voronoi.get_face_outer_component(face) == Some(half_edge) {
                voronoi.set_face_outer_component(face, None);
            }
        },
        None => {},
    }
    voronoi.remove_half_edge(half_edge);
}

/// The part of a sweep that an edge between two arcs lives in: the half edges and the faces
/// of the diagram, and the arcs.
pub struct Seam {
    pub half_edges: Map<HalfEdgeKey, HalfEdge>,
    pub faces: Map<FaceKey, Face>,
    pub arcs: Map<NodeKey, Arc>,
}

/// The seam of a diagram and a beachline.
pub open spec fn seam_of(voronoi: &Diagram, beachline: &Beachline) -> Seam {
    Seam { half_edges: voronoi.half_edges(), faces: voronoi.faces(), arcs: beachline.arcs() }
}

/// The seam after a new edge `pair` was opened between the arc `left` and the arc `right`
/// behind it: its first half edge is on the face of `left` and is the right half edge of
/// that arc, its second is on the face of `right` and is the left half edge of that arc.
pub open spec fn welded(seam: Seam, left: NodeKey, right: NodeKey, pair: (HalfEdgeKey, HalfEdgeKey)) -> Seam {
    let left_face = seam.arcs[left].face.unwrap();
    let right_face = seam.arcs[right].face.unwrap();
    let noted = seam.arcs.insert(left, Arc { right_half_edge: Some(pair.0), ..seam.arcs[left] });
    Seam {
        half_edges: with_edge(seam.half_edges, pair, left_face, right_face),
        faces: Diagram::faces_with(
            Diagram::faces_with(seam.faces, left_face, pair.0),
            right_face,
            pair.1,
        ),
        arcs: noted.insert(right, Arc { left_half_edge: Some(pair.1), ..noted[right] }),
    }
}

/// Opens a new edge between two arcs that stand next to each other: see `welded`.
pub fn weld(left: NodeKey, right: NodeKey, voronoi: &mut Diagram, beachline: &mut Beachline) -> (pair: (
    HalfEdgeKey,
    HalfEdgeKey,
))
    requires
        old(voronoi).wf(),
        old(beachline).wf(),
        old(beachline).fits(old(voronoi)),
        old(beachline).tree.has(left),
        old(beachline).tree.has(right),
        old(voronoi).half_edge_total() + 1 < POOL_LIMIT,
    ensures
        final(voronoi).wf(),
        final(beachline).wf(),
        final(beachline).fits(final(voronoi)),
        final(beachline).same_nodes(old(beachline)),
        final(beachline).order() == old(beachline).order(),
        pair.0 != pair.1,
        !old(voronoi).half_edges().contains_key(pair.0),
        !old(voronoi).half_edges().contains_key(pair.1),
        seam_of(final(voronoi), final(beachline)) == welded(
            seam_of(old(voronoi), old(beachline)),
            left,
            right,
            pair,
        ),
        final(voronoi).face_order() == old(voronoi).face_order(),
        final(voronoi).faces().dom() == old(voronoi).faces().dom(),
        final(voronoi).vertices_kept(old(voronoi)),
        final(voronoi).half_edge_total() == old(voronoi).half_edge_total() + 2,
        old(voronoi).twins_paired() ==> final(voronoi).twins_paired(),
        old(voronoi).links_paired() ==> final(voronoi).links_paired(),
        old(voronoi).ends_present() ==> final(voronoi).ends_present(),
        forall|f: FaceKey| #[trigger]
            old(voronoi).faces().contains_key(f) ==> final(voronoi).faces()[f].point == old(voronoi).faces()[f].point,
{
    let pair = voronoi.add_edge(
        beachline.get_arc_face(left).unwrap(),
        beachline.get_arc_face(right).unwrap(),
    );
    beachline.set_right_half_edge(left, Some(pair.0));
    let ghost noted = *beachline;
    beachline.set_left_half_edge(right, Some(pair.1));
    proof {
        assert(voronoi.faces().dom() =~= old(voronoi).faces().dom());
        beachline.tree.lemma_shape_trans(&noted.tree, &old(beachline).tree);
    }
    pair
}

/// What was done for a site that came to stand beside an arc: the node of its arc, the
/// edge between its two neighbours that was taken away, where it has two, and the new
/// edges to the neighbour on the left and to the one on the right, where there is one.
#[derive(Clone, Copy, Debug)]
pub struct Joint {
    pub node: NodeKey,
    pub removed: Option<(HalfEdgeKey, HalfEdgeKey)>,
    pub left_pair: Option<(HalfEdgeKey, HalfEdgeKey)>,
    pub right_pair: Option<(HalfEdgeKey, HalfEdgeKey)>,
}

/// The arc that stands on the left of a new arc beside the arc at place `rank`.
pub open spec fn beside_left(order: Seq<NodeKey>, rank: int, after: bool) -> Option<NodeKey> {
    if after {
        Some(order[rank])
    } else if rank > 0 {
        Some(order[rank - 1])
    } else {
        None
    }
}

/// The arc that stands on the right of a new arc beside the arc at place `rank`.
pub open spec fn beside_right(order: Seq<NodeKey>, rank: int, after: bool) -> Option<NodeKey> {
    if !after {
        Some(order[rank])
    } else if rank + 1 < order.len() {
        Some(order[rank + 1])
    } else {
        None
    }
}

/// A new arc can be put beside the arc `arc`: where it comes to stand between two arcs,
/// the edge between them is still as it was made.
pub open spec fn can_join(voronoi: &Diagram, beachline: &Beachline, arc: NodeKey, after: bool) -> bool {
    let left = beside_left(beachline.order(), beachline.tree.rank(arc), after);
    let right = beside_right(beachline.order(), beachline.tree.rank(arc), after);
    left.is_some() && right.is_some() ==> open_pair_of(
        voronoi,
        beachline.arcs(),
        left.unwrap(),
        right.unwrap(),
    ).is_some()
}

/// The arcs with the circle event of an arc cancelled, where there is such an arc.
pub open spec fn cleared_at(arcs: Map<NodeKey, Arc>, arc: Option<NodeKey>) -> Map<NodeKey, Arc> {
    match arc {
        Some(node) => arcs.insert(node, cleared(arcs[node])),
        None => arcs,
    }
}

/// The events without the circle event of an arc, where there is such an arc.
pub open spec fn without_at(live: Map<usize, Event>, arcs: Map<NodeKey, Arc>, arc: Option<NodeKey>) -> Map<
    usize,
    Event,
> {
    match arc {
        Some(node) => without(live, arcs[node].event_index),
        None => live,
    }
}

/// The seam after the edge `pair` has left the diagram.
pub open spec fn unhooked_pair(seam: Seam, pair: Option<(HalfEdgeKey, HalfEdgeKey)>) -> Seam {
    match pair {
        Some(two) => {
            let first = unhooked(seam.faces, seam.half_edges[two.0].incident_face, two.0);
            Seam {
                half_edges: seam.half_edges.remove(two.0).remove(two.1),
                faces: unhooked(first, seam.half_edges.remove(two.0)[two.1].incident_face, two.1),
                arcs: seam.arcs,
            }
        },
        None => seam,
    }
}

/// The seam after an edge was opened between two arcs, where there are two.
pub open spec fn welded_if(
    seam: Seam,
    left: Option<NodeKey>,
    right: Option<NodeKey>,
    pair: Option<(HalfEdgeKey, HalfEdgeKey)>,
) -> Seam {
    if left.is_some() && right.is_some() {
        welded(seam, left.unwrap(), right.unwrap(), pair.unwrap())
    } else {
        seam
    }
}

/// What the joining of a new arc of `face` beside the arc `arc` leaves of the diagram and
/// the arcs, before the arcs round it are looked at for circle events.
pub open spec fn joined(
    voronoi: &Diagram,
    beachline: &Beachline,
    arc: NodeKey,
    after: bool,
    face: FaceKey,
    made: Joint,
) -> Seam {
    let rank = beachline.tree.rank(arc);
    let left = beside_left(beachline.order(), rank, after);
    let right = beside_right(beachline.order(), rank, after);
    let calm = cleared_at(cleared_at(beachline.arcs(), left), right);
    let bare = unhooked_pair(
        Seam { half_edges: voronoi.half_edges(), faces: voronoi.faces(), arcs: calm },
        made.removed,
    );
    let placed = Seam { arcs: bare.arcs.insert(made.node, Arc::fresh(face)), ..bare };
    welded_if(
        welded_if(placed, left, Some(made.node), made.left_pair),
        Some(made.node),
        right,
        made.right_pair,
    )
}

/// Puts the arc of a new site beside an arc whose site lies on the sweep line like the
/// new one.
///
/// The circle events of the neighbours are cancelled. Where the new arc comes to stand
/// between two arcs, the edge between them, which must still be as it was made, leaves the
/// diagram. Then the new arc is put in, and an edge is opened between it and each of its
/// neighbours. Fails with `GeometryInvariant`, and changes nothing, where the edge between
/// the two neighbours is not as it was made.
#[verifier::rlimit(80)]
pub fn join_arc(
    arc: NodeKey,
    after: bool,
    face: FaceKey,
    voronoi: &mut Diagram,
    beachline: &mut Beachline,
    event_queue: &mut PriorityQueue,
) -> (r: Result<Joint, BuildError>)
    requires
        old(voronoi).wf(),
        old(beachline).wf(),
        old(beachline).fits(old(voronoi)),
        old(beachline).tree.has(arc),
        old(voronoi).faces().contains_key(face),
        old(event_queue).wf(),
        old(voronoi).half_edge_total() + 1 < POOL_LIMIT,
    ensures
        final(voronoi).wf(),
        final(beachline).wf(),
        final(beachline).fits(final(voronoi)),
        final(event_queue).wf(),
        final(event_queue).issued() == old(event_queue).issued(),
        r.is_ok() == can_join(old(voronoi), old(beachline), arc, after),
        final(voronoi).face_order() == old(voronoi).face_order(),
        final(voronoi).faces().dom() == old(voronoi).faces().dom(),
        final(voronoi).vertices_kept(old(voronoi)),
        final(voronoi).half_edge_total() <= old(voronoi).half_edge_total() + 2,
        old(voronoi).ends_present() ==> final(voronoi).ends_present(),
        old(voronoi).twins_paired() ==> final(voronoi).twins_paired(),
        old(voronoi).links_paired() ==> final(voronoi).links_paired(),
        r.is_ok() && steady(old(voronoi), old(beachline)) && (r.unwrap().removed.is_some()
            ==> unshared(old(beachline).arcs(), r.unwrap().removed.unwrap())) ==> steady(
            final(voronoi),
            final(beachline),
        ),
        forall|f: FaceKey| #[trigger]
            old(voronoi).faces().contains_key(f) ==> final(voronoi).faces()[f].point == old(voronoi).faces()[f].point,
        match r {
            Ok(made) => {
                let rank = old(beachline).tree.rank(arc);
                let left = beside_left(old(beachline).order(), rank, after);
                let right = beside_right(old(beachline).order(), rank, after);
                let place = if after {
                    rank + 1
                } else {
                    rank
                };
                &&& !old(beachline).arcs().contains_key(made.node)
                &&& final(beachline).order() == old(beachline).order().insert(place, made.node)
                &&& final(beachline).tree.rank(made.node) == place
                &&& made.removed == (if left.is_some() && right.is_some() {
                    open_pair_of(old(voronoi), old(beachline).arcs(), left.unwrap(), right.unwrap())
                } else {
                    None
                })
                &&& made.left_pair.is_some() == left.is_some()
                &&& made.right_pair.is_some() == right.is_some()
                &&& seam_of(final(voronoi), final(beachline)) == joined(
                    old(voronoi),
                    old(beachline),
                    arc,
                    after,
                    face,
                    made,
                )
                &&& final(event_queue).live() == without_at(
                    without_at(old(event_queue).live(), old(beachline).arcs(), left),
                    cleared_at(old(beachline).arcs(), left),
                    right,
                )
            },
            Err(e) => {
                &&& e == BuildError::GeometryInvariant
                &&& *final(voronoi) == *old(voronoi)
                &&& *final(beachline) == *old(beachline)
                &&& *final(event_queue) == *old(event_queue)
            },
        },
{
    proof {
        beachline.tree.lemma_rank(arc);
        voronoi.lemma_finite();
    }
    let ghost rank = beachline.tree.rank(arc);
    let (left, right) = if after {
        (Some(arc), beachline.tree.get_next(arc))
    } else {
        (beachline.tree.get_prev(arc), Some(arc))
    };
    let removed = if left.is_some() && right.is_some() {
        match find_open_pair(left.unwrap(), right.unwrap(), voronoi, beachline) {
            Some(pair) => Some(pair),
            None => {
                return Err(BuildError::GeometryInvariant);
            },
        }
    } else {
        None
    };
    match left {
        Some(node) => {
            delete_event(node, beachline, event_queue);
        },
        None => {},
    }
    match right {
        Some(node) => {
            delete_event(node, beachline, event_queue);
        },
        None => {},
    }
    match removed {
        Some(pair) => {
            unhook(pair.0, voronoi);
            unhook(pair.1, voronoi);
            proof {
                assert(voronoi.faces().dom() =~= old(voronoi).faces().dom());
            }
        },
        None => {},
    }
    let ghost bare_line = *beachline;
    let ghost bare = *voronoi;
    let node = if after {
        beachline.tree.insert_after(arc, Arc::new(face))
    } else {
        beachline.tree.insert_before(arc, Arc::new(face))
    };
    proof {
        beachline.tree.lemma_rank_at(if after { rank + 1 } else { rank }, node);
        voronoi.lemma_finite();
    }
    let left_pair = match left {
        Some(neighbour) => Some(weld(neighbour, node, voronoi, beachline)),
        None => None,
    };
    let ghost half = *voronoi;
    let right_pair = match right {
        Some(neighbour) => Some(weld(node, neighbour, voronoi, beachline)),
        None => None,
    };
    proof {
        if steady(old(voronoi), old(beachline)) && (removed.is_some() ==> unshared(
            old(beachline).arcs(),
            removed.unwrap(),
        )) {
            let order = old(beachline).order();
            let calm = bare_line.arcs();
            let place = if after {
                rank + 1
            } else {
                rank
            };
            assert(calm.dom() =~= old(beachline).arcs().dom());
            lemma_events_steady(old(voronoi).half_edges(), order, old(beachline).arcs(), calm);
            if left.is_some() && right.is_some() {
                assert(order[place - 1] == left.unwrap() && order[place] == right.unwrap());
                assert(bare.half_edges() =~= crate::steady::bared(
                    old(voronoi).half_edges(),
                    order,
                    calm,
                    place,
                ));
                lemma_join_middle(
                    old(voronoi).half_edges(),
                    order,
                    calm,
                    place,
                    node,
                    face,
                    left_pair.unwrap(),
                    right_pair.unwrap(),
                );
            } else if left.is_some() {
                assert(place == order.len());
                lemma_join_end(
                    old(voronoi).half_edges(),
                    order,
                    calm,
                    true,
                    node,
                    face,
                    left_pair.unwrap(),
                );
            } else {
                assert(place == 0);
                lemma_join_end(
                    old(voronoi).half_edges(),
                    order,
                    calm,
                    false,
                    node,
                    face,
                    right_pair.unwrap(),
                );
            }
        }
    }
    Ok(Joint { node, removed, left_pair, right_pair })
}

/// What the handling of a site that came to stand below the arc `middle` leaves.
pub open spec fn above_handled<
    N: Fn(Scalar, Scalar) -> bool,
    B: Fn(Point, Point, Scalar) -> Scalar,
    C: Fn(Point, Point, Point) -> Circle,
>(
    face: FaceKey,
    initial: &Diagram,
    line: &Beachline,
    queue: &PriorityQueue,
    result: &Diagram,
    result_line: &Beachline,
    result_queue: &PriorityQueue,
    current_y: Scalar,
    near: &N,
    breakpoint: &B,
    circle: &C,
    middle: NodeKey,
    made: Split,
    first: Option<Answer>,
    second: Option<Answer>,
) -> bool {
    let point = initial.faces()[face].point;

    let rank = line.tree.rank(middle);
    let order = line.order().insert(rank, made.left).insert(
        rank + 2,
        made.right,
    );
    let old_face = line.arcs()[middle].face.unwrap();
    let split = Front {
        arcs: split_arcs(
            line.arcs(),
            middle,
            face,
            (made.left, made.right),
            made.pair,
        ),
        live: without(
            queue.live(),
            line.arcs()[middle].event_index,
        ),
        issued: queue.issued(),
    };
    let before = triple_before(order, rank, made.left, middle);
    let behind = triple_behind(order, rank + 2, middle, made.right);
    let half = checked(result, split, before, current_y, first);
    &&& line.order().len() > 0
    &&& line.located(
        point,
        current_y,
        initial,
        near,
        breakpoint,
        Ok(Located::Above { arc: middle }),
    )
    &&& !line.arcs().contains_key(made.left)
    &&& !line.arcs().contains_key(made.right)
    &&& made.left != made.right
    &&& !initial.half_edges().contains_key(made.pair.0)
    &&& !initial.half_edges().contains_key(made.pair.1)
    &&& made.pair.0 != made.pair.1
    &&& result.half_edges() == with_edge(
        initial.half_edges(),
        made.pair,
        old_face,
        face,
    )
    &&& result.faces() == Diagram::faces_with(
        Diagram::faces_with(initial.faces(), old_face, made.pair.0),
        face,
        made.pair.1,
    )
    &&& result_line.order() == order
    &&& answered_if(result, split.arcs, before, current_y, near, circle, first)
    &&& answered_if(result, half.arcs, behind, current_y, near, circle, second)
    &&& front_of(result_line, result_queue) == checked(
        result,
        half,
        behind,
        current_y,
        second,
    )
}

/// What the handling of a site that came to stand beside the arc `arc` leaves.
pub open spec fn beside_handled<
    N: Fn(Scalar, Scalar) -> bool,
    B: Fn(Point, Point, Scalar) -> Scalar,
    C: Fn(Point, Point, Point) -> Circle,
>(
    face: FaceKey,
    initial: &Diagram,
    line: &Beachline,
    queue: &PriorityQueue,
    result: &Diagram,
    result_line: &Beachline,
    result_queue: &PriorityQueue,
    current_y: Scalar,
    near: &N,
    breakpoint: &B,
    circle: &C,
    arc: NodeKey,
    after: bool,
    joint: Joint,
    answers: (Option<Answer>, Option<Answer>, Option<Answer>),
) -> bool {
    let point = initial.faces()[face].point;
    let first = answers.0;
    let second = answers.1;
    let third = answers.2;

    let rank = line.tree.rank(arc);
    let place = if after {
        rank + 1
    } else {
        rank
    };
    let order = line.order().insert(place, joint.node);
    let left = beside_left(line.order(), rank, after);
    let right = beside_right(line.order(), rank, after);
    let seam = joined(initial, line, arc, after, face, joint);
    let start = Front {
        arcs: seam.arcs,
        live: without_at(
            without_at(queue.live(), line.arcs(), left),
            cleared_at(line.arcs(), left),
            right,
        ),
        issued: queue.issued(),
    };
    let round_left = beside_before(order, place, left, joint.node);
    let round_new = beside_between(left, joint.node, right);
    let round_right = beside_behind(order, place, joint.node, right);
    let one = checked(result, start, round_left, current_y, first);
    let two = checked(result, one, round_new, current_y, second);
    &&& line.order().len() > 0
    &&& line.located(
        point,
        current_y,
        initial,
        near,
        breakpoint,
        Ok(Located::Beside { arc, after }),
    )
    &&& can_join(initial, line, arc, after)
    &&& !line.arcs().contains_key(joint.node)
    &&& joint.removed == (if left.is_some() && right.is_some() {
        open_pair_of(initial, line.arcs(), left.unwrap(), right.unwrap())
    } else {
        None
    })
    &&& joint.left_pair.is_some() == left.is_some()
    &&& joint.right_pair.is_some() == right.is_some()
    &&& result.half_edges() == seam.half_edges
    &&& result.faces() == seam.faces
    &&& result_line.order() == order
    &&& answered_if(result, start.arcs, round_left, current_y, near, circle, first)
    &&& answered_if(result, one.arcs, round_new, current_y, near, circle, second)
    &&& answered_if(result, two.arcs, round_right, current_y, near, circle, third)
    &&& front_of(result_line, result_queue) == checked(
        result,
        two,
        round_right,
        current_y,
        third,
    )
}

/// What `handle_site_event` leaves, by what it returns.
pub open spec fn site_handled<
    N: Fn(Scalar, Scalar) -> bool,
    B: Fn(Point, Point, Scalar) -> Scalar,
    C: Fn(Point, Point, Point) -> Circle,
>(
    face: FaceKey,
    initial: &Diagram,
    line: &Beachline,
    queue: &PriorityQueue,
    result: &Diagram,
    result_line: &Beachline,
    result_queue: &PriorityQueue,
    current_y: Scalar,
    near: &N,
    breakpoint: &B,
    circle: &C,
    r: Result<Handled, BuildError>,
) -> bool {
    let point = initial.faces()[face].point;
    match r {
        Ok(Handled::Started { root }) => {
            &&& line.order().len() == 0
            &&& result_line.order() == seq![root]
            &&& result_line.arcs() == Map::<NodeKey, Arc>::empty().insert(
                root,
                Arc::fresh(face),
            )
            &&& result.faces() == initial.faces()
            &&& result.half_edges() == initial.half_edges()
            &&& result_queue.live() == queue.live()
            &&& result_queue.issued() == queue.issued()
        },
        Ok(Handled::Site { middle, made, first, second }) => above_handled(
                face,
                initial,
                line,
                queue,
                result,
                result_line,
                result_queue,
                current_y,
                near,
                breakpoint,
                circle,
                middle,
                made,
                first,
                second,
            ),
        Ok(Handled::Beside { arc, after, joint, first, second, third }) => beside_handled(
                face,
                initial,
                line,
                queue,
                result,
                result_line,
                result_queue,
                current_y,
                near,
                breakpoint,
                circle,
                arc,
                after,
                joint,
                (first, second, third),
            ),
        Ok(Handled::Circle { .. }) => false,
        Err(e) => {
            &&& line.order().len() > 0
            &&& result_line.order() == line.order()
            &&& result_line.arcs() == line.arcs()
            &&& result.faces() == initial.faces()
            &&& result.half_edges() == initial.half_edges()
            &&& result_queue.live() == queue.live()
            &&& result_queue.issued() == queue.issued()
            &&& (e == BuildError::DuplicateSite || e == BuildError::GeometryInvariant)
            &&& (line.located(point, current_y, initial, near, breakpoint, Err(e)) || (e
                == BuildError::GeometryInvariant && exists|arc: NodeKey, after: bool| #[trigger]
                line.located(
                    point,
                    current_y,
                    initial,
                    near,
                    breakpoint,
                    Ok(Located::Beside { arc, after }),
                ) && !can_join(initial, line, arc, after)))
        },
    }
}

/// The three arcs round the left neighbour of a new arc at place `place`, where the
/// neighbour has an arc before it.
pub open spec fn beside_before(order: Seq<NodeKey>, place: int, left: Option<NodeKey>, node: NodeKey) -> Option<
    (NodeKey, NodeKey, NodeKey),
> {
    match left {
        Some(neighbour) => triple_before(order, place - 1, neighbour, node),
        None => None,
    }
}

/// The three arcs round a new arc, where it has a neighbour on either side.
pub open spec fn beside_between(left: Option<NodeKey>, node: NodeKey, right: Option<NodeKey>) -> Option<
    (NodeKey, NodeKey, NodeKey),
> {
    if left.is_some() && right.is_some() {
        Some((left.unwrap(), node, right.unwrap()))
    } else {
        None
    }
}

/// The three arcs round the right neighbour of a new arc at place `place`, where the
/// neighbour has an arc behind it.
pub open spec fn beside_behind(order: Seq<NodeKey>, place: int, node: NodeKey, right: Option<NodeKey>) -> Option<
    (NodeKey, NodeKey, NodeKey),
> {
    match right {
        Some(neighbour) => triple_behind(order, place + 1, node, neighbour),
        None => None,
    }
}


/// The edge that was taken away when an arc was joined to the beachline was the edge of
/// its two neighbours alone: see `unshared`.
pub open spec fn joint_is_loose(arcs: Map<NodeKey, Arc>, joint: Joint) -> bool {
    joint.removed.is_some() ==> unshared(arcs, joint.removed.unwrap())
}

/// What is asked of the outcome of an event for the diagram and the beachline to stay as
/// between two events: where an arc was joined to the beachline between two others, the
/// edge that was taken away was theirs alone.
pub open spec fn outcome_is_loose(arcs: Map<NodeKey, Arc>, r: Result<Handled, BuildError>) -> bool {
    match r {
        Ok(Handled::Beside { joint, .. }) => joint_is_loose(arcs, joint),
        _ => true,
    }
}

/// Handles the event of a site that was found to stand below the arc `arc`: see
/// `handle_site_event` and `above_handled`.
#[verifier::rlimit(60)]
pub fn handle_site_above<
    N: Fn(Scalar, Scalar) -> bool,
    B: Fn(Point, Point, Scalar) -> Scalar,
    C: Fn(Point, Point, Point) -> Circle,
>(
    arc: NodeKey,
    face: FaceKey,
    voronoi: &mut Diagram,
    beachline: &mut Beachline,
    current_y: Scalar,
    event_queue: &mut PriorityQueue,
    near: &N,
    breakpoint: &B,
    circle: &C,
) -> (r: (Split, Option<Answer>, Option<Answer>))
    requires
        old(voronoi).wf(),
        old(beachline).wf(),
        old(beachline).fits(old(voronoi)),
        old(voronoi).faces().contains_key(face),
        old(event_queue).wf(),
        old(voronoi).half_edge_total() + 1 < POOL_LIMIT,
        forall|a: Scalar, b: Scalar| call_requires(*near, (a, b)),
        forall|a: Point, b: Point, c: Scalar| call_requires(*breakpoint, (a, b, c)),
        forall|a: Point, b: Point, c: Point| call_requires(*circle, (a, b, c)),
        old(beachline).located(
            old(voronoi).faces()[face].point,
            current_y,
            old(voronoi),
            near,
            breakpoint,
            Ok(Located::Above { arc }),
        ),
        old(beachline).tree.has(arc),
    ensures
        final(voronoi).wf(),
        final(beachline).wf(),
        final(beachline).fits(final(voronoi)),
        final(event_queue).wf(),
        old(voronoi).twins_paired() ==> final(voronoi).twins_paired(),
        old(voronoi).links_paired() ==> final(voronoi).links_paired(),
        old(voronoi).ends_present() ==> final(voronoi).ends_present(),
        steady(old(voronoi), old(beachline)) ==> steady(final(voronoi), final(beachline)),
        final(voronoi).half_edge_total() <= old(voronoi).half_edge_total() + 2,
        final(voronoi).vertex_total() <= old(voronoi).vertex_total() + 1,
        final(voronoi).face_order() == old(voronoi).face_order(),
        final(voronoi).faces().dom() == old(voronoi).faces().dom(),
        final(voronoi).vertices_kept(old(voronoi)),
        forall|f: FaceKey| #[trigger]
            old(voronoi).faces().contains_key(f) ==> final(voronoi).faces()[f].point == old(voronoi).faces()[f].point,
        above_handled(
            face,
            old(voronoi),
            old(beachline),
            old(event_queue),
            final(voronoi),
            final(beachline),
            final(event_queue),
            current_y,
            near,
            breakpoint,
            circle,
            arc,
            r.0,
            r.1,
            r.2,
        ),
{
    proof {
        beachline.tree.lemma_rank(arc);
        beachline.tree.lemma_order();
    }
    let made = split_arc(arc, face, voronoi, beachline, event_queue);
    let ghost split_line = *beachline;
    let prev_arc = beachline.tree.get_prev(made.left);
    let before = match prev_arc {
        Some(prev) => Some((prev, made.left, arc)),
        None => None,
    };
    let first = check_triple(before, voronoi, beachline, current_y, event_queue, near, circle);
    let ghost half_line = *beachline;
    let next_arc = beachline.tree.get_next(made.right);
    let behind = match next_arc {
        Some(next) => Some((arc, made.right, next)),
        None => None,
    };
    let second = check_triple(behind, voronoi, beachline, current_y, event_queue, near, circle);
    proof {
        if steady(old(voronoi), old(beachline)) {
            lemma_events_steady(
                voronoi.half_edges(),
                split_line.order(),
                split_line.arcs(),
                half_line.arcs(),
            );
            lemma_events_steady(
                voronoi.half_edges(),
                half_line.order(),
                half_line.arcs(),
                beachline.arcs(),
            );
        }
    }
    (made, first, second)
}

/// Handles the event of a site that was found to stand beside the arc `arc`: see
/// `handle_site_event` and `beside_handled`. Fails as `join_arc` does, and then changes
/// nothing.
#[verifier::spinoff_prover]
#[verifier::rlimit(100)]
pub fn handle_site_beside<
    N: Fn(Scalar, Scalar) -> bool,
    B: Fn(Point, Point, Scalar) -> Scalar,
    C: Fn(Point, Point, Point) -> Circle,
>(
    arc: NodeKey,
    after: bool,
    face: FaceKey,
    voronoi: &mut Diagram,
    beachline: &mut Beachline,
    current_y: Scalar,
    event_queue: &mut PriorityQueue,
    near: &N,
    breakpoint: &B,
    circle: &C,
) -> (r: Result<(Joint, (Option<Answer>, Option<Answer>, Option<Answer>)), BuildError>)
    requires
        old(voronoi).wf(),
        old(beachline).wf(),
        old(beachline).fits(old(voronoi)),
        old(voronoi).faces().contains_key(face),
        old(event_queue).wf(),
        old(voronoi).half_edge_total() + 1 < POOL_LIMIT,
        forall|a: Scalar, b: Scalar| call_requires(*near, (a, b)),
        forall|a: Point, b: Point, c: Scalar| call_requires(*breakpoint, (a, b, c)),
        forall|a: Point, b: Point, c: Point| call_requires(*circle, (a, b, c)),
        old(beachline).located(
            old(voronoi).faces()[face].point,
            current_y,
            old(voronoi),
            near,
            breakpoint,
            Ok(Located::Beside { arc, after }),
        ),
        old(beachline).tree.has(arc),
    ensures
        final(voronoi).wf(),
        final(beachline).wf(),
        final(beachline).fits(final(voronoi)),
        final(event_queue).wf(),
        old(voronoi).twins_paired() ==> final(voronoi).twins_paired(),
        old(voronoi).links_paired() ==> final(voronoi).links_paired(),
        old(voronoi).ends_present() ==> final(voronoi).ends_present(),
        r.is_ok() && steady(old(voronoi), old(beachline)) && joint_is_loose(
            old(beachline).arcs(),
            r.unwrap().0,
        ) ==> steady(final(voronoi), final(beachline)),
        final(voronoi).half_edge_total() <= old(voronoi).half_edge_total() + 2,
        final(voronoi).vertex_total() <= old(voronoi).vertex_total() + 1,
        final(voronoi).face_order() == old(voronoi).face_order(),
        final(voronoi).faces().dom() == old(voronoi).faces().dom(),
        final(voronoi).vertices_kept(old(voronoi)),
        forall|f: FaceKey| #[trigger]
            old(voronoi).faces().contains_key(f) ==> final(voronoi).faces()[f].point == old(voronoi).faces()[f].point,
        r.is_ok() == can_join(old(voronoi), old(beachline), arc, after),
        match r {
            Ok(done) => beside_handled(
                face,
                old(voronoi),
                old(beachline),
                old(event_queue),
                final(voronoi),
                final(beachline),
                final(event_queue),
                current_y,
                near,
                breakpoint,
                circle,
                arc,
                after,
                done.0,
                done.1,
            ),
            Err(e) => {
                &&& e == BuildError::GeometryInvariant
                &&& *final(voronoi) == *old(voronoi)
                &&& *final(beachline) == *old(beachline)
                &&& *final(event_queue) == *old(event_queue)
            },
        },
{
    proof {
        beachline.tree.lemma_rank(arc);
        beachline.tree.lemma_order();
    }
    let joint = match join_arc(arc, after, face, voronoi, beachline, event_queue) {
        Ok(joint) => joint,
        Err(e) => {
            return Err(e);
        },
    };
    let ghost joined_line = *beachline;
    let left = beachline.tree.get_prev(joint.node);
    let right = beachline.tree.get_next(joint.node);
    let round_left = match left {
        Some(neighbour) => {
            match beachline.tree.get_prev(neighbour) {
                Some(prev) => Some((prev, neighbour, joint.node)),
                None => None,
            }
        },
        None => None,
    };
    let first = check_triple(round_left, voronoi, beachline, current_y, event_queue, near, circle);
    let ghost one_line = *beachline;
    let round_new = if left.is_some() && right.is_some() {
        Some((left.unwrap(), joint.node, right.unwrap()))
    } else {
        None
    };
    let second = check_triple(round_new, voronoi, beachline, current_y, event_queue, near, circle);
    let ghost two_line = *beachline;
    let round_right = match right {
        Some(neighbour) => {
            match beachline.tree.get_next(neighbour) {
                Some(next) => Some((joint.node, neighbour, next)),
                None => None,
            }
        },
        None => None,
    };
    let third = check_triple(round_right, voronoi, beachline, current_y, event_queue, near, circle);
    proof {
        if steady(old(voronoi), old(beachline)) && joint_is_loose(old(beachline).arcs(), joint) {
            lemma_events_steady(
                voronoi.half_edges(),
                joined_line.order(),
                joined_line.arcs(),
                one_line.arcs(),
            );
            lemma_events_steady(
                voronoi.half_edges(),
                one_line.order(),
                one_line.arcs(),
                two_line.arcs(),
            );
            lemma_events_steady(
                voronoi.half_edges(),
                two_line.order(),
                two_line.arcs(),
                beachline.arcs(),
            );
        }
    }
    Ok((joint, (first, second, third)))
}

/// Handles the event of a site.
///
/// The first site makes the first arc. For every later one the place of the site on the
/// beachline is found (see `Beachline::locate_arc_above`). Where the site comes to stand
/// below an arc, the circle event of that arc is cancelled and the arc split (see
/// `split_arc`); where it comes to stand beside an arc, its arc is joined to the beachline
/// there (see `join_arc`). Then the arcs round the new arcs are looked at for circle events
/// (see `checked`). Fails as `locate_arc_above` and `join_arc` do, and then changes
/// nothing.
#[verifier::rlimit(60)]
pub fn handle_site_event<
    N: Fn(Scalar, Scalar) -> bool,
    B: Fn(Point, Point, Scalar) -> Scalar,
    C: Fn(Point, Point, Point) -> Circle,
>(
    face: FaceKey,
    voronoi: &mut Diagram,
    beachline: &mut Beachline,
    current_y: Scalar,
    event_queue: &mut PriorityQueue,
    near: &N,
    breakpoint: &B,
    circle: &C,
) -> (r: Result<Handled, BuildError>)
    requires
        old(voronoi).wf(),
        old(beachline).wf(),
        old(beachline).fits(old(voronoi)),
        old(voronoi).faces().contains_key(face),
        old(event_queue).wf(),
        old(voronoi).half_edge_total() + 1 < POOL_LIMIT,
        forall|a: Scalar, b: Scalar| call_requires(*near, (a, b)),
        forall|a: Point, b: Point, c: Scalar| call_requires(*breakpoint, (a, b, c)),
        forall|a: Point, b: Point, c: Point| call_requires(*circle, (a, b, c)),
    ensures
        final(voronoi).wf(),
        final(beachline).wf(),
        final(beachline).fits(final(voronoi)),
        final(event_queue).wf(),
        old(voronoi).twins_paired() ==> final(voronoi).twins_paired(),
        old(voronoi).links_paired() ==> final(voronoi).links_paired(),
        old(voronoi).ends_present() ==> final(voronoi).ends_present(),
        steady(old(voronoi), old(beachline)) && outcome_is_loose(old(beachline).arcs(), r) ==> steady(
            final(voronoi),
            final(beachline),
        ),
        final(voronoi).half_edge_total() <= old(voronoi).half_edge_total() + 2,
        final(voronoi).vertex_total() <= old(voronoi).vertex_total() + 1,
        final(voronoi).face_order() == old(voronoi).face_order(),
        final(voronoi).faces().dom() == old(voronoi).faces().dom(),
        final(voronoi).vertices_kept(old(voronoi)),
        forall|f: FaceKey| #[trigger]
            old(voronoi).faces().contains_key(f) ==> final(voronoi).faces()[f].point == old(voronoi).faces()[f].point,
        site_handled(
            face,
            old(voronoi),
            old(beachline),
            old(event_queue),
            final(voronoi),
            final(beachline),
            final(event_queue),
            current_y,
            near,
            breakpoint,
            circle,
            r,
        ),
{
    proof {
        beachline.tree.lemma_order();
    }
    if !beachline.tree.has_root() {
        let root = beachline.create_root(face);
        proof {
            if steady(old(voronoi), old(beachline)) {
                lemma_steady_root(voronoi.half_edges(), root, face);
            }
        }
        return Ok(Handled::Started { root });
    }
    let point = voronoi.get_face_point(face);
    match beachline.locate_arc_above(point, current_y, voronoi, near, breakpoint) {
        Err(e) => Err(e),
        Ok(Located::Above { arc }) => {
            let (made, first, second) = handle_site_above(
                arc,
                face,
                voronoi,
                beachline,
                current_y,
                event_queue,
                near,
                breakpoint,
                circle,
            );
            Ok(Handled::Site { middle: arc, made, first, second })
        },
        Ok(Located::Beside { arc, after }) => {
            match handle_site_beside(
                arc,
                after,
                face,
                voronoi,
                beachline,
                current_y,
                event_queue,
                near,
                breakpoint,
                circle,
            ) {
                Ok((joint, answers)) => Ok(
                    Handled::Beside {
                        arc,
                        after,
                        joint,
                        first: answers.0,
                        second: answers.1,
                        third: answers.2,
                    },
                ),
                Err(e) => Err(e),
            }
        },
    }
}

/// What `handle_circle_event` leaves, by what it returns.
pub open spec fn circle_handled<N: Fn(Scalar, Scalar) -> bool, C: Fn(Point, Point, Point) -> Circle>(
    point: Point,
    arc: NodeKey,
    initial: &Diagram,
    line: &Beachline,
    queue: &PriorityQueue,
    result: &Diagram,
    result_line: &Beachline,
    result_queue: &PriorityQueue,
    y: Scalar,
    near: &N,
    circle: &C,
    r: Result<Handled, BuildError>,
) -> bool {
    match r {
        Ok(Handled::Circle { vertex, pair, first, second }) => {
            let hinge = hinge_of(arc, initial, line).unwrap();
            let rank = line.tree.rank(arc);
            let left = line.order()[rank - 1];
            let right = line.order()[rank + 1];
            let left_face = line.arcs()[left].face.unwrap();
            let right_face = line.arcs()[right].face.unwrap();
            let order = line.order().remove(rank);
            let cancelled = circle_cancelled(
                line.arcs(),
                queue.live(),
                left,
                right,
            );
            let closed = Front {
                arcs: arc_removed(cancelled.0, arc, left, right, pair),
                live: cancelled.1,
                issued: queue.issued(),
            };
            let before = triple_before(order, rank - 1, left, right);
            let behind = triple_behind(order, rank, left, right);
            let half = checked(result, closed, before, y, first);
            &&& hinge_of(arc, initial, line).is_some()
            &&& !initial.vertices().contains_key(vertex)
            &&& result.vertices() == initial.vertices().insert(
                vertex,
                crate::diagram::Vertex { point },
            )
            &&& !initial.half_edges().contains_key(pair.0)
            &&& !initial.half_edges().contains_key(pair.1)
            &&& pair.0 != pair.1
            &&& result.half_edges() == closed_at(
                initial.half_edges(),
                hinge,
                vertex,
                pair,
                left_face,
                right_face,
            )
            &&& result.faces() == Diagram::faces_with(
                Diagram::faces_with(initial.faces(), left_face, pair.0),
                right_face,
                pair.1,
            )
            &&& result_line.order() == order
            &&& answered_if(result, closed.arcs, before, y, near, circle, first)
            &&& answered_if(result, half.arcs, behind, y, near, circle, second)
            &&& front_of(result_line, result_queue) == checked(
                result,
                half,
                behind,
                y,
                second,
            )
        },
        Ok(_) => false,
        Err(e) => {
            &&& e == BuildError::GeometryInvariant
            &&& *result == *initial
            &&& *result_line == *line
            &&& *result_queue == *queue
        },
    }
}

/// Handles a circle event: the arc `arc` has shrunk to `point`.
///
/// A vertex is made at the point, the circle events of the two neighbours of the arc are
/// cancelled, the diagram is closed at the vertex and the arc taken off the beachline (see
/// `remove_arc`); then the arcs round the two neighbours are looked at for circle events
/// (see `checked`). Fails with `GeometryInvariant`, and changes nothing, where the arc is
/// not on the beachline or has no hinge.
#[verifier::rlimit(60)]
pub fn handle_circle_event<N: Fn(Scalar, Scalar) -> bool, C: Fn(Point, Point, Point) -> Circle>(
    point: Point,
    arc: NodeKey,
    voronoi: &mut Diagram,
    beachline: &mut Beachline,
    y: Scalar,
    event_queue: &mut PriorityQueue,
    near: &N,
    circle: &C,
) -> (r: Result<Handled, BuildError>)
    requires
        old(voronoi).wf(),
        old(beachline).wf(),
        old(beachline).fits(old(voronoi)),
        old(event_queue).wf(),
        old(voronoi).half_edge_total() + 1 < POOL_LIMIT,
        old(voronoi).vertex_total() < POOL_LIMIT,
        forall|a: Scalar, b: Scalar| call_requires(*near, (a, b)),
        forall|a: Point, b: Point, c: Point| call_requires(*circle, (a, b, c)),
    ensures
        final(voronoi).wf(),
        final(beachline).wf(),
        final(beachline).fits(final(voronoi)),
        final(event_queue).wf(),
        old(voronoi).twins_paired() ==> final(voronoi).twins_paired(),
        old(voronoi).ends_present() ==> final(voronoi).ends_present(),
        steady(old(voronoi), old(beachline)) ==> steady(final(voronoi), final(beachline)),
        final(voronoi).half_edge_total() <= old(voronoi).half_edge_total() + 2,
        final(voronoi).vertex_total() <= old(voronoi).vertex_total() + 1,
        final(voronoi).face_order() == old(voronoi).face_order(),
        final(voronoi).faces().dom() == old(voronoi).faces().dom(),
        forall|f: FaceKey| #[trigger]
            old(voronoi).faces().contains_key(f) ==> final(voronoi).faces()[f].point == old(voronoi).faces()[f].point,
        r.is_ok() == hinge_of(arc, old(voronoi), old(beachline)).is_some(),
        circle_handled(
            point,
            arc,
            old(voronoi),
            old(beachline),
            old(event_queue),
            final(voronoi),
            final(beachline),
            final(event_queue),
            y,
            near,
            circle,
            r,
        ),
{
    if find_hinge(arc, voronoi, beachline).is_none() {
        return Err(BuildError::GeometryInvariant);
    }
    proof {
        beachline.tree.lemma_rank(arc);
    }
    let ghost rank = beachline.tree.rank(arc);
    let vertex = voronoi.add_vertex(point);
    let left_arc = beachline.tree.get_prev(arc).unwrap();
    let right_arc = beachline.tree.get_next(arc).unwrap();
    proof {
        beachline.tree.lemma_rank_at(rank - 1, left_arc);
        beachline.tree.lemma_rank_at(rank + 1, right_arc);
    }
    delete_event(left_arc, beachline, event_queue);
    let ghost one_line = *beachline;
    delete_event(right_arc, beachline, event_queue);
    proof {
        if steady(old(voronoi), old(beachline)) {
            lemma_events_steady(
                voronoi.half_edges(),
                old(beachline).order(),
                old(beachline).arcs(),
                one_line.arcs(),
            );
            lemma_events_steady(
                voronoi.half_edges(),
                one_line.order(),
                one_line.arcs(),
                beachline.arcs(),
            );
        }
    }
    let ghost cleared_line = *beachline;
    proof {
        assert(voronoi.half_edges().dom() =~= old(voronoi).half_edges().dom());
        assert(hinge_of(arc, voronoi, beachline) == hinge_of(arc, old(voronoi), old(beachline)));
        assert(voronoi.faces().dom() =~= old(voronoi).faces().dom());
    }
    let pair = match remove_arc(arc, vertex, voronoi, beachline) {
        Ok(pair) => pair,
        Err(e) => {
            return Err(e);
        },
    };
    proof {
        assert(voronoi.faces().dom() =~= old(voronoi).faces().dom());
    }
    proof {
        beachline.tree.lemma_rank_at(rank - 1, left_arc);
        beachline.tree.lemma_rank_at(rank, right_arc);
    }
    let prev_arc = beachline.tree.get_prev(left_arc);
    let before = match prev_arc {
        Some(prev) => Some((prev, left_arc, right_arc)),
        None => None,
    };
    let ghost closed_line = *beachline;
    let first = check_triple(before, voronoi, beachline, y, event_queue, near, circle);
    let ghost half_line = *beachline;
    let next_arc = beachline.tree.get_next(right_arc);
    let behind = match next_arc {
        Some(next) => Some((left_arc, right_arc, next)),
        None => None,
    };
    let second = check_triple(behind, voronoi, beachline, y, event_queue, near, circle);
    proof {
        if steady(old(voronoi), old(beachline)) {
            lemma_events_steady(
                voronoi.half_edges(),
                closed_line.order(),
                closed_line.arcs(),
                half_line.arcs(),
            );
            lemma_events_steady(
                voronoi.half_edges(),
                half_line.order(),
                half_line.arcs(),
                beachline.arcs(),
            );
        }
    }
    Ok(Handled::Circle { vertex, pair, first, second })
}

/// The arcs and the events after the circle events of the arcs `left` and `right` were
/// cancelled, first that of `left`.
pub open spec fn circle_cancelled(
    arcs: Map<NodeKey, Arc>,
    live: Map<usize, Event>,
    left: NodeKey,
    right: NodeKey,
) -> (Map<NodeKey, Arc>, Map<usize, Event>) {
    let first_arcs = arcs.insert(left, cleared(arcs[left]));
    let first_live = without(live, arcs[left].event_index);
    (
        first_arcs.insert(right, cleared(first_arcs[right])),
        without(first_live, first_arcs[right].event_index),
    )
}

/// Handles an event of the sweep: see `handle_site_event` and `handle_circle_event`.
pub fn handle_event<
    N: Fn(Scalar, Scalar) -> bool,
    B: Fn(Point, Point, Scalar) -> Scalar,
    C: Fn(Point, Point, Point) -> Circle,
>(
    event_type: &EventType,
    voronoi: &mut Diagram,
    beachline: &mut Beachline,
    current_y: Scalar,
    event_queue: &mut PriorityQueue,
    near: &N,
    breakpoint: &B,
    circle: &C,
) -> (r: Result<Handled, BuildError>)
    requires
        old(voronoi).wf(),
        old(beachline).wf(),
        old(beachline).fits(old(voronoi)),
        old(event_queue).wf(),
        old(voronoi).half_edge_total() + 1 < POOL_LIMIT,
        old(voronoi).vertex_total() < POOL_LIMIT,
        *event_type matches EventType::SiteEvent { face } ==> old(voronoi).faces().contains_key(face),
        forall|a: Scalar, b: Scalar| call_requires(*near, (a, b)),
        forall|a: Point, b: Point, c: Scalar| call_requires(*breakpoint, (a, b, c)),
        forall|a: Point, b: Point, c: Point| call_requires(*circle, (a, b, c)),
    ensures
        final(voronoi).wf(),
        final(beachline).wf(),
        final(beachline).fits(final(voronoi)),
        final(event_queue).wf(),
        old(voronoi).twins_paired() ==> final(voronoi).twins_paired(),
        old(voronoi).ends_present() ==> final(voronoi).ends_present(),
        steady(old(voronoi), old(beachline)) && outcome_is_loose(old(beachline).arcs(), r) ==> steady(
            final(voronoi),
            final(beachline),
        ),
        final(voronoi).half_edge_total() <= old(voronoi).half_edge_total() + 2,
        final(voronoi).vertex_total() <= old(voronoi).vertex_total() + 1,
        final(voronoi).face_order() == old(voronoi).face_order(),
        final(voronoi).faces().dom() == old(voronoi).faces().dom(),
        forall|f: FaceKey| #[trigger]
            old(voronoi).faces().contains_key(f) ==> final(voronoi).faces()[f].point == old(voronoi).faces()[f].point,
        match *event_type {
            EventType::SiteEvent { face } => site_handled(
                face,
                old(voronoi),
                old(beachline),
                old(event_queue),
                final(voronoi),
                final(beachline),
                final(event_queue),
                current_y,
                near,
                breakpoint,
                circle,
                r,
            ),
            EventType::CircleEvent { point, arc } => circle_handled(
                point,
                arc,
                old(voronoi),
                old(beachline),
                old(event_queue),
                final(voronoi),
                final(beachline),
                final(event_queue),
                current_y,
                near,
                circle,
                r,
            ),
        },
{
    match *event_type {
        EventType::SiteEvent { face } => handle_site_event(
            face,
            voronoi,
            beachline,
            current_y,
            event_queue,
            near,
            breakpoint,
            circle,
        ),
        EventType::CircleEvent { point, arc } => handle_circle_event(
            point,
            arc,
            voronoi,
            beachline,
            current_y,
            event_queue,
            near,
            circle,
        ),
    }
}

/// The box in which the open edges of a diagram are closed: the unit square, grown to
/// hold every vertex of the diagram.
pub open spec fn bound_of(voronoi: &Diagram) -> BoundingBox {
    (BoundingBox {
        left: Scalar { key: 0 },
        right: Scalar { key: crate::scalar::ONE_KEY },
        top: Scalar { key: 0 },
        bottom: Scalar { key: crate::scalar::ONE_KEY },
    }).hull_spec(voronoi.vertex_points())
}

/// Finds the box that holds the unit square and every vertex of the diagram, and closes
/// the edges that the sweep has left open against it: see `Beachline::complete_edges`.
/// Returns the box.
pub fn bound_diagram<R: Fn(BoundingBox, Point, Point) -> (Point, Side)>(
    voronoi: &mut Diagram,
    beachline: &Beachline,
    exit: &R,
) -> (r: (BoundingBox, Result<(), BuildError>))
    requires
        beachline.wf(),
        beachline.fits(old(voronoi)),
        old(voronoi).wf(),
        forall|b: BoundingBox, p: Point, q: Point| call_requires(*exit, (b, p, q)),
    ensures
        r.0 == bound_of(old(voronoi)),
        final(voronoi).grown(old(voronoi)),
        beachline.order().len() <= 1 && old(voronoi).half_edge_total() == 0 ==> r.1.is_ok() && final(voronoi).vertices()
            == old(voronoi).vertices() && final(voronoi).half_edges() == old(voronoi).half_edges()
            && final(voronoi).faces() == old(voronoi).faces(),
        r.1.is_err() ==> r.1 == Err::<(), BuildError>(BuildError::GeometryInvariant),
        r.1.is_ok() && edges_apart(beachline.arcs()) ==> forall|i: int|
            0 <= i < beachline.order().len() - 1 ==> #[trigger] beachline.seam_ended(
                old(voronoi),
                final(voronoi),
                r.0,
                exit,
                i,
            ),
        r.1.is_ok() ==> beachline.edges_completed(r.0, exit, old(voronoi), final(voronoi)),
        r.1.is_err() ==> beachline.completion_refused(r.0, exit, old(voronoi)),
{
    let points = voronoi.get_vertex_points();
    let bbox = BoundingBox::unit().hull(&points);
    let closed = beachline.complete_edges(&bbox, voronoi, exit);
    (bbox, closed)
}

/// The number of site events among the events.
pub open spec fn site_count(live: Map<usize, Event>) -> nat {
    live.dom().filter(|id: usize| live[id].event_type is SiteEvent).len()
}

/// Taking an event away leaves no more site events, and one less where it was one.
pub proof fn lemma_site_count_remove(live: Map<usize, Event>, id: usize)
    requires
        live.dom().finite(),
    ensures
        site_count(live.remove(id)) <= site_count(live),
        live.contains_key(id) && live[id].event_type is SiteEvent ==> site_count(live.remove(id)) + 1
            == site_count(live),
{
    let sites = live.dom().filter(|k: usize| live[k].event_type is SiteEvent);
    let rest = live.remove(id).dom().filter(|k: usize| live.remove(id)[k].event_type is SiteEvent);
    live.dom().lemma_len_filter(|k: usize| live[k].event_type is SiteEvent);
    assert(rest =~= sites.remove(id));
}

/// A new event that is no site event leaves the number of site events as it is, and a new
/// site event makes it one more.
pub proof fn lemma_site_count_insert(live: Map<usize, Event>, id: usize, event: Event)
    requires
        live.dom().finite(),
        !live.contains_key(id),
    ensures
        site_count(live.insert(id, event)) == site_count(live) + (if event.event_type is SiteEvent {
            1nat
        } else {
            0nat
        }),
{
    let sites = live.dom().filter(|k: usize| live[k].event_type is SiteEvent);
    let more = live.insert(id, event).dom().filter(
        |k: usize| live.insert(id, event)[k].event_type is SiteEvent,
    );
    live.dom().lemma_len_filter(|k: usize| live[k].event_type is SiteEvent);
    if event.event_type is SiteEvent {
        assert(more =~= sites.insert(id));
    } else {
        assert(more =~= sites);
    }
}

/// The events of a front are finitely many, and each has a handle that was given out.
pub open spec fn front_ok(front: Front) -> bool {
    &&& front.live.dom().finite()
    &&& forall|id: usize| #[trigger] front.live.contains_key(id) ==> id < front.issued
}

/// Looking at three arcs leaves the number of site events as it is.
pub proof fn lemma_checked_sites(
    voronoi: &Diagram,
    front: Front,
    triple: Option<(NodeKey, NodeKey, NodeKey)>,
    current_y: Scalar,
    answer: Option<Answer>,
)
    requires
        front_ok(front),
        front.issued < usize::MAX,
    ensures
        front_ok(checked(voronoi, front, triple, current_y, answer)),
        site_count(checked(voronoi, front, triple, current_y, answer).live) == site_count(front.live),
{
    match triple {
        Some(arcs) => {
            let due = due_for(voronoi, front.arcs, arcs, current_y, answer.unwrap());
            if due {
                lemma_site_count_insert(
                    front.live,
                    front.issued as usize,
                    circle_event(arcs.1, answer.unwrap().circle),
                );
            }
        },
        None => {},
    }
}

/// Cancelling an event leaves no more site events.
pub proof fn lemma_without_sites(live: Map<usize, Event>, index: QueueIndex)
    requires
        live.dom().finite(),
    ensures
        site_count(without(live, index)) <= site_count(live),
        without(live, index).dom().finite(),
        forall|id: usize| #[trigger] without(live, index).contains_key(id) ==> live.contains_key(id),
{
    match index.id {
        Some(id) => {
            lemma_site_count_remove(live, id);
        },
        None => {},
    }
}

/// The face of every site event among the events is a face of the diagram.
pub open spec fn sites_known(live: Map<usize, Event>, voronoi: &Diagram) -> bool {
    forall|id: usize| #[trigger]
        live.contains_key(id) ==> match live[id].event_type {
            EventType::SiteEvent { face } => voronoi.faces().contains_key(face),
            EventType::CircleEvent { .. } => true,
        }
}

/// What the handling of a site event does to a front: it stays in order, the site events
/// get no more, at most three handles are given out, and the beachline gets at most two
/// arcs more.
pub proof fn lemma_site_front<
    N: Fn(Scalar, Scalar) -> bool,
    B: Fn(Point, Point, Scalar) -> Scalar,
    C: Fn(Point, Point, Point) -> Circle,
>(
    face: FaceKey,
    initial: &Diagram,
    line: &Beachline,
    queue: &PriorityQueue,
    result: &Diagram,
    result_line: &Beachline,
    result_queue: &PriorityQueue,
    current_y: Scalar,
    near: &N,
    breakpoint: &B,
    circle: &C,
    r: Result<Handled, BuildError>,
)
    requires
        site_handled(
            face,
            initial,
            line,
            queue,
            result,
            result_line,
            result_queue,
            current_y,
            near,
            breakpoint,
            circle,
            r,
        ),
        front_ok(front_of(line, queue)),
        queue.issued() + 3 < usize::MAX,
        line.tree.wf(),
        result.faces().dom() == initial.faces().dom(),
        sites_known(queue.live(), initial),
    ensures
        front_ok(front_of(result_line, result_queue)),
        site_count(result_queue.live()) <= site_count(queue.live()),
        result_queue.issued() <= queue.issued() + 3,
        sites_known(result_queue.live(), result),
        r.is_ok() ==> result_line.order().len() <= line.order().len() + 2,
        r.is_err() ==> result_line.order().len() == line.order().len(),
{
    match r {
        Ok(Handled::Site { middle, made, first, second }) => {
            line.tree.lemma_rank(middle);
            let rank = line.tree.rank(middle);
            let order = line.order().insert(rank, made.left).insert(rank + 2, made.right);
            let split = Front {
                arcs: split_arcs(line.arcs(), middle, face, (made.left, made.right), made.pair),
                live: without(queue.live(), line.arcs()[middle].event_index),
                issued: queue.issued(),
            };
            let before = triple_before(order, rank, made.left, middle);
            let behind = triple_behind(order, rank + 2, middle, made.right);
            let half = checked(result, split, before, current_y, first);
            lemma_without_sites(queue.live(), line.arcs()[middle].event_index);
            lemma_checked_sites(result, split, before, current_y, first);
            lemma_checked_sites(result, half, behind, current_y, second);
        },
        Ok(Handled::Beside { arc, after, joint, first, second, third }) => {
            line.tree.lemma_rank(arc);
            let rank = line.tree.rank(arc);
            let place = if after {
                rank + 1
            } else {
                rank
            };
            let order = line.order().insert(place, joint.node);
            let left = beside_left(line.order(), rank, after);
            let right = beside_right(line.order(), rank, after);
            let seam = joined(initial, line, arc, after, face, joint);
            let calm = without_at(queue.live(), line.arcs(), left);
            let start = Front {
                arcs: seam.arcs,
                live: without_at(calm, cleared_at(line.arcs(), left), right),
                issued: queue.issued(),
            };
            let round_left = beside_before(order, place, left, joint.node);
            let round_new = beside_between(left, joint.node, right);
            let round_right = beside_behind(order, place, joint.node, right);
            let one = checked(result, start, round_left, current_y, first);
            let two = checked(result, one, round_new, current_y, second);
            if left.is_some() {
                lemma_without_sites(queue.live(), line.arcs()[left.unwrap()].event_index);
            }
            if right.is_some() {
                lemma_without_sites(
                    calm,
                    cleared_at(line.arcs(), left)[right.unwrap()].event_index,
                );
            }
            lemma_checked_sites(result, start, round_left, current_y, first);
            lemma_checked_sites(result, one, round_new, current_y, second);
            lemma_checked_sites(result, two, round_right, current_y, third);
        },
        _ => {},
    }
}

/// What the handling of a circle event does to a front: it stays in order, the site events
/// get no more, at most two handles are given out, and the beachline has one arc less.
pub proof fn lemma_circle_front<N: Fn(Scalar, Scalar) -> bool, C: Fn(Point, Point, Point) -> Circle>(
    point: Point,
    arc: NodeKey,
    initial: &Diagram,
    line: &Beachline,
    queue: &PriorityQueue,
    result: &Diagram,
    result_line: &Beachline,
    result_queue: &PriorityQueue,
    y: Scalar,
    near: &N,
    circle: &C,
    r: Result<Handled, BuildError>,
)
    requires
        circle_handled(
            point,
            arc,
            initial,
            line,
            queue,
            result,
            result_line,
            result_queue,
            y,
            near,
            circle,
            r,
        ),
        front_ok(front_of(line, queue)),
        queue.issued() + 2 < usize::MAX,
        line.tree.wf(),
        result.faces().dom() == initial.faces().dom(),
        sites_known(queue.live(), initial),
    ensures
        front_ok(front_of(result_line, result_queue)),
        site_count(result_queue.live()) <= site_count(queue.live()),
        result_queue.issued() <= queue.issued() + 2,
        sites_known(result_queue.live(), result),
        r.is_ok() ==> result_line.order().len() + 1 == line.order().len(),
{
    match r {
        Ok(Handled::Circle { vertex, pair, first, second }) => {
            let rank = line.tree.rank(arc);
            let left = line.order()[rank - 1];
            let right = line.order()[rank + 1];
            let order = line.order().remove(rank);
            let cancelled = circle_cancelled(line.arcs(), queue.live(), left, right);
            let closed = Front {
                arcs: arc_removed(cancelled.0, arc, left, right, pair),
                live: cancelled.1,
                issued: queue.issued(),
            };
            let before = triple_before(order, rank - 1, left, right);
            let behind = triple_behind(order, rank, left, right);
            let half = checked(result, closed, before, y, first);
            let first_arcs = line.arcs().insert(left, cleared(line.arcs()[left]));
            let first_live = without(queue.live(), line.arcs()[left].event_index);
            lemma_without_sites(queue.live(), line.arcs()[left].event_index);
            lemma_without_sites(first_live, first_arcs[right].event_index);
            lemma_checked_sites(result, closed, before, y, first);
            lemma_checked_sites(result, half, behind, y, second);
            line.tree.lemma_rank(arc);
        },
        _ => {},
    }
}

/// The diagram has one face for each of the points, at that point: `keys` are the keys of
/// the faces, in the order of the points.
pub open spec fn sited(voronoi: &Diagram, keys: Seq<FaceKey>, points: Seq<Point>) -> bool {
    &&& keys.len() == points.len()
    &&& keys.no_duplicates()
    &&& forall|f: FaceKey| voronoi.faces().contains_key(f) <==> keys.contains(f)
    &&& forall|i: int| 0 <= i < keys.len() ==> voronoi.faces()[#[trigger] keys[i]].point == points[i]
}

/// The points at the places `i` and `j`, two places, have the same abscissa, and `near`
/// has said that their ordinates are near each other.
pub open spec fn doubled<N: Fn(Scalar, Scalar) -> bool>(points: Seq<Point>, near: &N, i: int, j: int) -> bool {
    &&& 0 <= i < points.len()
    &&& 0 <= j < points.len()
    &&& i != j
    &&& points[i].x.same_spec(points[j].x)
    &&& call_ensures(*near, (points[j].y, points[i].y), true)
}

/// Some point of the sequence has a coordinate that is a NaN or infinite.
pub open spec fn has_wild_point(points: Seq<Point>) -> bool {
    exists|i: int| 0 <= i < points.len() && !(#[trigger] points[i]).is_finite()
}

/// Whether every point has finite coordinates.
pub fn all_finite(points: &[Point]) -> (r: bool)
    ensures
        r == !has_wild_point(points@),
{
    let mut i: usize = 0;
    while i < points.len()
        invariant
            i <= points@.len(),
            forall|j: int| 0 <= j < i ==> (#[trigger] points@[j]).is_finite(),
        decreases points@.len() - i,
    {
        if !points[i].finite() {
            return false;
        }
        i += 1;
    }
    true
}

/// Makes a diagram with one face for each point and nothing else. Returns it with the keys
/// of the faces in the order of the points.
pub fn seed_faces(points: &[Point]) -> (r: (Diagram, Vec<FaceKey>))
    requires
        points@.len() <= POOL_LIMIT,
    ensures
        r.0.wf(),
        sited(&r.0, r.1@, points@),
        r.0.face_total() == points@.len(),
        r.0.vertices() == Map::<VertexKey, crate::diagram::Vertex>::empty(),
        r.0.half_edges() == Map::<HalfEdgeKey, HalfEdge>::empty(),
        forall|f: FaceKey| #[trigger]
            r.0.faces().contains_key(f) ==> r.0.faces()[f].outer_component.is_none(),
{
    let mut voronoi = Diagram::new();
    let mut keys: Vec<FaceKey> = Vec::new();
    let mut i: usize = 0;
    proof {
        voronoi.lemma_finite();
    }
    while i < points.len()
        invariant
            i <= points@.len(),
            points@.len() <= POOL_LIMIT,
            voronoi.wf(),
            sited(&voronoi, keys@, points@.take(i as int)),
            voronoi.face_total() == i,
            voronoi.vertices() == Map::<VertexKey, crate::diagram::Vertex>::empty(),
            voronoi.half_edges() == Map::<HalfEdgeKey, HalfEdge>::empty(),
            forall|f: FaceKey| #[trigger]
                voronoi.faces().contains_key(f) ==> voronoi.faces()[f].outer_component.is_none(),
        decreases points@.len() - i,
    {
        let ghost before = keys@;
        let face = voronoi.add_face(points[i]);
        keys.push(face);
        proof {
            assert forall|f: FaceKey| voronoi.faces().contains_key(f) <==> keys@.contains(f) by {
                if keys@.contains(f) {
                    let j = choose|j: int| 0 <= j < keys@.len() && keys@[j] == f;
                    if j < before.len() {
                        assert(before.contains(before[j]));
                    }
                }
                if voronoi.faces().contains_key(f) && f != face {
                    assert(before.contains(f));
                    let j = choose|j: int| 0 <= j < before.len() && before[j] == f;
                    assert(keys@[j] == f);
                } else if f == face {
                    assert(keys@[before.len() as int] == f);
                }
            }
            assert forall|a: int, b: int|
                0 <= a < keys@.len() && 0 <= b < keys@.len() && a != b implies keys@[a] != keys@[b] by {
                if a < before.len() {
                    assert(before.contains(before[a]));
                }
                if b < before.len() {
                    assert(before.contains(before[b]));
                }
            }
            assert forall|j: int| 0 <= j < keys@.len() implies voronoi.faces()[#[trigger] keys@[j]].point
                == points@.take(i as int + 1)[j] by {
                if j < before.len() {
                    assert(before.contains(before[j]));
                    assert(points@.take(i as int)[j] == points@[j]);
                }
            }
        }
        i += 1;
    }
    proof {
        assert(points@.take(points@.len() as int) =~= points@);
    }
    (voronoi, keys)
}

/// The event was taken from the queue as one with the least `y`: `rest` is the queue
/// without it.
pub open spec fn taken(queue: &PriorityQueue, rest: &PriorityQueue, event: Event) -> bool {
    &&& rest.issued() == queue.issued()
    &&& exists|id: usize|
        {
            &&& #[trigger] queue.live().contains_key(id)
            &&& queue.live()[id] == event
            &&& rest.live() == queue.live().remove(id)
        }
    &&& forall|id: usize| #[trigger] queue.live().contains_key(id) ==> event.y.le_spec(queue.live()[id].y)
}

/// A sweep as a run of states: the diagram, the beachline and the queue before each
/// step and after the last; and for each step the queue once the event is taken from it,
/// the event, and what its handler reported.
pub struct Run {
    pub diagrams: Seq<Diagram>,
    pub lines: Seq<Beachline>,
    pub queues: Seq<PriorityQueue>,
    pub rests: Seq<PriorityQueue>,
    pub events: Seq<Event>,
    pub reports: Seq<Result<Handled, BuildError>>,
}

/// Step `i` of a run: an event with the least `y` is taken from the queue and handled, a
/// site event as `site_handled` says and a circle event as `circle_handled` says.
pub open spec fn run_step<
    N: Fn(Scalar, Scalar) -> bool,
    B: Fn(Point, Point, Scalar) -> Scalar,
    C: Fn(Point, Point, Point) -> Circle,
>(run: Run, i: int, near: &N, breakpoint: &B, circle: &C) -> bool {
    &&& taken(&run.queues[i], &run.rests[i], run.events[i])
    &&& match run.events[i].event_type {
        EventType::SiteEvent { face } => site_handled(
            face,
            &run.diagrams[i],
            &run.lines[i],
            &run.rests[i],
            &run.diagrams[i + 1],
            &run.lines[i + 1],
            &run.queues[i + 1],
            run.events[i].y,
            near,
            breakpoint,
            circle,
            run.reports[i],
        ),
        EventType::CircleEvent { point, arc } => circle_handled(
            point,
            arc,
            &run.diagrams[i],
            &run.lines[i],
            &run.rests[i],
            &run.diagrams[i + 1],
            &run.lines[i + 1],
            &run.queues[i + 1],
            run.events[i].y,
            near,
            circle,
            run.reports[i],
        ),
    }
}

/// The state at place `i` of a run is in order: the diagram, the beachline, whose arcs
/// are arcs of faces of the diagram, and the queue.
pub open spec fn state_ok(run: Run, i: int) -> bool {
    &&& run.diagrams[i].wf()
    &&& run.lines[i].wf()
    &&& run.lines[i].fits(&run.diagrams[i])
    &&& run.queues[i].wf()
}

/// A sweep sets out: the diagram has a face for each point and nothing else, the
/// beachline has no arc, and the queue holds the site event of each face, under the
/// place of the face among the faces.
pub open spec fn sweep_starts(
    points: Seq<Point>,
    voronoi: &Diagram,
    beachline: &Beachline,
    queue: &PriorityQueue,
) -> bool {
    &&& exists|keys: Seq<FaceKey>| #[trigger] sited(voronoi, keys, points)
    &&& voronoi.face_order().len() == points.len()
    &&& voronoi.vertices() == Map::<VertexKey, crate::diagram::Vertex>::empty()
    &&& voronoi.half_edges() == Map::<HalfEdgeKey, HalfEdge>::empty()
    &&& forall|f: FaceKey| #[trigger]
        voronoi.faces().contains_key(f) ==> voronoi.faces()[f].outer_component.is_none()
    &&& forall|i: int|
        0 <= i < voronoi.face_order().len() ==> voronoi.faces().contains_key(#[trigger] voronoi.face_order()[i])
    &&& beachline.order().len() == 0
    &&& queue.issued() == points.len()
    &&& forall|id: usize| #[trigger] queue.live().contains_key(id) <==> id < points.len()
    &&& forall|id: usize| #[trigger]
        queue.live().contains_key(id) ==> queue.live()[id] == (Event {
            y: voronoi.faces()[voronoi.face_order()[id as int]].point.y,
            event_type: EventType::SiteEvent { face: voronoi.face_order()[id as int] },
        })
}

/// The run is a sweep over the points: it sets out as `sweep_starts` says, each of its
/// steps is as `run_step` says, and every step but the last has succeeded.
pub open spec fn swept<
    N: Fn(Scalar, Scalar) -> bool,
    B: Fn(Point, Point, Scalar) -> Scalar,
    C: Fn(Point, Point, Point) -> Circle,
>(points: Seq<Point>, run: Run, near: &N, breakpoint: &B, circle: &C) -> bool {
    let n = run.events.len();
    &&& run.diagrams.len() == n + 1
    &&& run.lines.len() == n + 1
    &&& run.queues.len() == n + 1
    &&& run.rests.len() == n
    &&& run.reports.len() == n
    &&& sweep_starts(points, &run.diagrams[0], &run.lines[0], &run.queues[0])
    &&& forall|i: int| 0 <= i <= n ==> #[trigger] state_ok(run, i)
    &&& forall|i: int| 0 <= i < n ==> #[trigger] run_step(run, i, near, breakpoint, circle)
    &&& forall|i: int| 0 <= i < n - 1 ==> (#[trigger] run.reports[i]).is_ok()
}

/// The end of a build after a sweep that has emptied the queue: the open edges of the
/// diagram `swept` were closed against the box round it, which gave `closed`, and that
/// was clipped to the unit square, which gave the result; or one of the two passes has
/// failed.
pub open spec fn finished<
    R: Fn(BoundingBox, Point, Point) -> (Point, Side),
    S: Fn(BoundingBox, Point, Point) -> Vec<(Point, Side)>,
>(
    beachline: &Beachline,
    swept: &Diagram,
    closed: &Diagram,
    exit: &R,
    clip: &S,
    r: Result<Diagram, BuildError>,
) -> bool {
    let bbox = bound_of(swept);
    let unit = BoundingBox {
        left: Scalar { key: 0 },
        right: Scalar { key: crate::scalar::ONE_KEY },
        top: Scalar { key: 0 },
        bottom: Scalar { key: crate::scalar::ONE_KEY },
    };
    ||| r == Err::<Diagram, BuildError>(BuildError::GeometryInvariant) && beachline.completion_refused(
        bbox,
        exit,
        swept,
    )
    ||| beachline.edges_completed(bbox, exit, swept, closed) && r == Err::<Diagram, BuildError>(
        BuildError::GeometryInvariant,
    ) && unit.diagram_refused(clip, closed)
    ||| beachline.edges_completed(bbox, exit, swept, closed) && r.is_ok() && unit.diagram_clipped(
        clip,
        closed,
        &r.unwrap(),
    )
}

/// The run ends in the result `r`: its last step has failed, and `r` is the error of that
/// step; or it has emptied the queue, and the build was finished as `finished` says.
pub open spec fn ended<
    R: Fn(BoundingBox, Point, Point) -> (Point, Side),
    S: Fn(BoundingBox, Point, Point) -> Vec<(Point, Side)>,
>(run: Run, exit: &R, clip: &S, r: Result<Diagram, BuildError>) -> bool {
    if run.reports.len() > 0 && run.reports.last().is_err() {
        match r {
            Ok(_) => false,
            Err(e) => run.reports.last() == Err::<Handled, BuildError>(e),
        }
    } else {
        run.queues.last().size() == 0 && exists|closed: Diagram| #[trigger]
            finished(&run.lines.last(), &run.diagrams.last(), &closed, exit, clip, r)
    }
}

/// The result `r` is what a build over the points gives: there is a sweep over them that
/// ends in it.
pub open spec fn built<
    N: Fn(Scalar, Scalar) -> bool,
    B: Fn(Point, Point, Scalar) -> Scalar,
    C: Fn(Point, Point, Point) -> Circle,
    R: Fn(BoundingBox, Point, Point) -> (Point, Side),
    S: Fn(BoundingBox, Point, Point) -> Vec<(Point, Side)>,
>(
    points: Seq<Point>,
    near: &N,
    breakpoint: &B,
    circle: &C,
    exit: &R,
    clip: &S,
    r: Result<Diagram, BuildError>,
) -> bool {
    exists|run: Run| (#[trigger] swept(points, run, near, breakpoint, circle)) && ended(run, exit, clip, r)
}

/// On a beachline of one arc whose site is `point`, where `near` calls every ordinate near
/// itself, the only decision in the search for the arc above `point` is `Duplicate`.
pub proof fn lemma_only_duplicate<N: Fn(Scalar, Scalar) -> bool, B: Fn(Point, Point, Scalar) -> Scalar>(
    line: &Beachline,
    voronoi: &Diagram,
    root: NodeKey,
    point: Point,
    near: &N,
    breakpoint: &B,
    node: NodeKey,
    level: bool,
    descent: Descent,
)
    requires
        line.tree.wf(),
        line.order() == seq![root],
        line.focus(root, voronoi) == point,
        forall|answer: bool| call_ensures(*near, (point.y, point.y), answer) ==> answer,
        line.decided_at(node, point, point.y, voronoi, near, breakpoint, level, descent),
    ensures
        level,
        descent == Descent::Duplicate,
        node == root,
{
    line.tree.lemma_order();
    assert(line.order().contains(node));
    assert(node == root);
    let (left, right) = choose|left: Scalar, right: Scalar| #[trigger]
        line.found_at(node, point.y, voronoi, near, breakpoint, level, left, right)
            && Beachline::decide_spec(point.x, line.focus(node, voronoi), level, left, right) == descent;
    assert(call_ensures(*near, (point.y, point.y), level));
}

/// Two sites at one point are refused: where `near` calls the ordinate of the point near
/// itself, a build over the point taken twice gives `DuplicateSite`.
pub proof fn lemma_twice_refused<
    N: Fn(Scalar, Scalar) -> bool,
    B: Fn(Point, Point, Scalar) -> Scalar,
    C: Fn(Point, Point, Point) -> Circle,
    R: Fn(BoundingBox, Point, Point) -> (Point, Side),
    S: Fn(BoundingBox, Point, Point) -> Vec<(Point, Side)>,
>(
    points: Seq<Point>,
    near: &N,
    breakpoint: &B,
    circle: &C,
    exit: &R,
    clip: &S,
    r: Result<Diagram, BuildError>,
)
    requires
        points.len() == 2,
        points[0] == points[1],
        forall|answer: bool| call_ensures(*near, (points[0].y, points[0].y), answer) ==> answer,
        built(points, near, breakpoint, circle, exit, clip, r),
    ensures
        r == Err::<Diagram, BuildError>(BuildError::DuplicateSite),
{
    let p = points[0];
    let run = choose|run: Run| (#[trigger] swept(points, run, near, breakpoint, circle)) && ended(
        run,
        exit,
        clip,
        r,
    );
    let n = run.events.len() as int;
    let d0 = run.diagrams[0];
    let q0 = run.queues[0];
    assert(state_ok(run, 0));
    q0.lemma_live_numbers();
    assert(q0.live().contains_key(0usize));
    let keys = choose|keys: Seq<FaceKey>| #[trigger] sited(&d0, keys, points);
    assert forall|f: FaceKey| d0.faces().contains_key(f) implies (#[trigger] d0.faces()[f]).point == p by {
        assert(keys.contains(f));
        let j = choose|j: int| 0 <= j < keys.len() && keys[j] == f;
        assert(d0.faces()[keys[j]].point == points[j]);
    }
    if n == 0 {
        assert(q0.live().dom().len() > 0) by {
            if q0.live().dom().len() == 0 {
                assert(q0.live().dom() =~= Set::<usize>::empty());
            }
        }
        assert(false);
    }
    assert(run_step(run, 0, near, breakpoint, circle));
    assert(state_ok(run, 1));
    let e0 = run.events[0];
    let id0 = choose|id: usize|
        {
            &&& #[trigger] q0.live().contains_key(id)
            &&& q0.live()[id] == e0
            &&& run.rests[0].live() == q0.live().remove(id)
        };
    let f0 = d0.face_order()[id0 as int];
    assert(e0.event_type == EventType::SiteEvent { face: f0 });
    let l1 = run.lines[1];
    let d1 = run.diagrams[1];
    let q1 = run.queues[1];
    let r0 = run.reports[0];
    assert(r0 is Ok && r0->Ok_0 is Started);
    let root = r0->Ok_0->Started_root;
    assert(l1.order() == seq![root]);
    assert(d1.faces() == d0.faces());
    assert(q1.live() == q0.live().remove(id0));
    let id1 = if id0 == 0 {
        1usize
    } else {
        0usize
    };
    assert(q1.live().contains_key(id1));
    q1.lemma_live_numbers();
    assert(q1.live().dom().len() > 0) by {
        if q1.live().dom().len() == 0 {
            assert(q1.live().dom() =~= Set::<usize>::empty());
        }
    }
    if n == 1 {
        assert(false);
    }
    assert(run_step(run, 1, near, breakpoint, circle));
    let e1 = run.events[1];
    let id = choose|id: usize|
        {
            &&& #[trigger] q1.live().contains_key(id)
            &&& q1.live()[id] == e1
            &&& run.rests[1].live() == q1.live().remove(id)
        };
    assert(q0.live().contains_key(id));
    let f1 = d0.face_order()[id as int];
    assert(e1 == q0.live()[id]);
    assert(e1.event_type == EventType::SiteEvent { face: f1 });
    assert(d0.faces().contains_key(f1));
    assert(d0.faces().contains_key(f0));
    assert(e1.y == p.y);
    assert(d1.faces()[f1].point == p);
    assert(l1.arcs()[root].face == Some(f0));
    assert(l1.focus(root, &d1) == p);
    let r1 = run.reports[1];
    l1.tree.lemma_order();
    assert(l1.tree.root_key().is_some());
    assert forall|node: NodeKey, level: bool, descent: Descent| #[trigger]
        l1.decided_at(node, p, p.y, &d1, near, breakpoint, level, descent) implies level && descent
        == Descent::Duplicate by {
        lemma_only_duplicate(&l1, &d1, root, p, near, breakpoint, node, level, descent);
    }
    assert(r1 == Err::<Handled, BuildError>(BuildError::DuplicateSite));
    if n > 2 {
        assert(run.reports[1].is_ok());
    }
}

/// A run goes on by one step.
pub proof fn lemma_run_on<
    N: Fn(Scalar, Scalar) -> bool,
    B: Fn(Point, Point, Scalar) -> Scalar,
    C: Fn(Point, Point, Point) -> Circle,
>(
    points: Seq<Point>,
    run: Run,
    rest: PriorityQueue,
    event: Event,
    report: Result<Handled, BuildError>,
    voronoi: Diagram,
    beachline: Beachline,
    queue: PriorityQueue,
    near: &N,
    breakpoint: &B,
    circle: &C,
)
    requires
        swept(points, run, near, breakpoint, circle),
        run.reports.len() > 0 ==> run.reports.last().is_ok(),
        taken(&run.queues.last(), &rest, event),
        voronoi.wf(),
        beachline.wf(),
        beachline.fits(&voronoi),
        queue.wf(),
        match event.event_type {
            EventType::SiteEvent { face } => site_handled(
                face,
                &run.diagrams.last(),
                &run.lines.last(),
                &rest,
                &voronoi,
                &beachline,
                &queue,
                event.y,
                near,
                breakpoint,
                circle,
                report,
            ),
            EventType::CircleEvent { point, arc } => circle_handled(
                point,
                arc,
                &run.diagrams.last(),
                &run.lines.last(),
                &rest,
                &voronoi,
                &beachline,
                &queue,
                event.y,
                near,
                circle,
                report,
            ),
        },
    ensures
        swept(
            points,
            Run {
                diagrams: run.diagrams.push(voronoi),
                lines: run.lines.push(beachline),
                queues: run.queues.push(queue),
                rests: run.rests.push(rest),
                events: run.events.push(event),
                reports: run.reports.push(report),
            },
            near,
            breakpoint,
            circle,
        ),
{
    let more = Run {
        diagrams: run.diagrams.push(voronoi),
        lines: run.lines.push(beachline),
        queues: run.queues.push(queue),
        rests: run.rests.push(rest),
        events: run.events.push(event),
        reports: run.reports.push(report),
    };
    let n = run.events.len() as int;
    assert forall|i: int| 0 <= i <= n + 1 implies #[trigger] state_ok(more, i) by {
        if i <= n {
            assert(state_ok(run, i));
        }
    }
    assert forall|i: int| 0 <= i < n + 1 implies #[trigger] run_step(more, i, near, breakpoint, circle) by {
        if i < n {
            assert(run_step(run, i, near, breakpoint, circle));
        }
    }
    assert forall|i: int| 0 <= i < n implies (#[trigger] more.reports[i]).is_ok() by {
        if i < n - 1 {
            assert(run.reports[i].is_ok());
        }
    }
}

/// Where an arc of the beachline is found to be the arc of a site like the site of `face`,
/// which no arc of the beachline is an arc of, two of the points are doubled.
pub proof fn lemma_doubled<N: Fn(Scalar, Scalar) -> bool, B: Fn(Point, Point, Scalar) -> Scalar>(
    face: FaceKey,
    voronoi: &Diagram,
    beachline: &Beachline,
    keys: Seq<FaceKey>,
    points: Seq<Point>,
    y: Scalar,
    near: &N,
    breakpoint: &B,
)
    requires
        sited(voronoi, keys, points),
        !has_wild_point(points),
        voronoi.faces().contains_key(face),
        beachline.fits(voronoi),
        unarced(beachline.arcs(), face),
        y == voronoi.faces()[face].point.y,
        beachline.located(
            voronoi.faces()[face].point,
            y,
            voronoi,
            near,
            breakpoint,
            Err(BuildError::DuplicateSite),
        ),
    ensures
        exists|i: int, j: int| #[trigger] doubled(points, near, i, j),
{
    let point = voronoi.faces()[face].point;
    let node = choose|node: NodeKey| #[trigger]
        beachline.decided_at(node, point, y, voronoi, near, breakpoint, true, Descent::Duplicate);
    let (left, right) = choose|left: Scalar, right: Scalar| #[trigger]
        beachline.found_at(node, y, voronoi, near, breakpoint, true, left, right)
            && Beachline::decide_spec(point.x, beachline.focus(node, voronoi), true, left, right)
            == Descent::Duplicate;
    let other = beachline.arcs()[node].face.unwrap();
    assert(beachline.tree.has(node));
    assert(voronoi.faces().contains_key(other));
    assert(other != face);
    assert(keys.contains(face));
    assert(keys.contains(other));
    let i = choose|i: int| 0 <= i < keys.len() && keys[i] == face;
    let j = choose|j: int| 0 <= j < keys.len() && keys[j] == other;
    assert(points[i].is_finite());
    assert(points[j].is_finite());
    assert(doubled(points, near, i, j));
}

/// Builds the Voronoi diagram of the points, clipped to the unit square.
///
/// A face is made for every point and a site event entered for every face. Then the
/// events are taken from the queue, the one with the least `y` first, and handled (see
/// `handle_event`) until none is left. Last, the open edges are closed against a box
/// that holds the unit square and all vertices (see `bound_diagram`), and the diagram is
/// clipped to the unit square (see `BoundingBox::intersect_diagram`).
///
/// The arithmetic on coordinates is the caller's: `near` says whether two ordinates differ
/// by less than the tolerance of the sweep, `breakpoint` gives the abscissa at which the
/// arcs of two sites meet for a sweep line at `y`, `circle` gives the circle through three
/// sites, `exit` the point and the side at which the edge between two sites leaves a box
/// and `clip` the crossings of a segment with a box.
///
/// Fails with `NonFiniteInput` where a coordinate of a point is a NaN or infinite, and as
/// the handlers and the two passes do. It fails with `DuplicateSite` only where two of the
/// points have the same abscissa and ordinates that `near` calls near: see `doubled`. A
/// single point gives `GeometryInvariant`: its face has no border to clip.
///
/// What is returned is the end of a sweep over the points, step by step as the handlers
/// say: see `built`.
pub fn build_voronoi<
    N: Fn(Scalar, Scalar) -> bool,
    B: Fn(Point, Point, Scalar) -> Scalar,
    C: Fn(Point, Point, Point) -> Circle,
    R: Fn(BoundingBox, Point, Point) -> (Point, Side),
    S: Fn(BoundingBox, Point, Point) -> Vec<(Point, Side)>,
>(points: &[Point], near: &N, breakpoint: &B, circle: &C, exit: &R, clip: &S) -> (r: Result<
    Diagram,
    BuildError,
>)
    requires
        32 * points@.len() <= POOL_LIMIT,
        forall|a: Scalar, b: Scalar| call_requires(*near, (a, b)),
        forall|a: Point, b: Point, c: Scalar| call_requires(*breakpoint, (a, b, c)),
        forall|a: Point, b: Point, c: Point| call_requires(*circle, (a, b, c)),
        forall|b: BoundingBox, p: Point, q: Point| call_requires(*exit, (b, p, q)),
        forall|b: BoundingBox, p: Point, q: Point| call_requires(*clip, (b, p, q)),
    ensures
        has_wild_point(points@) <==> r == Err::<Diagram, BuildError>(BuildError::NonFiniteInput),
        points@.len() == 0 ==> r.is_ok(),
        match r {
            Ok(voronoi) => {
                &&& voronoi.wf()
                &&& voronoi.face_total() == points@.len()
                &&& exists|keys: Seq<FaceKey>| #[trigger] sited(&voronoi, keys, points@)
                &&& voronoi.ends_present()
                &&& voronoi.twins_agree()
                &&& points@.len() == 0 ==> voronoi.vertices() == Map::<
                    VertexKey,
                    crate::diagram::Vertex,
                >::empty() && voronoi.half_edges() == Map::<HalfEdgeKey, HalfEdge>::empty()
            },
            Err(_) => true,
        },
        r == Err::<Diagram, BuildError>(BuildError::DuplicateSite) ==> exists|i: int, j: int| #[trigger]
            doubled(points@, near, i, j),
        !has_wild_point(points@) ==> built(points@, near, breakpoint, circle, exit, clip, r),
        !has_wild_point(points@) && points@.len() == 1 ==> r == Err::<Diagram, BuildError>(
            BuildError::GeometryInvariant,
        ),
{
    if !all_finite(points) {
        return Err(BuildError::NonFiniteInput);
    }
    let mut event_queue = PriorityQueue::new();
    let (mut voronoi, keys) = seed_faces(points);
    let mut beachline = Beachline::new();
    let ghost seeded = voronoi;
    let ghost count = points@.len();

    let faces = voronoi.get_face_indices();
    let mut i: usize = 0;
    proof {
        event_queue.lemma_live_numbers();
        assert(site_count(event_queue.live()) == 0) by {
            assert(event_queue.live().dom().filter(
                |id: usize| event_queue.live()[id].event_type is SiteEvent,
            ) =~= Set::<usize>::empty());
        }
        voronoi.lemma_finite();
    }
    while i < faces.len()
        invariant
            i <= faces@.len(),
            faces@.len() == count,
            voronoi.wf(),
            sited(&voronoi, keys@, points@),
            !has_wild_point(points@),
            forall|k: FaceKey| faces@.contains(k) <==> voronoi.faces().contains_key(k),
            event_queue.wf(),
            event_queue.issued() == i,
            event_queue.size() == i,
            front_ok(front_of(&beachline, &event_queue)),
            tied(front_of(&beachline, &event_queue)),
            site_count(event_queue.live()) <= i,
            sites_known(event_queue.live(), &voronoi),
            faces@ == voronoi.face_order(),
            faces@.no_duplicates(),
            beachline.arcs() == Map::<NodeKey, Arc>::empty(),
            beachline.order().len() == 0,
            voronoi.vertices() == Map::<VertexKey, crate::diagram::Vertex>::empty(),
            voronoi.half_edges() == Map::<HalfEdgeKey, HalfEdge>::empty(),
            forall|f: FaceKey| #[trigger]
                voronoi.faces().contains_key(f) ==> voronoi.faces()[f].outer_component.is_none(),
            forall|id: usize| id < i ==> #[trigger] event_queue.live().contains_key(id),
            forall|id: usize| #[trigger]
                event_queue.live().contains_key(id) ==> id < i && event_queue.live()[id] == (Event {
                    y: voronoi.faces()[faces@[id as int]].point.y,
                    event_type: EventType::SiteEvent { face: faces@[id as int] },
                }),
        decreases faces@.len() - i,
    {
        let face = faces[i];
        assert(faces@.contains(face));
        let point = voronoi.get_face_point(face);
        proof {
            assert(keys@.contains(face));
            let j = choose|j: int| 0 <= j < keys@.len() && keys@[j] == face;
            assert(points@[j].is_finite());
            lemma_site_count_insert(
                event_queue.live(),
                event_queue.issued() as usize,
                Event { y: point.y, event_type: EventType::SiteEvent { face } },
            );
        }
        event_queue.push(Event::site_event(point.y, face));
        proof {
            event_queue.lemma_live_numbers();
        }
        i += 1;
    }

    proof {
        beachline.tree.lemma_order();
        assert forall|id: usize| #[trigger] event_queue.live().contains_key(id) implies match site_face(
            event_queue.live()[id],
        ) {
            Some(face) => {
                &&& voronoi.faces().contains_key(face)
                &&& event_queue.live()[id].y == voronoi.faces()[face].point.y
                &&& unarced(beachline.arcs(), face)
                &&& alone(event_queue.live(), id as int, face)
            },
            None => true,
        } by {
            assert(faces@.contains(faces@[id as int]));
        }
    }
    let ghost mut steps: nat = 0;
    let ghost mut run = Run {
        diagrams: seq![voronoi],
        lines: seq![beachline],
        queues: seq![event_queue],
        rests: Seq::empty(),
        events: Seq::empty(),
        reports: Seq::empty(),
    };
    proof {
        assert(sited(&run.diagrams[0], keys@, points@));
        assert forall|i: int| 0 <= i < voronoi.face_order().len() implies voronoi.faces().contains_key(
            #[trigger] voronoi.face_order()[i],
        ) by {
            assert(faces@.contains(faces@[i]));
        }
        assert(sweep_starts(points@, &run.diagrams[0], &run.lines[0], &run.queues[0]));
        assert(state_ok(run, 0));
        assert(swept(points@, run, near, breakpoint, circle));
    }
    loop
        invariant_except_break
            run.queues.last() == event_queue,
        invariant
            voronoi.wf(),
            swept(points@, run, near, breakpoint, circle),
            run.reports.len() > 0 ==> run.reports.last().is_ok(),
            run.diagrams.last() == voronoi,
            run.lines.last() == beachline,
            faces@ == voronoi.face_order(),
            faces@.len() == count,
            forall|k: FaceKey| faces@.contains(k) <==> voronoi.faces().contains_key(k),
            count == 1 ==> voronoi.half_edges() == Map::<HalfEdgeKey, HalfEdge>::empty() && (forall|
                f: FaceKey,
            | #[trigger]
                voronoi.faces().contains_key(f) ==> voronoi.faces()[f].outer_component.is_none()) && ((
            beachline.order().len() == 0 && event_queue.size() == 1 && forall|id: usize| #[trigger]
                event_queue.live().contains_key(id) ==> event_queue.live()[id].event_type is SiteEvent)
                || (beachline.order().len() == 1 && event_queue.size() == 0)),
            sites_ahead(front_of(&beachline, &event_queue), voronoi.faces()),
            beachline.wf(),
            beachline.fits(&voronoi),
            event_queue.wf(),
            32 * count <= POOL_LIMIT,
            count == points@.len(),
            !has_wild_point(points@),
            count == 0 ==> event_queue.size() == 0,
            sited(&voronoi, keys@, points@),
            voronoi.face_total() == count,
            voronoi.ends_present(),
            voronoi.twins_paired(),
            front_ok(front_of(&beachline, &event_queue)),
            tied(front_of(&beachline, &event_queue)),
            sites_known(event_queue.live(), &voronoi),
            3 * site_count(event_queue.live()) + beachline.order().len() + steps <= 3 * count,
            voronoi.half_edge_total() <= 2 * steps,
            voronoi.vertex_total() <= steps,
            event_queue.issued() <= count + 3 * steps,
            count == 0 ==> voronoi.vertices() == Map::<VertexKey, crate::diagram::Vertex>::empty()
                && voronoi.half_edges() == Map::<HalfEdgeKey, HalfEdge>::empty(),
            forall|a: Scalar, b: Scalar| call_requires(*near, (a, b)),
            forall|a: Point, b: Point, c: Scalar| call_requires(*breakpoint, (a, b, c)),
            forall|a: Point, b: Point, c: Point| call_requires(*circle, (a, b, c)),
        ensures
            voronoi.wf(),
            swept(points@, run, near, breakpoint, circle),
            run.reports.len() > 0 ==> run.reports.last().is_ok(),
            run.diagrams.last() == voronoi,
            run.lines.last() == beachline,
            run.queues.last().size() == 0,
            faces@ == voronoi.face_order(),
            faces@.len() == count,
            forall|k: FaceKey| faces@.contains(k) <==> voronoi.faces().contains_key(k),
            count == 1 ==> voronoi.half_edges() == Map::<HalfEdgeKey, HalfEdge>::empty() && (forall|
                f: FaceKey,
            | #[trigger]
                voronoi.faces().contains_key(f) ==> voronoi.faces()[f].outer_component.is_none())
                && beachline.order().len() <= 1,
            beachline.wf(),
            beachline.fits(&voronoi),
            sited(&voronoi, keys@, points@),
            voronoi.face_total() == count,
            voronoi.ends_present(),
            voronoi.twins_paired(),
            beachline.order().len() + steps <= 3 * count,
            voronoi.half_edge_total() <= 2 * steps,
            voronoi.vertex_total() <= steps,
            count == 0 ==> voronoi.vertices() == Map::<VertexKey, crate::diagram::Vertex>::empty()
                && voronoi.half_edges() == Map::<HalfEdgeKey, HalfEdge>::empty(),
        decreases 3 * site_count(event_queue.live()) + beachline.order().len(),
    {
        let ghost before_queue = event_queue;
        let event = match event_queue.pop() {
            Some(event) => event,
            None => {
                break ;
            },
        };
        let ghost popped = event_queue;
        let ghost before_line = beachline;
        let ghost before = voronoi;
        proof {
            let id = choose|id: usize|
                {
                    &&& #[trigger] before_queue.live().contains_key(id)
                    &&& before_queue.live()[id] == event
                    &&& popped.live() == before_queue.live().remove(id)
                };
            lemma_site_count_remove(before_queue.live(), id);
            lemma_popped_tied(front_of(&before_line, &before_queue), id);
            lemma_popped_ahead(front_of(&before_line, &before_queue), before.faces(), id);
            popped.lemma_live_numbers();
            before.lemma_finite();
        }
        let handled = handle_event(
            event.event_type(),
            &mut voronoi,
            &mut beachline,
            event.y(),
            &mut event_queue,
            near,
            breakpoint,
            circle,
        );
        proof {
            match event.event_type {
                EventType::SiteEvent { face } => {
                    lemma_site_front(
                        face,
                        &before,
                        &before_line,
                        &popped,
                        &voronoi,
                        &beachline,
                        &event_queue,
                        event.y,
                        near,
                        breakpoint,
                        circle,
                        handled,
                    );
                    lemma_site_tied(
                        face,
                        &before,
                        &before_line,
                        &popped,
                        &voronoi,
                        &beachline,
                        &event_queue,
                        event.y,
                        near,
                        breakpoint,
                        circle,
                        handled,
                    );
                    lemma_site_ahead(
                        face,
                        &before,
                        &before_line,
                        &popped,
                        &voronoi,
                        &beachline,
                        &event_queue,
                        event.y,
                        near,
                        breakpoint,
                        circle,
                        handled,
                    );
                    if handled == Err::<Handled, BuildError>(BuildError::DuplicateSite) {
                        lemma_doubled(face, &before, &before_line, keys@, points@, event.y, near, breakpoint);
                    }
                },
                EventType::CircleEvent { point, arc } => {
                    lemma_circle_tied(
                        point,
                        arc,
                        &before,
                        &before_line,
                        &popped,
                        &voronoi,
                        &beachline,
                        &event_queue,
                        event.y,
                        near,
                        circle,
                        handled,
                    );
                    lemma_circle_ahead(
                        point,
                        arc,
                        &before,
                        &before_line,
                        &popped,
                        &voronoi,
                        &beachline,
                        &event_queue,
                        event.y,
                        near,
                        circle,
                        handled,
                    );
                    lemma_circle_front(
                        point,
                        arc,
                        &before,
                        &before_line,
                        &popped,
                        &voronoi,
                        &beachline,
                        &event_queue,
                        event.y,
                        near,
                        circle,
                        handled,
                    );
                },
            }
        }
        proof {
            assert(taken(&before_queue, &popped, event));
            lemma_run_on(
                points@,
                run,
                popped,
                event,
                handled,
                voronoi,
                beachline,
                event_queue,
                near,
                breakpoint,
                circle,
            );
            run = Run {
                diagrams: run.diagrams.push(voronoi),
                lines: run.lines.push(beachline),
                queues: run.queues.push(event_queue),
                rests: run.rests.push(popped),
                events: run.events.push(event),
                reports: run.reports.push(handled),
            };
            if count == 1 {
                event_queue.lemma_live_numbers();
                before_queue.lemma_live_numbers();
            }
        }
        match handled {
            Err(e) => {
                proof {
                    assert(ended(run, exit, clip, Err::<Diagram, BuildError>(e)));
                }
                return Err(e);
            },
            Ok(_) => {},
        }
        proof {
            steps = steps + 1;
            assert forall|f: FaceKey| voronoi.faces().contains_key(f) <==> keys@.contains(f) by {
                assert(before.faces().dom().contains(f) == voronoi.faces().dom().contains(f));
            }
            assert forall|j: int| 0 <= j < keys@.len() implies voronoi.faces()[#[trigger] keys@[j]].point
                == points@[j] by {
                assert(keys@.contains(keys@[j]));
                assert(before.faces().contains_key(keys@[j]));
            }
            voronoi.lemma_finite();
            before.lemma_finite();
        }
    }
    let ghost last = voronoi;
    proof {
        last.lemma_finite();
        if count == 1 {
            assert(faces@.contains(faces@[0]));
        }
    }
    let (_bbox, closed) = bound_diagram(&mut voronoi, &beachline, exit);
    let ghost bounded = voronoi;
    proof {
        assert forall|f: FaceKey| bounded.faces().contains_key(f) <==> keys@.contains(f) by {}
    }
    if closed.is_err() {
        proof {
            assert(finished(
                &beachline,
                &last,
                &bounded,
                exit,
                clip,
                Err::<Diagram, BuildError>(BuildError::GeometryInvariant),
            ));
        }
        return Err(BuildError::GeometryInvariant);
    }
    let bbox = BoundingBox::unit();
    let clipped = bbox.intersect_diagram(&mut voronoi, clip);
    if clipped.is_err() {
        proof {
            assert(finished(
                &beachline,
                &last,
                &bounded,
                exit,
                clip,
                Err::<Diagram, BuildError>(BuildError::GeometryInvariant),
            ));
        }
        return Err(BuildError::GeometryInvariant);
    }
    proof {
        assert(finished(&beachline, &last, &bounded, exit, clip, Ok::<Diagram, BuildError>(voronoi)));
    }
    proof {
        assert forall|f: FaceKey| voronoi.faces().contains_key(f) <==> keys@.contains(f) by {
            assert(bounded.faces().dom().contains(f) == voronoi.faces().dom().contains(f));
        }
        assert forall|j: int| 0 <= j < keys@.len() implies voronoi.faces()[#[trigger] keys@[j]].point
            == points@[j] by {
            assert(keys@.contains(keys@[j]));
            assert(bounded.faces().contains_key(keys@[j]));
        }
        assert(sited(&voronoi, keys@, points@));
        voronoi.lemma_finite();
        bounded.lemma_finite();
    }
    Ok(voronoi)
}

} // verus!

verus! {

/// The points at which the half edges of `round` set out, one after the other, as far as
/// each has its origin at a vertex of the diagram.
pub open spec fn corners_upto(voronoi: &Diagram, round: Seq<HalfEdgeKey>, upto: nat) -> Option<Seq<Point>>
    decreases upto,
{
    if upto == 0 {
        Some(Seq::empty())
    } else {
        let origin = voronoi.half_edges()[round[upto - 1]].origin;
        match corners_upto(voronoi, round, (upto - 1) as nat) {
            Some(before) => if voronoi.half_edges().contains_key(round[upto - 1]) && origin.is_some()
                && voronoi.vertices().contains_key(origin.unwrap()) {
                Some(before.push(voronoi.vertices()[origin.unwrap()].point))
            } else {
                None
            },
            None => None,
        }
    }
}

/// The corners of a face: the points at which the half edges on the way round it set
/// out. None where the face has no outer component, the way round it does not close
/// within as many half edges as the diagram has, or a half edge on it has no origin at a
/// vertex of the diagram.
pub open spec fn corners_of(voronoi: &Diagram, face: FaceKey) -> Option<Seq<Point>> {
    match voronoi.faces()[face].outer_component {
        Some(start) => match voronoi.round_of(start) {
            Some(round) => corners_upto(voronoi, round, round.len()),
            None => None,
        },
        None => None,
    }
}

/// The corners of a face: see `corners_of`.
pub fn face_corners(voronoi: &Diagram, face: FaceKey) -> (r: Option<Vec<Point>>)
    requires
        voronoi.wf(),
        voronoi.faces().contains_key(face),
    ensures
        match r {
            Some(corners) => corners_of(voronoi, face) == Some(corners@),
            None => corners_of(voronoi, face).is_none(),
        },
{
    let start = match voronoi.get_face_outer_component(face) {
        Some(start) => start,
        None => {
            return None;
        },
    };
    let round = match voronoi.outer_edges(start) {
        Some(round) => round,
        None => {
            return None;
        },
    };
    let mut corners: Vec<Point> = Vec::new();
    let mut i: usize = 0;
    while i < round.len()
        invariant
            voronoi.wf(),
            i <= round@.len(),
            voronoi.faces()[face].outer_component == Some(start),
            voronoi.round_of(start) == Some(round@),
            corners_upto(voronoi, round@, i as nat) == Some(corners@),
        decreases round@.len() - i,
    {
        let edge = round[i];
        if !voronoi.has_half_edge(edge) {
            proof {
                assert(corners_upto(voronoi, round@, (i + 1) as nat).is_none());
                lemma_corners_none(voronoi, round@, (i + 1) as nat, round@.len());
            }
            return None;
        }
        let origin = match voronoi.get_half_edge_origin(edge) {
            Some(origin) => origin,
            None => {
                proof {
                    assert(corners_upto(voronoi, round@, (i + 1) as nat).is_none());
                    lemma_corners_none(voronoi, round@, (i + 1) as nat, round@.len());
                }
                return None;
            },
        };
        if !voronoi.has_vertex(origin) {
            proof {
                assert(corners_upto(voronoi, round@, (i + 1) as nat).is_none());
                lemma_corners_none(voronoi, round@, (i + 1) as nat, round@.len());
            }
            return None;
        }
        corners.push(voronoi.get_vertex_point(origin));
        i += 1;
    }
    Some(corners)
}

/// Where the corners cannot be had up to a place, they cannot be had beyond it.
pub proof fn lemma_corners_none(voronoi: &Diagram, round: Seq<HalfEdgeKey>, upto: nat, more: nat)
    requires
        upto <= more,
        corners_upto(voronoi, round, upto).is_none(),
    ensures
        corners_upto(voronoi, round, more).is_none(),
    decreases more,
{
    if upto < more {
        lemma_corners_none(voronoi, round, upto, (more - 1) as nat);
    }
}

/// The points `after` are what one step of the relaxation makes of the points `before`:
/// the diagram `voronoi` was built over `before`, and each point of `after` is what
/// `centre` gave for the corners of the face at its place.
pub open spec fn relaxed<
    N: Fn(Scalar, Scalar) -> bool,
    B: Fn(Point, Point, Scalar) -> Scalar,
    C: Fn(Point, Point, Point) -> Circle,
    R: Fn(BoundingBox, Point, Point) -> (Point, Side),
    S: Fn(BoundingBox, Point, Point) -> Vec<(Point, Side)>,
    M: Fn(Vec<Point>) -> Point,
>(
    before: Seq<Point>,
    voronoi: &Diagram,
    after: Seq<Point>,
    near: &N,
    breakpoint: &B,
    circle: &C,
    exit: &R,
    clip: &S,
    centre: &M,
) -> bool {
    &&& built(before, near, breakpoint, circle, exit, clip, Ok::<Diagram, BuildError>(*voronoi))
    &&& after.len() == voronoi.face_order().len()
    &&& after.len() == before.len()
    &&& forall|i: int| 0 <= i < after.len() ==> #[trigger] centred(voronoi, i, after[i], centre)
}

/// The point is what `centre` gave for the corners of the face at place `i`.
pub open spec fn centred<M: Fn(Vec<Point>) -> Point>(voronoi: &Diagram, i: int, point: Point, centre: &M) -> bool {
    exists|corners: Vec<Point>|
        (#[trigger] call_ensures(*centre, (corners,), point)) && corners_of(voronoi, voronoi.face_order()[i])
            == Some(corners@)
}

/// The points `after` are what one step of the relaxation makes of the points `before`,
/// by way of some diagram: see `relaxed`.
pub open spec fn relaxed_once<
    N: Fn(Scalar, Scalar) -> bool,
    B: Fn(Point, Point, Scalar) -> Scalar,
    C: Fn(Point, Point, Point) -> Circle,
    R: Fn(BoundingBox, Point, Point) -> (Point, Side),
    S: Fn(BoundingBox, Point, Point) -> Vec<(Point, Side)>,
    M: Fn(Vec<Point>) -> Point,
>(
    before: Seq<Point>,
    after: Seq<Point>,
    near: &N,
    breakpoint: &B,
    circle: &C,
    exit: &R,
    clip: &S,
    centre: &M,
) -> bool {
    exists|voronoi: Diagram| #[trigger]
        relaxed(before, &voronoi, after, near, breakpoint, circle, exit, clip, centre)
}

/// The diagram `voronoi` was built over the points, and its face at place `i` has no
/// corners (see `corners_of`).
pub open spec fn cornerless<
    N: Fn(Scalar, Scalar) -> bool,
    B: Fn(Point, Point, Scalar) -> Scalar,
    C: Fn(Point, Point, Point) -> Circle,
    R: Fn(BoundingBox, Point, Point) -> (Point, Side),
    S: Fn(BoundingBox, Point, Point) -> Vec<(Point, Side)>,
>(
    points: Seq<Point>,
    voronoi: &Diagram,
    i: int,
    near: &N,
    breakpoint: &B,
    circle: &C,
    exit: &R,
    clip: &S,
) -> bool {
    &&& 0 <= i < voronoi.face_order().len()
    &&& corners_of(voronoi, voronoi.face_order()[i]).is_none()
    &&& built(points, near, breakpoint, circle, exit, clip, Ok::<Diagram, BuildError>(*voronoi))
}

/// Why a step of the relaxation fails with the error `e`: a coordinate of a point is a NaN
/// or infinite, or the build over the points fails with `e`, or it gives a diagram of
/// which a face has no corners, and `e` is `GeometryInvariant`.
pub open spec fn relax_refused<
    N: Fn(Scalar, Scalar) -> bool,
    B: Fn(Point, Point, Scalar) -> Scalar,
    C: Fn(Point, Point, Point) -> Circle,
    R: Fn(BoundingBox, Point, Point) -> (Point, Side),
    S: Fn(BoundingBox, Point, Point) -> Vec<(Point, Side)>,
>(points: Seq<Point>, e: BuildError, near: &N, breakpoint: &B, circle: &C, exit: &R, clip: &S) -> bool {
    ||| has_wild_point(points) && e == BuildError::NonFiniteInput
    ||| built(points, near, breakpoint, circle, exit, clip, Err::<Diagram, BuildError>(e))
    ||| e == BuildError::GeometryInvariant && exists|voronoi: Diagram, i: int| #[trigger]
        cornerless(points, &voronoi, i, near, breakpoint, circle, exit, clip)
}

/// One step of Lloyd's relaxation: builds the diagram of the points and gives, for each
/// face in the order of the faces, what `centre` makes of its corners. Fails as
/// `build_voronoi` does, and with `GeometryInvariant` where a face has no corners (see
/// `corners_of`).
pub fn relax_once<
    N: Fn(Scalar, Scalar) -> bool,
    B: Fn(Point, Point, Scalar) -> Scalar,
    C: Fn(Point, Point, Point) -> Circle,
    R: Fn(BoundingBox, Point, Point) -> (Point, Side),
    S: Fn(BoundingBox, Point, Point) -> Vec<(Point, Side)>,
    M: Fn(Vec<Point>) -> Point,
>(
    points: &Vec<Point>,
    near: &N,
    breakpoint: &B,
    circle: &C,
    exit: &R,
    clip: &S,
    centre: &M,
) -> (r: Result<Vec<Point>, BuildError>)
    requires
        32 * points@.len() <= POOL_LIMIT,
        forall|a: Scalar, b: Scalar| call_requires(*near, (a, b)),
        forall|a: Point, b: Point, c: Scalar| call_requires(*breakpoint, (a, b, c)),
        forall|a: Point, b: Point, c: Point| call_requires(*circle, (a, b, c)),
        forall|b: BoundingBox, p: Point, q: Point| call_requires(*exit, (b, p, q)),
        forall|b: BoundingBox, p: Point, q: Point| call_requires(*clip, (b, p, q)),
        forall|corners: Vec<Point>| call_requires(*centre, (corners,)),
    ensures
        r matches Ok(after) ==> relaxed_once(points@, after@, near, breakpoint, circle, exit, clip, centre),
        r matches Err(e) ==> relax_refused(points@, e, near, breakpoint, circle, exit, clip),
        points@.len() == 0 ==> r.is_ok(),
{
    let voronoi = match build_voronoi(points.as_slice(), near, breakpoint, circle, exit, clip) {
        Ok(voronoi) => voronoi,
        Err(e) => {
            proof {
                if !has_wild_point(points@) {
                    assert(built(points@, near, breakpoint, circle, exit, clip, Err::<Diagram, BuildError>(e)));
                }
                assert(relax_refused(points@, e, near, breakpoint, circle, exit, clip));
            }
            return Err(e);
        },
    };
    let faces = voronoi.get_face_indices();
    let mut after: Vec<Point> = Vec::new();
    let mut i: usize = 0;
    while i < faces.len()
        invariant
            voronoi.wf(),
            faces@ == voronoi.face_order(),
            forall|k: FaceKey| faces@.contains(k) <==> voronoi.faces().contains_key(k),
            i <= faces@.len(),
            after@.len() == i,
            faces@.len() == points@.len(),
            built(points@, near, breakpoint, circle, exit, clip, Ok::<Diagram, BuildError>(voronoi)),
            forall|n: int| 0 <= n < i ==> #[trigger] centred(&voronoi, n, after@[n], centre),
            forall|corners: Vec<Point>| call_requires(*centre, (corners,)),
        decreases faces@.len() - i,
    {
        let face = faces[i];
        assert(faces@.contains(face));
        let corners = match face_corners(&voronoi, face) {
            Some(corners) => corners,
            None => {
                proof {
                    assert(cornerless(points@, &voronoi, i as int, near, breakpoint, circle, exit, clip));
                    assert(relax_refused(
                        points@,
                        BuildError::GeometryInvariant,
                        near,
                        breakpoint,
                        circle,
                        exit,
                        clip,
                    ));
                }
                return Err(BuildError::GeometryInvariant);
            },
        };
        let ghost seen = corners;
        let point = centre(corners);
        proof {
            assert(call_ensures(*centre, (seen,), point));
            assert(centred(&voronoi, i as int, point, centre));
        }
        after.push(point);
        i += 1;
    }
    proof {
        assert(relaxed(points@, &voronoi, after@, near, breakpoint, circle, exit, clip, centre));
        assert(relaxed_once(points@, after@, near, breakpoint, circle, exit, clip, centre));
    }
    Ok(after)
}

/// The points were relaxed step by step along `rounds`, from `points` on: each round is
/// what one step makes of the round before it (see `relaxed_once`).
pub open spec fn relaxed_along<
    N: Fn(Scalar, Scalar) -> bool,
    B: Fn(Point, Point, Scalar) -> Scalar,
    C: Fn(Point, Point, Point) -> Circle,
    R: Fn(BoundingBox, Point, Point) -> (Point, Side),
    S: Fn(BoundingBox, Point, Point) -> Vec<(Point, Side)>,
    M: Fn(Vec<Point>) -> Point,
>(
    points: Seq<Point>,
    rounds: Seq<Seq<Point>>,
    near: &N,
    breakpoint: &B,
    circle: &C,
    exit: &R,
    clip: &S,
    centre: &M,
) -> bool {
    &&& rounds.len() > 0
    &&& rounds[0] == points
    &&& forall|i: int|
        0 <= i < rounds.len() - 1 ==> relaxed_once(
            #[trigger] rounds[i],
            rounds[i + 1],
            near,
            breakpoint,
            circle,
            exit,
            clip,
            centre,
        )
}

/// Lloyd's relaxation: replaces the points `iterations` times by what `centre` makes of
/// the corners of their faces (see `relax_once`). With no iteration the points are given
/// back as they are. Fails as `relax_once` does.
pub fn lloyds_relaxation<
    N: Fn(Scalar, Scalar) -> bool,
    B: Fn(Point, Point, Scalar) -> Scalar,
    C: Fn(Point, Point, Point) -> Circle,
    R: Fn(BoundingBox, Point, Point) -> (Point, Side),
    S: Fn(BoundingBox, Point, Point) -> Vec<(Point, Side)>,
    M: Fn(Vec<Point>) -> Point,
>(
    points: &[Point],
    iterations: usize,
    near: &N,
    breakpoint: &B,
    circle: &C,
    exit: &R,
    clip: &S,
    centre: &M,
) -> (r: Result<Vec<Point>, BuildError>)
    requires
        32 * points@.len() <= POOL_LIMIT,
        forall|a: Scalar, b: Scalar| call_requires(*near, (a, b)),
        forall|a: Point, b: Point, c: Scalar| call_requires(*breakpoint, (a, b, c)),
        forall|a: Point, b: Point, c: Point| call_requires(*circle, (a, b, c)),
        forall|b: BoundingBox, p: Point, q: Point| call_requires(*exit, (b, p, q)),
        forall|b: BoundingBox, p: Point, q: Point| call_requires(*clip, (b, p, q)),
        forall|corners: Vec<Point>| call_requires(*centre, (corners,)),
    ensures
        iterations == 0 ==> r.is_ok() && r.unwrap()@ == points@,
        points@.len() == 0 ==> r.is_ok() && r.unwrap()@.len() == 0,
        r.is_ok() ==> r.unwrap()@.len() == points@.len() && exists|rounds: Seq<Seq<Point>>|
            {
                &&& rounds.len() == iterations + 1
                &&& rounds.last() == r.unwrap()@
                &&& #[trigger] relaxed_along(points@, rounds, near, breakpoint, circle, exit, clip, centre)
            },
        r matches Err(e) ==> exists|rounds: Seq<Seq<Point>>|
            {
                &&& rounds.len() <= iterations
                &&& relax_refused(rounds.last(), e, near, breakpoint, circle, exit, clip)
                &&& #[trigger] relaxed_along(points@, rounds, near, breakpoint, circle, exit, clip, centre)
            },
{
    let mut current: Vec<Point> = Vec::new();
    let mut k: usize = 0;
    while k < points.len()
        invariant
            k <= points@.len(),
            current@ == points@.take(k as int),
        decreases points@.len() - k,
    {
        current.push(points[k]);
        k += 1;
    }
    assert(current@ == points@);
    let ghost mut rounds: Seq<Seq<Point>> = seq![current@];
    let mut done: usize = 0;
    while done < iterations
        invariant
            done <= iterations,
            current@.len() == points@.len(),
            32 * points@.len() <= POOL_LIMIT,
            rounds.len() == done + 1,
            rounds[0] == points@,
            rounds.last() == current@,
            forall|i: int|
                0 <= i < done ==> relaxed_once(
                    #[trigger] rounds[i],
                    rounds[i + 1],
                    near,
                    breakpoint,
                    circle,
                    exit,
                    clip,
                    centre,
                ),
            forall|a: Scalar, b: Scalar| call_requires(*near, (a, b)),
            forall|a: Point, b: Point, c: Scalar| call_requires(*breakpoint, (a, b, c)),
            forall|a: Point, b: Point, c: Point| call_requires(*circle, (a, b, c)),
            forall|b: BoundingBox, p: Point, q: Point| call_requires(*exit, (b, p, q)),
            forall|b: BoundingBox, p: Point, q: Point| call_requires(*clip, (b, p, q)),
            forall|corners: Vec<Point>| call_requires(*centre, (corners,)),
        decreases iterations - done,
    {
        let next = match relax_once(&current, near, breakpoint, circle, exit, clip, centre) {
            Ok(next) => next,
            Err(e) => {
                proof {
                    assert(relaxed_along(points@, rounds, near, breakpoint, circle, exit, clip, centre));
                }
                return Err(e);
            },
        };
        proof {
            let more = rounds.push(next@);
            assert forall|i: int| 0 <= i < done + 1 implies relaxed_once(
                #[trigger] more[i],
                more[i + 1],
                near,
                breakpoint,
                circle,
                exit,
                clip,
                centre,
            ) by {
                if i < done {
                    assert(more[i] == rounds[i] && more[i + 1] == rounds[i + 1]);
                }
            }
            rounds = more;
        }
        current = next;
        done += 1;
    }
    proof {
        assert(relaxed_along(points@, rounds, near, breakpoint, circle, exit, clip, centre));
    }
    Ok(current)
}

} // verus!
