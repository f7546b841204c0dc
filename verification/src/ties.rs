use vstd::prelude::*;
use crate::beachline::{Arc, Beachline};
use crate::diagram::{Diagram, Face, FaceKey, HalfEdge, HalfEdgeKey, VertexKey};
use crate::error::BuildError;
use crate::event::{Event, EventType};
use crate::queue::PriorityQueue;
use crate::scalar::{Point, Scalar};
use crate::tree::NodeKey;
use crate::steady::{seamed, seams_sound};
use crate::voronoi_builder::{
    closed_at, hinge_of, unhooked_pair, welded_if, with_destination, with_edge, with_origin, Hinge,
    Seam,
    arc_removed, beside_before, beside_behind, beside_between, beside_left, beside_right, checked,
    circle_cancelled, circle_handled, cleared, cleared_at, due_for, front_of, front_ok, joined,
    lemma_checked_sites, lemma_without_sites, site_handled, split_arcs, triple_before, triple_behind, without, without_at, Answer, Circle,
    Front, Handled,
};

verus! {

/// No circle event among the events belongs to the arc.
pub open spec fn unnamed(live: Map<usize, Event>, arc: NodeKey) -> bool {
    forall|id: usize| #[trigger]
        live.contains_key(id) ==> match live[id].event_type {
            EventType::CircleEvent { arc: owner, .. } => owner != arc,
            EventType::SiteEvent { .. } => true,
        }
}

/// Every circle event among the events belongs to an arc of the beachline, and the handle
/// that this arc holds names it.
pub open spec fn tied(front: Front) -> bool {
    forall|id: usize| #[trigger]
        front.live.contains_key(id) ==> match front.live[id].event_type {
            EventType::CircleEvent { arc, .. } => front.arcs.contains_key(arc)
                && front.arcs[arc].event_index.id == Some(id),
            EventType::SiteEvent { .. } => true,
        }
}

/// Where the events are tied to the arcs, no arc has two circle events.
pub proof fn lemma_one_event(front: Front, one: usize, other: usize, arc: NodeKey)
    requires
        tied(front),
        front.live.contains_key(one),
        front.live.contains_key(other),
        front.live[one].event_type matches EventType::CircleEvent { arc: owner, .. } && owner == arc,
        front.live[other].event_type matches EventType::CircleEvent { arc: owner, .. } && owner == arc,
    ensures
        one == other,
{
}

/// A front without circle events is tied.
pub proof fn lemma_sites_tied(front: Front)
    requires
        forall|id: usize| #[trigger]
            front.live.contains_key(id) ==> front.live[id].event_type is SiteEvent,
    ensures
        tied(front),
{
}

/// Once an event has left the queue the rest is tied as before, and where it was the
/// circle event of an arc, no event belongs to that arc any more.
pub proof fn lemma_popped_tied(front: Front, id: usize)
    requires
        tied(front),
        front.live.contains_key(id),
    ensures
        tied(Front { live: front.live.remove(id), ..front }),
        match front.live[id].event_type {
            EventType::CircleEvent { arc, .. } => unnamed(front.live.remove(id), arc),
            EventType::SiteEvent { .. } => true,
        },
{
}

/// Looking at three arcs, of which the one in the middle holds no handle, leaves the
/// events tied to the arcs; the other arcs stay as they are.
pub proof fn lemma_checked_tied(
    voronoi: &Diagram,
    front: Front,
    triple: Option<(NodeKey, NodeKey, NodeKey)>,
    current_y: Scalar,
    answer: Option<Answer>,
)
    requires
        tied(front),
        front_ok(front),
        front.issued < usize::MAX,
        triple.is_some() ==> front.arcs.contains_key(triple.unwrap().1)
            && front.arcs[triple.unwrap().1].event_index.id.is_none(),
    ensures
        tied(checked(voronoi, front, triple, current_y, answer)),
        checked(voronoi, front, triple, current_y, answer).arcs.dom() == front.arcs.dom(),
        forall|arc: NodeKey|
            triple.is_none() || arc != triple.unwrap().1 ==> #[trigger] checked(
                voronoi,
                front,
                triple,
                current_y,
                answer,
            ).arcs[arc] == front.arcs[arc],
{
    let after = checked(voronoi, front, triple, current_y, answer);
    match triple {
        Some(arcs) => {
            if due_for(voronoi, front.arcs, arcs, current_y, answer.unwrap()) {
                assert(after.arcs.dom() =~= front.arcs.dom());
                assert forall|id: usize| #[trigger] after.live.contains_key(id) implies match after.live[id].event_type {
                    EventType::CircleEvent { arc, .. } => after.arcs.contains_key(arc)
                        && after.arcs[arc].event_index.id == Some(id),
                    EventType::SiteEvent { .. } => true,
                } by {
                    if id != front.issued as usize {
                        assert(front.live.contains_key(id));
                    }
                }
            }
        },
        None => {},
    }
}

/// Cancelling the circle event of an arc leaves the events tied, and none belongs to that
/// arc any more.
pub proof fn lemma_cancelled_tied(front: Front, arc: NodeKey)
    requires
        tied(front),
        front.arcs.contains_key(arc),
    ensures
        tied(
            Front {
                arcs: front.arcs.insert(arc, cleared(front.arcs[arc])),
                live: without(front.live, front.arcs[arc].event_index),
                issued: front.issued,
            },
        ),
        unnamed(without(front.live, front.arcs[arc].event_index), arc),
{
    let live = without(front.live, front.arcs[arc].event_index);
    assert forall|id: usize| #[trigger] live.contains_key(id) implies front.live.contains_key(id) by {}
}

/// The handling of a site event leaves the events tied to the arcs.
pub proof fn lemma_site_tied<
    N: Fn(Scalar, Scalar) -> bool,
    B: Fn(Point, Point, Scalar) -> Scalar,
    C: Fn(Point, Point, Point) -> Circle,
>(
    face: FaceKey,
    initial: &Diagram,
    line: &Beachline,
    queue: &PriorityQueue,
    result: &Diagram,
    result_line: &Beachline,
    result_queue: &PriorityQueue,
    current_y: Scalar,
    near: &N,
    breakpoint: &B,
    circle: &C,
    r: Result<Handled, BuildError>,
)
    requires
        site_handled(
            face,
            initial,
            line,
            queue,
            result,
            result_line,
            result_queue,
            current_y,
            near,
            breakpoint,
            circle,
            r,
        ),
        tied(front_of(line, queue)),
        front_ok(front_of(line, queue)),
        queue.issued() + 3 < usize::MAX,
        line.tree.wf(),
    ensures
        tied(front_of(result_line, result_queue)),
{
    line.tree.lemma_order();
    let front = front_of(line, queue);
    match r {
        Ok(Handled::Started { root }) => {
            line.tree.lemma_empty();
        },
        Ok(Handled::Site { middle, made, first, second }) => {
            line.tree.lemma_rank(middle);
            let rank = line.tree.rank(middle);
            let order = line.order().insert(rank, made.left).insert(rank + 2, made.right);
            lemma_cancelled_tied(front, middle);
            let split = Front {
                arcs: split_arcs(line.arcs(), middle, face, (made.left, made.right), made.pair),
                live: without(queue.live(), line.arcs()[middle].event_index),
                issued: queue.issued(),
            };
            assert(tied(split)) by {
                assert forall|id: usize| #[trigger] split.live.contains_key(id) implies match split.live[id].event_type {
                    EventType::CircleEvent { arc, .. } => split.arcs.contains_key(arc)
                        && split.arcs[arc].event_index.id == Some(id),
                    EventType::SiteEvent { .. } => true,
                } by {
                    assert(front.live.contains_key(id));
                }
            }
            let before = triple_before(order, rank, made.left, middle);
            let behind = triple_behind(order, rank + 2, middle, made.right);
            let half = checked(result, split, before, current_y, first);
            lemma_checked_sites(result, split, before, current_y, first);
            lemma_checked_tied(result, split, before, current_y, first);
            lemma_checked_tied(result, half, behind, current_y, second);
        },
        Ok(Handled::Beside { arc, after, joint, first, second, third }) => {
            line.tree.lemma_rank(arc);
            let rank = line.tree.rank(arc);
            let place = if after {
                rank + 1
            } else {
                rank
            };
            let order = line.order().insert(place, joint.node);
            let left = beside_left(line.order(), rank, after);
            let right = beside_right(line.order(), rank, after);
            let seam = joined(initial, line, arc, after, face, joint);
            let calm_arcs = cleared_at(line.arcs(), left);
            let calm = Front {
                arcs: calm_arcs,
                live: without_at(queue.live(), line.arcs(), left),
                issued: queue.issued(),
            };
            if left.is_some() {
                assert(line.tree.has(left.unwrap()));
                lemma_cancelled_tied(front, left.unwrap());
            }
            assert(tied(calm));
            let quiet = Front {
                arcs: cleared_at(calm_arcs, right),
                live: without_at(calm.live, calm_arcs, right),
                issued: queue.issued(),
            };
            if right.is_some() {
                assert(line.tree.has(right.unwrap()));
                lemma_cancelled_tied(calm, right.unwrap());
            }
            assert(tied(quiet));
            let start = Front { arcs: seam.arcs, live: quiet.live, issued: queue.issued() };
            assert(left.is_some() && right.is_some() ==> left.unwrap() != right.unwrap());
            assert forall|key: NodeKey| #[trigger] quiet.arcs.contains_key(key) implies start.arcs.contains_key(
                key,
            ) && start.arcs[key].event_index == quiet.arcs[key].event_index by {}
            assert(tied(start)) by {
                assert forall|id: usize| #[trigger] start.live.contains_key(id) implies match start.live[id].event_type {
                    EventType::CircleEvent { arc, .. } => start.arcs.contains_key(arc)
                        && start.arcs[arc].event_index.id == Some(id),
                    EventType::SiteEvent { .. } => true,
                } by {
                    match start.live[id].event_type {
                        EventType::CircleEvent { arc, .. } => {
                            assert(quiet.arcs.contains_key(arc));
                        },
                        EventType::SiteEvent { .. } => {},
                    }
                }
            }
            let round_left = beside_before(order, place, left, joint.node);
            let round_new = beside_between(left, joint.node, right);
            let round_right = beside_behind(order, place, joint.node, right);
            let one = checked(result, start, round_left, current_y, first);
            let two = checked(result, one, round_new, current_y, second);
            assert(start.arcs.contains_key(joint.node) && start.arcs[joint.node].event_index.id.is_none());
            assert(left.is_some() ==> start.arcs.contains_key(left.unwrap())
                && start.arcs[left.unwrap()].event_index.id.is_none());
            assert(right.is_some() ==> start.arcs.contains_key(right.unwrap())
                && start.arcs[right.unwrap()].event_index.id.is_none());
            if left.is_some() {
                lemma_without_sites(queue.live(), line.arcs()[left.unwrap()].event_index);
            }
            if right.is_some() {
                lemma_without_sites(calm.live, calm_arcs[right.unwrap()].event_index);
            }
            assert(front_ok(start));
            lemma_checked_sites(result, start, round_left, current_y, first);
            lemma_checked_sites(result, one, round_new, current_y, second);
            lemma_checked_tied(result, start, round_left, current_y, first);
            lemma_checked_tied(result, one, round_new, current_y, second);
            lemma_checked_tied(result, two, round_right, current_y, third);
        },
        _ => {},
    }
}

/// The handling of the circle event of an arc, once that event has left the queue, leaves
/// the events tied to the arcs.
pub proof fn lemma_circle_tied<N: Fn(Scalar, Scalar) -> bool, C: Fn(Point, Point, Point) -> Circle>(
    point: Point,
    arc: NodeKey,
    initial: &Diagram,
    line: &Beachline,
    queue: &PriorityQueue,
    result: &Diagram,
    result_line: &Beachline,
    result_queue: &PriorityQueue,
    y: Scalar,
    near: &N,
    circle: &C,
    r: Result<Handled, BuildError>,
)
    requires
        circle_handled(
            point,
            arc,
            initial,
            line,
            queue,
            result,
            result_line,
            result_queue,
            y,
            near,
            circle,
            r,
        ),
        tied(front_of(line, queue)),
        unnamed(queue.live(), arc),
        front_ok(front_of(line, queue)),
        queue.issued() + 2 < usize::MAX,
        line.tree.wf(),
    ensures
        tied(front_of(result_line, result_queue)),
{
    line.tree.lemma_order();
    let front = front_of(line, queue);
    match r {
        Ok(Handled::Circle { vertex, pair, first, second }) => {
            line.tree.lemma_rank(arc);
            let rank = line.tree.rank(arc);
            let left = line.order()[rank - 1];
            let right = line.order()[rank + 1];
            let order = line.order().remove(rank);
            assert(line.tree.has(left) && line.tree.has(right));
            assert(left != right && left != arc && right != arc);
            let cancelled = circle_cancelled(line.arcs(), queue.live(), left, right);
            lemma_cancelled_tied(front, left);
            let calm = Front {
                arcs: line.arcs().insert(left, cleared(line.arcs()[left])),
                live: without(queue.live(), line.arcs()[left].event_index),
                issued: queue.issued(),
            };
            lemma_cancelled_tied(calm, right);
            let quiet = Front { arcs: cancelled.0, live: cancelled.1, issued: queue.issued() };
            assert(tied(quiet));
            assert(unnamed(quiet.live, arc)) by {
                assert forall|id: usize| #[trigger] quiet.live.contains_key(id) implies queue.live().contains_key(
                    id,
                ) by {}
            }
            let closed = Front {
                arcs: arc_removed(cancelled.0, arc, left, right, pair),
                live: cancelled.1,
                issued: queue.issued(),
            };
            assert(tied(closed)) by {
                assert forall|id: usize| #[trigger] closed.live.contains_key(id) implies match closed.live[id].event_type {
                    EventType::CircleEvent { arc, .. } => closed.arcs.contains_key(arc)
                        && closed.arcs[arc].event_index.id == Some(id),
                    EventType::SiteEvent { .. } => true,
                } by {
                    assert(quiet.live.contains_key(id));
                }
            }
            let before = triple_before(order, rank - 1, left, right);
            let behind = triple_behind(order, rank, left, right);
            let half = checked(result, closed, before, y, first);
            lemma_without_sites(queue.live(), line.arcs()[left].event_index);
            lemma_without_sites(calm.live, calm.arcs[right].event_index);
            assert(front_ok(closed));
            lemma_checked_sites(result, closed, before, y, first);
            lemma_checked_tied(result, closed, before, y, first);
            lemma_checked_tied(result, half, behind, y, second);
        },
        _ => {},
    }
}

/// Every half edge that is on a face is on a face of the diagram that has an outer
/// component, or on one of the two faces `x` and `y`.
pub open spec fn started_but(
    half_edges: Map<HalfEdgeKey, HalfEdge>,
    faces: Map<FaceKey, Face>,
    x: Option<FaceKey>,
    y: Option<FaceKey>,
) -> bool {
    forall|e: HalfEdgeKey| #[trigger]
        half_edges.contains_key(e) ==> match half_edges[e].incident_face {
            Some(f) => faces.contains_key(f) && (faces[f].outer_component.is_some() || x == Some(f) || y
                == Some(f)),
            None => true,
        }
}

/// Every face that has a half edge on it has an outer component.
pub open spec fn faces_started(voronoi: &Diagram) -> bool {
    started_but(voronoi.half_edges(), voronoi.faces(), None, None)
}

/// The face `x`, unless it is one of the two faces given.
pub open spec fn unless(x: Option<FaceKey>, left_face: FaceKey, right_face: FaceKey) -> Option<FaceKey> {
    if x == Some(left_face) || x == Some(right_face) {
        None
    } else {
        x
    }
}

/// A new edge between two faces gives each of them an outer component, where it had none.
pub proof fn lemma_edge_started(
    half_edges: Map<HalfEdgeKey, HalfEdge>,
    faces: Map<FaceKey, Face>,
    pair: (HalfEdgeKey, HalfEdgeKey),
    left_face: FaceKey,
    right_face: FaceKey,
    x: Option<FaceKey>,
    y: Option<FaceKey>,
)
    requires
        started_but(half_edges, faces, x, y),
        faces.contains_key(left_face),
        faces.contains_key(right_face),
    ensures
        started_but(
            with_edge(half_edges, pair, left_face, right_face),
            Diagram::faces_with(Diagram::faces_with(faces, left_face, pair.0), right_face, pair.1),
            unless(x, left_face, right_face),
            unless(y, left_face, right_face),
        ),
{
    let edges = with_edge(half_edges, pair, left_face, right_face);
    let first = Diagram::faces_with(faces, left_face, pair.0);
    let second = Diagram::faces_with(first, right_face, pair.1);
    assert(second[left_face].outer_component.is_some());
    assert(second[right_face].outer_component.is_some());
    assert forall|f: FaceKey| faces.contains_key(f) implies #[trigger] second.contains_key(f) && (
    faces[f].outer_component.is_some() ==> second[f].outer_component.is_some()) by {}
    assert forall|e: HalfEdgeKey| #[trigger] edges.contains_key(e) implies match edges[e].incident_face {
        Some(f) => second.contains_key(f) && (second[f].outer_component.is_some() || unless(
            x,
            left_face,
            right_face,
        ) == Some(f) || unless(y, left_face, right_face) == Some(f)),
        None => true,
    } by {
        if e != pair.0 && e != pair.1 {
            assert(half_edges.contains_key(e));
        }
    }
}

/// The handling of a site event leaves every face that has a half edge with an outer
/// component, where the arcs of the beachline had their edges between them.
pub proof fn lemma_site_started<
    N: Fn(Scalar, Scalar) -> bool,
    B: Fn(Point, Point, Scalar) -> Scalar,
    C: Fn(Point, Point, Point) -> Circle,
>(
    face: FaceKey,
    initial: &Diagram,
    line: &Beachline,
    queue: &PriorityQueue,
    result: &Diagram,
    result_line: &Beachline,
    result_queue: &PriorityQueue,
    current_y: Scalar,
    near: &N,
    breakpoint: &B,
    circle: &C,
    r: Result<Handled, BuildError>,
)
    requires
        site_handled(
            face,
            initial,
            line,
            queue,
            result,
            result_line,
            result_queue,
            current_y,
            near,
            breakpoint,
            circle,
            r,
        ),
        faces_started(initial),
        initial.faces().contains_key(face),
        line.wf(),
        line.fits(initial),
        seams_sound(initial.half_edges(), line.order(), line.arcs()),
    ensures
        faces_started(result),
{
    line.tree.lemma_order();
    match r {
        Ok(Handled::Site { middle, made, first, second }) => {
            let old_face = line.arcs()[middle].face.unwrap();
            assert(line.tree.has(middle));
            lemma_edge_started(
                initial.half_edges(),
                initial.faces(),
                made.pair,
                old_face,
                face,
                None,
                None,
            );
        },
        Ok(Handled::Beside { arc, after, joint, first, second, third }) => {
            line.tree.lemma_rank(arc);
            let rank = line.tree.rank(arc);
            let left = beside_left(line.order(), rank, after);
            let right = beside_right(line.order(), rank, after);
            let calm = cleared_at(cleared_at(line.arcs(), left), right);
            let seam = Seam { half_edges: initial.half_edges(), faces: initial.faces(), arcs: calm };
            let bare = unhooked_pair(seam, joint.removed);
            let placed = Seam { arcs: bare.arcs.insert(joint.node, Arc::fresh(face)), ..bare };
            let x = if joint.removed.is_some() {
                line.arcs()[left.unwrap()].face
            } else {
                None
            };
            let y = if joint.removed.is_some() {
                line.arcs()[right.unwrap()].face
            } else {
                None
            };
            if left.is_some() {
                assert(line.tree.has(left.unwrap()));
            }
            if right.is_some() {
                assert(line.tree.has(right.unwrap()));
            }
            assert(started_but(bare.half_edges, bare.faces, x, y)) by {
                if joint.removed.is_some() {
                    let l = left.unwrap();
                    let r = right.unwrap();
                    let two = joint.removed.unwrap();
                    let i = if after {
                        rank
                    } else {
                        rank - 1
                    };
                    assert(line.order()[i] == l && line.order()[i + 1] == r);
                    assert(seamed(initial.half_edges(), line.arcs(), l, r));
                    assert(initial.half_edges()[two.0].incident_face == x);
                    assert(initial.half_edges()[two.1].incident_face == y);
                    assert forall|e: HalfEdgeKey| #[trigger] bare.half_edges.contains_key(e) implies match bare.half_edges[e].incident_face {
                        Some(f) => bare.faces.contains_key(f) && (bare.faces[f].outer_component.is_some()
                            || x == Some(f) || y == Some(f)),
                        None => true,
                    } by {
                        assert(initial.half_edges().contains_key(e));
                    }
                }
            }
            assert(placed.arcs[joint.node].face == Some(face));
            let one = welded_if(placed, left, Some(joint.node), joint.left_pair);
            if left.is_some() {
                let l = left.unwrap();
                assert(placed.arcs[l].face == line.arcs()[l].face);
                lemma_edge_started(
                    placed.half_edges,
                    placed.faces,
                    joint.left_pair.unwrap(),
                    placed.arcs[l].face.unwrap(),
                    face,
                    x,
                    y,
                );
            }
            let y_left = if left.is_some() {
                unless(y, line.arcs()[left.unwrap()].face.unwrap(), face)
            } else {
                y
            };
            assert(started_but(one.half_edges, one.faces, None, y_left));
            assert(one.faces.dom() =~= initial.faces().dom());
            if right.is_some() {
                let r = right.unwrap();
                assert(one.arcs[r].face == line.arcs()[r].face);
                assert(one.arcs[joint.node].face == Some(face));
                lemma_edge_started(
                    one.half_edges,
                    one.faces,
                    joint.right_pair.unwrap(),
                    face,
                    one.arcs[r].face.unwrap(),
                    None,
                    y_left,
                );
            }
        },
        _ => {},
    }
}

/// Closing the diagram at a vertex leaves every half edge on its face, and puts the two
/// half edges of the new edge on the faces of the two neighbours.
pub proof fn lemma_closed_faces(
    half_edges: Map<HalfEdgeKey, HalfEdge>,
    hinge: Hinge,
    vertex: VertexKey,
    pair: (HalfEdgeKey, HalfEdgeKey),
    prev_face: FaceKey,
    next_face: FaceKey,
)
    requires
        half_edges.contains_key(hinge.left),
        half_edges.contains_key(hinge.right),
        half_edges.contains_key(hinge.prev_right),
        half_edges.contains_key(hinge.next_left),
        !half_edges.contains_key(pair.0),
        !half_edges.contains_key(pair.1),
        pair.0 != pair.1,
    ensures
        closed_at(half_edges, hinge, vertex, pair, prev_face, next_face).dom() == half_edges.dom().insert(
            pair.0,
        ).insert(pair.1),
        closed_at(half_edges, hinge, vertex, pair, prev_face, next_face)[pair.0].incident_face == Some(
            prev_face,
        ),
        closed_at(half_edges, hinge, vertex, pair, prev_face, next_face)[pair.1].incident_face == Some(
            next_face,
        ),
        forall|e: HalfEdgeKey| #[trigger]
            half_edges.contains_key(e) ==> closed_at(
                half_edges,
                hinge,
                vertex,
                pair,
                prev_face,
                next_face,
            )[e].incident_face == half_edges[e].incident_face,
{
    let one = with_origin(half_edges, hinge.prev_right, vertex);
    let two = with_destination(one, hinge.left, vertex);
    let three = with_origin(two, hinge.right, vertex);
    let ended = with_destination(three, hinge.next_left, vertex);
    assert(ended.dom() =~= half_edges.dom());
    assert forall|e: HalfEdgeKey| #[trigger] half_edges.contains_key(e) implies ended[e].incident_face
        == half_edges[e].incident_face by {
        assert(one[e].incident_face == half_edges[e].incident_face);
        assert(two[e].incident_face == one[e].incident_face);
        assert(three[e].incident_face == two[e].incident_face);
    }
    let linked = Diagram::linked(ended, hinge.left, hinge.right);
    assert(linked.dom() =~= half_edges.dom());
    assert forall|e: HalfEdgeKey| #[trigger] half_edges.contains_key(e) implies linked[e].incident_face
        == half_edges[e].incident_face by {}
    let opened = linked.insert(pair.0, HalfEdge { twin: Some(pair.1), ..HalfEdge::fresh(prev_face) }).insert(
        pair.1,
        HalfEdge { twin: Some(pair.0), ..HalfEdge::fresh(next_face) },
    );
    let wide = half_edges.dom().insert(pair.0).insert(pair.1);
    assert(opened.dom() =~= wide);
    let started = with_origin(with_destination(opened, pair.0, vertex), pair.1, vertex);
    assert(started.dom() =~= wide);
    assert forall|e: HalfEdgeKey| #[trigger] wide.contains(e) implies started[e].incident_face
        == opened[e].incident_face by {}
    let first = Diagram::linked(started, pair.0, hinge.prev_right);
    assert(first.dom() =~= wide);
    assert forall|e: HalfEdgeKey| #[trigger] wide.contains(e) implies first[e].incident_face
        == opened[e].incident_face by {}
    let last = Diagram::linked(first, hinge.next_left, pair.1);
    assert(last.dom() =~= wide);
    assert forall|e: HalfEdgeKey| #[trigger] wide.contains(e) implies last[e].incident_face
        == opened[e].incident_face by {}
    assert(last == closed_at(half_edges, hinge, vertex, pair, prev_face, next_face));
    assert forall|e: HalfEdgeKey| #[trigger] half_edges.contains_key(e) implies last[e].incident_face
        == half_edges[e].incident_face by {
        assert(wide.contains(e));
    }
}


/// The handling of a circle event leaves every face that has a half edge with an outer
/// component.
pub proof fn lemma_circle_started<N: Fn(Scalar, Scalar) -> bool, C: Fn(Point, Point, Point) -> Circle>(
    point: Point,
    arc: NodeKey,
    initial: &Diagram,
    line: &Beachline,
    queue: &PriorityQueue,
    result: &Diagram,
    result_line: &Beachline,
    result_queue: &PriorityQueue,
    y: Scalar,
    near: &N,
    circle: &C,
    r: Result<Handled, BuildError>,
)
    requires
        circle_handled(
            point,
            arc,
            initial,
            line,
            queue,
            result,
            result_line,
            result_queue,
            y,
            near,
            circle,
            r,
        ),
        faces_started(initial),
        line.wf(),
        line.fits(initial),
    ensures
        faces_started(result),
{
    line.tree.lemma_order();
    match r {
        Ok(Handled::Circle { vertex, pair, first, second }) => {
            line.tree.lemma_rank(arc);
            let rank = line.tree.rank(arc);
            let left = line.order()[rank - 1];
            let right = line.order()[rank + 1];
            assert(line.tree.has(left) && line.tree.has(right));
            let left_face = line.arcs()[left].face.unwrap();
            let right_face = line.arcs()[right].face.unwrap();
            let faces = result.faces();
            let hinge = hinge_of(arc, initial, line).unwrap();
            lemma_closed_faces(initial.half_edges(), hinge, vertex, pair, left_face, right_face);
            assert(faces[left_face].outer_component.is_some());
            assert(faces[right_face].outer_component.is_some());
            assert forall|f: FaceKey| initial.faces().contains_key(f) implies #[trigger] faces.contains_key(
                f,
            ) && (initial.faces()[f].outer_component.is_some() ==> faces[f].outer_component.is_some()) by {}
            assert forall|e: HalfEdgeKey| #[trigger] result.half_edges().contains_key(e) implies match result.half_edges()[e].incident_face {
                Some(f) => faces.contains_key(f) && faces[f].outer_component.is_some(),
                None => true,
            } by {
                assert(initial.half_edges().dom().insert(pair.0).insert(pair.1).contains(e));
                if e != pair.0 && e != pair.1 {
                    assert(initial.half_edges().contains_key(e));
                    assert(result.half_edges()[e].incident_face == initial.half_edges()[e].incident_face);
                }
            }
        },
        _ => {},
    }
}

/// The face of a site event; none for a circle event.
pub open spec fn site_face(event: Event) -> Option<FaceKey> {
    match event.event_type {
        EventType::SiteEvent { face } => Some(face),
        EventType::CircleEvent { .. } => None,
    }
}

/// No arc is an arc of the face.
pub open spec fn unarced(arcs: Map<NodeKey, Arc>, face: FaceKey) -> bool {
    forall|arc: NodeKey| #[trigger] arcs.contains_key(arc) ==> arcs[arc].face != Some(face)
}

/// No event but the one under `id` is the site event of the face.
pub open spec fn alone(live: Map<usize, Event>, id: int, face: FaceKey) -> bool {
    forall|other: usize| #[trigger]
        live.contains_key(other) && other != id ==> site_face(live[other]) != Some(face)
}

/// Every site event that waits in the queue is the only one of its face, which is a face
/// of the diagram with its site on the level of the event, and no arc of the beachline
/// is an arc of that face yet.
pub open spec fn sites_ahead(front: Front, faces: Map<FaceKey, Face>) -> bool {
    forall|id: usize| #[trigger]
        front.live.contains_key(id) ==> match site_face(front.live[id]) {
            Some(face) => {
                &&& faces.contains_key(face)
                &&& front.live[id].y == faces[face].point.y
                &&& unarced(front.arcs, face)
                &&& alone(front.live, id as int, face)
            },
            None => true,
        }
}

/// Once a site event has left the queue, the others wait as before, and none of them is
/// an event of its face.
pub proof fn lemma_popped_ahead(front: Front, faces: Map<FaceKey, Face>, id: usize)
    requires
        sites_ahead(front, faces),
        front.live.contains_key(id),
    ensures
        sites_ahead(Front { live: front.live.remove(id), ..front }, faces),
        match site_face(front.live[id]) {
            Some(face) => alone(front.live.remove(id), -1, face) && unarced(front.arcs, face)
                && faces.contains_key(face) && front.live[id].y == faces[face].point.y,
            None => true,
        },
{
    let rest = front.live.remove(id);
    assert forall|k: usize| #[trigger] rest.contains_key(k) implies match site_face(rest[k]) {
        Some(face) => {
            &&& faces.contains_key(face)
            &&& rest[k].y == faces[face].point.y
            &&& unarced(front.arcs, face)
            &&& alone(rest, k as int, face)
        },
        None => true,
    } by {
        assert(front.live.contains_key(k));
        match site_face(rest[k]) {
            Some(face) => {
                assert forall|other: usize| #[trigger] rest.contains_key(other) && other != k implies site_face(
                    rest[other],
                ) != Some(face) by {
                    assert(front.live.contains_key(other));
                }
            },
            None => {},
        }
    }
    match site_face(front.live[id]) {
        Some(face) => {
            assert forall|other: usize| #[trigger] rest.contains_key(other) && other != -1 implies site_face(
                rest[other],
            ) != Some(face) by {
                assert(front.live.contains_key(other));
            }
        },
        None => {},
    }
}

/// The site events of `after` are site events of `before`, and every arc of `after` is
/// an arc of `face` or of a face that an arc of `before` is of.
pub open spec fn sites_carried(before: Front, after: Front, face: Option<FaceKey>) -> bool {
    &&& forall|id: usize| #[trigger]
        after.live.contains_key(id) && site_face(after.live[id]).is_some() ==> before.live.contains_key(id)
            && before.live[id] == after.live[id]
    &&& forall|arc: NodeKey| #[trigger]
        after.arcs.contains_key(arc) ==> after.arcs[arc].face.is_none() || after.arcs[arc].face == face
            || exists|from: NodeKey| #[trigger]
            before.arcs.contains_key(from) && before.arcs[from].face == after.arcs[arc].face
}

/// Where the site events and the faces of the arcs are carried over, the site events
/// wait as before.
pub proof fn lemma_carried_ahead(
    before: Front,
    after: Front,
    face: Option<FaceKey>,
    faces: Map<FaceKey, Face>,
    more: Map<FaceKey, Face>,
)
    requires
        sites_ahead(before, faces),
        sites_carried(before, after, face),
        face.is_some() ==> alone(before.live, -1, face.unwrap()),
        forall|f: FaceKey| #[trigger] faces.contains_key(f) ==> more.contains_key(f) && more[f].point == faces[f].point,
    ensures
        sites_ahead(after, more),
{
    assert forall|id: usize| #[trigger] after.live.contains_key(id) implies match site_face(after.live[id]) {
        Some(f) => {
            &&& more.contains_key(f)
            &&& after.live[id].y == more[f].point.y
            &&& unarced(after.arcs, f)
            &&& alone(after.live, id as int, f)
        },
        None => true,
    } by {
        match site_face(after.live[id]) {
            Some(f) => {
                assert(before.live.contains_key(id));
                assert(faces.contains_key(f));
                assert(unarced(before.arcs, f));
                assert(alone(before.live, id as int, f));
                assert forall|arc: NodeKey| #[trigger] after.arcs.contains_key(arc) implies after.arcs[arc].face
                    != Some(f) by {
                    if after.arcs[arc].face.is_none() {
                    } else if after.arcs[arc].face == face {
                        if face == Some(f) {
                            assert(alone(before.live, -1, f));
                            assert(site_face(before.live[id]) != Some(f));
                        }
                    } else {
                        let from = choose|from: NodeKey| #[trigger]
                            before.arcs.contains_key(from) && before.arcs[from].face == after.arcs[arc].face;
                        assert(before.arcs[from].face != Some(f));
                    }
                }
                assert forall|other: usize| #[trigger] after.live.contains_key(other) && other != id implies site_face(
                    after.live[other],
                ) != Some(f) by {
                    if site_face(after.live[other]).is_some() {
                        assert(before.live.contains_key(other));
                    }
                }
            },
            None => {},
        }
    }
}

/// Looking at three arcs carries the site events and the faces of the arcs over.
pub proof fn lemma_checked_carried(
    voronoi: &Diagram,
    front: Front,
    triple: Option<(NodeKey, NodeKey, NodeKey)>,
    current_y: Scalar,
    answer: Option<Answer>,
)
    requires
        triple.is_some() ==> front.arcs.contains_key(triple.unwrap().1),
    ensures
        sites_carried(front, checked(voronoi, front, triple, current_y, answer), None),
{
    let after = checked(voronoi, front, triple, current_y, answer);
    assert forall|arc: NodeKey| #[trigger] after.arcs.contains_key(arc) implies after.arcs[arc].face.is_none()
        || after.arcs[arc].face == None::<FaceKey> || exists|from: NodeKey| #[trigger]
        front.arcs.contains_key(from) && front.arcs[from].face == after.arcs[arc].face by {
        assert(front.arcs.contains_key(arc) && front.arcs[arc].face == after.arcs[arc].face);
    }
}

/// Carrying over twice carries over.
pub proof fn lemma_carried_trans(before: Front, middle: Front, after: Front, face: Option<FaceKey>)
    requires
        sites_carried(before, middle, face),
        sites_carried(middle, after, None),
    ensures
        sites_carried(before, after, face),
{
    assert forall|arc: NodeKey| #[trigger] after.arcs.contains_key(arc) implies after.arcs[arc].face.is_none()
        || after.arcs[arc].face == face || exists|from: NodeKey| #[trigger]
        before.arcs.contains_key(from) && before.arcs[from].face == after.arcs[arc].face by {
        if after.arcs[arc].face.is_some() {
            let via = choose|from: NodeKey| #[trigger]
                middle.arcs.contains_key(from) && middle.arcs[from].face == after.arcs[arc].face;
            assert(middle.arcs.contains_key(via));
            if middle.arcs[via].face != face {
                let from = choose|from: NodeKey| #[trigger]
                    before.arcs.contains_key(from) && before.arcs[from].face == middle.arcs[via].face;
                assert(before.arcs.contains_key(from) && before.arcs[from].face == after.arcs[arc].face);
            }
        }
    }
}

/// The handling of the site event of `face`, once that event has left the queue, leaves
/// the other site events waiting as before.
pub proof fn lemma_site_ahead<
    N: Fn(Scalar, Scalar) -> bool,
    B: Fn(Point, Point, Scalar) -> Scalar,
    C: Fn(Point, Point, Point) -> Circle,
>(
    face: FaceKey,
    initial: &Diagram,
    line: &Beachline,
    queue: &PriorityQueue,
    result: &Diagram,
    result_line: &Beachline,
    result_queue: &PriorityQueue,
    current_y: Scalar,
    near: &N,
    breakpoint: &B,
    circle: &C,
    r: Result<Handled, BuildError>,
)
    requires
        site_handled(
            face,
            initial,
            line,
            queue,
            result,
            result_line,
            result_queue,
            current_y,
            near,
            breakpoint,
            circle,
            r,
        ),
        sites_ahead(front_of(line, queue), initial.faces()),
        alone(queue.live(), -1, face),
        line.tree.wf(),
        forall|f: FaceKey| #[trigger]
            initial.faces().contains_key(f) ==> result.faces().contains_key(f) && result.faces()[f].point
                == initial.faces()[f].point,
    ensures
        sites_ahead(front_of(result_line, result_queue), result.faces()),
{
    line.tree.lemma_order();
    let front = front_of(line, queue);
    let last = front_of(result_line, result_queue);
    match r {
        Ok(Handled::Started { root }) => {
            assert(sites_carried(front, last, Some(face)));
        },
        Ok(Handled::Site { middle, made, first, second }) => {
            line.tree.lemma_rank(middle);
            let rank = line.tree.rank(middle);
            let order = line.order().insert(rank, made.left).insert(rank + 2, made.right);
            let split = Front {
                arcs: split_arcs(line.arcs(), middle, face, (made.left, made.right), made.pair),
                live: without(queue.live(), line.arcs()[middle].event_index),
                issued: queue.issued(),
            };
            assert(sites_carried(front, split, Some(face))) by {
                assert forall|arc: NodeKey| #[trigger] split.arcs.contains_key(arc) implies split.arcs[arc].face.is_none()
                    || split.arcs[arc].face == Some(face) || exists|from: NodeKey| #[trigger]
                    front.arcs.contains_key(from) && front.arcs[from].face == split.arcs[arc].face by {
                    if arc == middle {
                    } else if arc == made.left || arc == made.right {
                        assert(front.arcs.contains_key(middle) && front.arcs[middle].face
                            == split.arcs[arc].face);
                    } else {
                        assert(front.arcs.contains_key(arc) && front.arcs[arc].face == split.arcs[arc].face);
                    }
                }
            }
            let before = triple_before(order, rank, made.left, middle);
            let behind = triple_behind(order, rank + 2, middle, made.right);
            let half = checked(result, split, before, current_y, first);
            lemma_checked_carried(result, split, before, current_y, first);
            lemma_carried_trans(front, split, half, Some(face));
            assert(half.arcs.dom() =~= split.arcs.dom());
            lemma_checked_carried(result, half, behind, current_y, second);
            lemma_carried_trans(front, half, last, Some(face));
        },
        Ok(Handled::Beside { arc, after, joint, first, second, third }) => {
            line.tree.lemma_rank(arc);
            let rank = line.tree.rank(arc);
            let place = if after {
                rank + 1
            } else {
                rank
            };
            let order = line.order().insert(place, joint.node);
            let left = beside_left(line.order(), rank, after);
            let right = beside_right(line.order(), rank, after);
            let seam = joined(initial, line, arc, after, face, joint);
            let start = Front {
                arcs: seam.arcs,
                live: without_at(
                    without_at(queue.live(), line.arcs(), left),
                    cleared_at(line.arcs(), left),
                    right,
                ),
                issued: queue.issued(),
            };
            if left.is_some() {
                assert(line.tree.has(left.unwrap()));
            }
            if right.is_some() {
                assert(line.tree.has(right.unwrap()));
            }
            assert(start.arcs.dom() =~= line.arcs().dom().insert(joint.node));
            assert(sites_carried(front, start, Some(face))) by {
                assert forall|node: NodeKey| #[trigger] start.arcs.contains_key(node) implies start.arcs[node].face.is_none()
                    || start.arcs[node].face == Some(face) || exists|from: NodeKey| #[trigger]
                    front.arcs.contains_key(from) && front.arcs[from].face == start.arcs[node].face by {
                    if node != joint.node {
                        assert(front.arcs.contains_key(node) && front.arcs[node].face
                            == start.arcs[node].face);
                    }
                }
            }
            let round_left = beside_before(order, place, left, joint.node);
            let round_new = beside_between(left, joint.node, right);
            let round_right = beside_behind(order, place, joint.node, right);
            let one = checked(result, start, round_left, current_y, first);
            let two = checked(result, one, round_new, current_y, second);
            lemma_checked_carried(result, start, round_left, current_y, first);
            lemma_carried_trans(front, start, one, Some(face));
            assert(one.arcs.dom() =~= start.arcs.dom());
            lemma_checked_carried(result, one, round_new, current_y, second);
            lemma_carried_trans(front, one, two, Some(face));
            assert(two.arcs.dom() =~= one.arcs.dom());
            lemma_checked_carried(result, two, round_right, current_y, third);
            lemma_carried_trans(front, two, last, Some(face));
        },
        Ok(Handled::Circle { .. }) => {},
        Err(_) => {
            assert(sites_carried(front, last, Some(face))) by {
                assert forall|node: NodeKey| #[trigger] last.arcs.contains_key(node) implies last.arcs[node].face.is_none()
                    || last.arcs[node].face == Some(face) || exists|from: NodeKey| #[trigger]
                    front.arcs.contains_key(from) && front.arcs[from].face == last.arcs[node].face by {
                    assert(front.arcs.contains_key(node) && front.arcs[node].face == last.arcs[node].face);
                }
            }
        },
    }
    lemma_carried_ahead(front, last, Some(face), initial.faces(), result.faces());
}

/// The handling of a circle event leaves the site events waiting as before.
pub proof fn lemma_circle_ahead<N: Fn(Scalar, Scalar) -> bool, C: Fn(Point, Point, Point) -> Circle>(
    point: Point,
    arc: NodeKey,
    initial: &Diagram,
    line: &Beachline,
    queue: &PriorityQueue,
    result: &Diagram,
    result_line: &Beachline,
    result_queue: &PriorityQueue,
    y: Scalar,
    near: &N,
    circle: &C,
    r: Result<Handled, BuildError>,
)
    requires
        circle_handled(
            point,
            arc,
            initial,
            line,
            queue,
            result,
            result_line,
            result_queue,
            y,
            near,
            circle,
            r,
        ),
        sites_ahead(front_of(line, queue), initial.faces()),
        line.tree.wf(),
        forall|f: FaceKey| #[trigger]
            initial.faces().contains_key(f) ==> result.faces().contains_key(f) && result.faces()[f].point
                == initial.faces()[f].point,
    ensures
        sites_ahead(front_of(result_line, result_queue), result.faces()),
{
    line.tree.lemma_order();
    let front = front_of(line, queue);
    let last = front_of(result_line, result_queue);
    match r {
        Ok(Handled::Circle { vertex, pair, first, second }) => {
            line.tree.lemma_rank(arc);
            let rank = line.tree.rank(arc);
            let left = line.order()[rank - 1];
            let right = line.order()[rank + 1];
            let order = line.order().remove(rank);
            assert(line.tree.has(left) && line.tree.has(right));
            let cancelled = circle_cancelled(line.arcs(), queue.live(), left, right);
            let closed = Front {
                arcs: arc_removed(cancelled.0, arc, left, right, pair),
                live: cancelled.1,
                issued: queue.issued(),
            };
            assert(sites_carried(front, closed, None)) by {
                assert forall|node: NodeKey| #[trigger] closed.arcs.contains_key(node) implies closed.arcs[node].face.is_none()
                    || closed.arcs[node].face == None::<FaceKey> || exists|from: NodeKey| #[trigger]
                    front.arcs.contains_key(from) && front.arcs[from].face == closed.arcs[node].face by {
                    assert(front.arcs.contains_key(node) && front.arcs[node].face
                        == closed.arcs[node].face);
                }
            }
            let before = triple_before(order, rank - 1, left, right);
            let behind = triple_behind(order, rank, left, right);
            let half = checked(result, closed, before, y, first);
            lemma_checked_carried(result, closed, before, y, first);
            lemma_carried_trans(front, closed, half, None);
            assert(half.arcs.dom() =~= closed.arcs.dom());
            lemma_checked_carried(result, half, behind, y, second);
            lemma_carried_trans(front, half, last, None);
        },
        Ok(_) => {},
        Err(_) => {
            assert(sites_carried(front, last, None)) by {
                assert forall|node: NodeKey| #[trigger] last.arcs.contains_key(node) implies last.arcs[node].face.is_none()
                    || last.arcs[node].face == None::<FaceKey> || exists|from: NodeKey| #[trigger]
                    front.arcs.contains_key(from) && front.arcs[from].face == last.arcs[node].face by {
                    assert(front.arcs.contains_key(node) && front.arcs[node].face == last.arcs[node].face);
                }
            }
        },
    }
    lemma_carried_ahead(front, last, None, initial.faces(), result.faces());
}

} // verus!
