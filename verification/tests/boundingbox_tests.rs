use fortunes_algorithm::boundingbox::{BoundingBox, Crossing, Marks, Side};
use fortunes_algorithm::diagram::Diagram;
use fortunes_algorithm::error::BuildError;
use fortunes_algorithm::scalar::{Point, Scalar};

fn scalar(value: f64) -> Scalar {
    let bits = value.to_bits();
    let magnitude = (bits & 0x7FFF_FFFF_FFFF_FFFF) as i64;
    if bits >> 63 == 1 {
        Scalar::new(-magnitude)
    } else {
        Scalar::new(magnitude)
    }
}

fn double(value: Scalar) -> f64 {
    let key = value.key();
    if key < 0 {
        f64::from_bits((-key) as u64 | (1 << 63))
    } else {
        f64::from_bits(key as u64)
    }
}

fn point(x: f64, y: f64) -> Point {
    Point::new(scalar(x), scalar(y))
}

fn xy(p: Point) -> (f64, f64) {
    (double(p.x), double(p.y))
}

fn unit_box() -> BoundingBox {
    BoundingBox::new(scalar(0.0), scalar(1.0), scalar(0.0), scalar(1.0))
}

#[test]
fn contains_test() {
    let bbox = unit_box();

    assert_eq!(bbox.contains(&point(0.5, 0.5)), true);
    assert_eq!(bbox.contains(&point(1.5, 0.5)), false);
    assert_eq!(bbox.contains(&point(-0.5, 0.5)), false);
    assert_eq!(bbox.contains(&point(0.5, 1.5)), false);
    assert_eq!(bbox.contains(&point(0.5, -0.5)), false);
}

#[test]
fn contains_takes_the_border_and_refuses_nan() {
    let bbox = unit_box();
    assert!(bbox.contains(&point(0.0, 0.0)));
    assert!(bbox.contains(&point(1.0, 1.0)));
    assert!(bbox.contains(&point(-0.0, 0.5)));
    assert!(!bbox.contains(&point(f64::NAN, 0.5)));
    assert!(!bbox.contains(&point(0.5, f64::INFINITY)));
}

#[test]
fn unit_box_is_the_unit_square() {
    assert_eq!(BoundingBox::unit(), unit_box());
}

#[test]
fn sides_go_round_in_four_steps() {
    assert_eq!(Side::Left.next(), Side::Bottom);
    assert_eq!(Side::Bottom.next(), Side::Right);
    assert_eq!(Side::Right.next(), Side::Top);
    assert_eq!(Side::Top.next(), Side::Left);
    assert_eq!(Side::Nowhere.next(), Side::Nowhere);
    for side in [Side::Left, Side::Bottom, Side::Right, Side::Top] {
        assert_eq!(side.next().next().next().next(), side);
    }
}

#[test]
fn corners_lie_where_two_sides_meet() {
    let bbox = BoundingBox::new(scalar(-1.0), scalar(2.0), scalar(-3.0), scalar(4.0));
    assert_eq!(xy(bbox.get_top_left()), (-1.0, -3.0));
    assert_eq!(xy(bbox.get_top_right()), (2.0, -3.0));
    assert_eq!(xy(bbox.get_bottom_left()), (-1.0, 4.0));
    assert_eq!(xy(bbox.get_bottom_right()), (2.0, 4.0));
    assert_eq!(xy(bbox.get_corner(Side::Top, Side::Left)), (-1.0, -3.0));
    assert_eq!(xy(bbox.get_corner(Side::Left, Side::Top)), (-1.0, -3.0));
    assert_eq!(xy(bbox.get_corner(Side::Right, Side::Top)), (2.0, -3.0));
    assert_eq!(xy(bbox.get_corner(Side::Left, Side::Bottom)), (-1.0, 4.0));
    assert_eq!(xy(bbox.get_corner(Side::Bottom, Side::Right)), (2.0, 4.0));
}

#[test]
fn hull_grows_to_hold_every_point() {
    let points = vec![point(0.5, 0.5), point(-0.25, 0.75), point(0.5, 1.5), point(1.25, -2.0)];
    let bbox = unit_box().hull(&points);
    assert_eq!(double(bbox.left), -0.25);
    assert_eq!(double(bbox.right), 1.25);
    assert_eq!(double(bbox.top), -2.0);
    assert_eq!(double(bbox.bottom), 1.5);
    for p in &points {
        assert!(bbox.contains(p));
    }
    assert_eq!(unit_box().hull(&vec![]), unit_box());
    assert_eq!(unit_box().grown(&point(f64::NAN, 0.5)), unit_box());
}

#[test]
fn link_vertices_walks_through_the_corners() {
    let mut diagram = Diagram::new();
    let face = diagram.add_face(point(0.9, 0.9));
    let other = diagram.add_face(point(0.1, 0.1));
    let (inner, _) = diagram.add_edge(face, other);
    let on_bottom = diagram.add_vertex(point(0.6, 1.0));
    let on_right = diagram.add_vertex(point(1.0, 0.7));
    diagram.set_half_edge_origin(inner, Some(on_right));
    diagram.set_half_edge_destination(inner, Some(on_bottom));
    unit_box().link_vertices(&mut diagram, inner, Side::Bottom, inner, Side::Right);
    let round = diagram.outer_edges(inner).expect("closed");
    let corners: Vec<(f64, f64)> = round
        .iter()
        .map(|&e| xy(diagram.get_vertex_point(diagram.get_half_edge_origin(e).unwrap())))
        .collect();
    assert_eq!(corners, vec![(1.0, 0.7), (0.6, 1.0), (1.0, 1.0)]);
    assert_eq!(diagram.half_edge_count(), 4);
    assert_eq!(diagram.vertex_count(), 3);
    for &e in &round {
        let next = diagram.get_half_edge_next(e).unwrap();
        assert_eq!(diagram.get_half_edge_prev(next), Some(e));
        assert_eq!(diagram.get_half_edge_incident_face(e), Some(face));
    }
}

#[test]
fn link_vertices_on_one_side_adds_one_half_edge() {
    let mut diagram = Diagram::new();
    let face = diagram.add_face(point(0.5, 0.9));
    let a = diagram.add_half_edge(face);
    let b = diagram.add_half_edge(face);
    let first = diagram.add_vertex(point(0.3, 1.0));
    let second = diagram.add_vertex(point(0.7, 1.0));
    diagram.set_half_edge_destination(a, Some(first));
    diagram.set_half_edge_origin(b, Some(second));
    unit_box().link_vertices(&mut diagram, a, Side::Bottom, b, Side::Bottom);
    assert_eq!(diagram.half_edge_count(), 3);
    assert_eq!(diagram.vertex_count(), 2);
    let wall = diagram.get_half_edge_next(a).unwrap();
    assert_eq!(diagram.get_half_edge_next(wall), Some(b));
    assert_eq!(diagram.get_half_edge_origin(wall), Some(first));
    assert_eq!(diagram.get_half_edge_destination(wall), Some(second));
}

fn no_crossing() -> Crossing {
    Crossing {
        outgoing_half_edge: None,
        outgoing_side: Side::Nowhere,
        incoming_half_edge: None,
        incoming_side: Side::Nowhere,
    }
}

fn no_marks() -> Marks {
    Marks { processed_half_edges: vec![], vertices_to_remove: vec![], half_edges_to_remove: vec![] }
}

#[test]
fn border_cannot_leave_the_box_twice_in_a_row() {
    let mut diagram = Diagram::new();
    let face = diagram.add_face(point(0.5, 0.5));
    let a = diagram.add_half_edge(face);
    let b = diagram.add_half_edge(face);
    let mut crossing = no_crossing();
    assert_eq!(BoundingBox::go_out(a, Side::Top, &mut crossing), Ok(()));
    assert_eq!(crossing.outgoing_half_edge, Some(a));
    assert_eq!(crossing.outgoing_side, Side::Top);
    assert_eq!(BoundingBox::go_out(b, Side::Left, &mut crossing), Err(BuildError::GeometryInvariant));
    assert_eq!(crossing.outgoing_half_edge, Some(a));
}

#[test]
fn border_that_comes_in_first_is_kept_for_the_end() {
    let mut diagram = Diagram::new();
    let face = diagram.add_face(point(0.5, 0.5));
    let a = diagram.add_half_edge(face);
    let b = diagram.add_half_edge(face);
    let mut crossing = no_crossing();
    assert_eq!(unit_box().come_in(&mut diagram, a, Side::Left, &mut crossing), Ok(()));
    assert_eq!(crossing.incoming_half_edge, Some(a));
    assert_eq!(crossing.incoming_side, Side::Left);
    assert_eq!(diagram.half_edge_count(), 2);
    assert_eq!(
        unit_box().come_in(&mut diagram, b, Side::Top, &mut crossing),
        Err(BuildError::GeometryInvariant)
    );
    assert_eq!(crossing.incoming_half_edge, Some(a));
}

#[test]
fn border_that_comes_in_after_leaving_is_closed_along_the_box() {
    let mut diagram = Diagram::new();
    let face = diagram.add_face(point(0.5, 0.9));
    let a = diagram.add_half_edge(face);
    let b = diagram.add_half_edge(face);
    let first = diagram.add_vertex(point(0.3, 1.0));
    let second = diagram.add_vertex(point(0.7, 1.0));
    diagram.set_half_edge_destination(a, Some(first));
    diagram.set_half_edge_origin(b, Some(second));
    let mut crossing = no_crossing();
    assert_eq!(BoundingBox::go_out(a, Side::Bottom, &mut crossing), Ok(()));
    assert_eq!(unit_box().come_in(&mut diagram, b, Side::Bottom, &mut crossing), Ok(()));
    assert_eq!(crossing.outgoing_half_edge, None);
    assert_eq!(crossing.incoming_half_edge, None);
    let wall = diagram.get_half_edge_next(a).unwrap();
    assert_eq!(diagram.get_half_edge_next(wall), Some(b));
    assert_eq!(diagram.half_edge_count(), 3);
}

#[test]
fn moved_end_is_a_new_vertex_or_the_end_of_the_twin() {
    let mut diagram = Diagram::new();
    let face = diagram.add_face(point(0.2, 0.5));
    let other = diagram.add_face(point(0.8, 0.5));
    let (edge, twin) = diagram.add_edge(face, other);
    let inside = diagram.add_vertex(point(0.5, 0.5));
    let outside = diagram.add_vertex(point(0.5, 1.5));
    diagram.set_half_edge_origin(edge, Some(inside));
    diagram.set_half_edge_destination(edge, Some(outside));
    diagram.set_half_edge_origin(twin, Some(outside));
    diagram.set_half_edge_destination(twin, Some(inside));
    assert_eq!(BoundingBox::move_end(&mut diagram, edge, false, point(0.5, 1.0), &vec![]), Ok(()));
    let moved = diagram.get_half_edge_destination(edge).unwrap();
    assert_ne!(moved, outside);
    assert_eq!(xy(diagram.get_vertex_point(moved)), (0.5, 1.0));
    assert_eq!(diagram.get_half_edge_origin(edge), Some(inside));
    assert_eq!(diagram.vertex_count(), 3);
    assert_eq!(BoundingBox::move_end(&mut diagram, twin, true, point(0.5, 1.0), &vec![edge]), Ok(()));
    assert_eq!(diagram.get_half_edge_origin(twin), Some(moved));
    assert_eq!(diagram.vertex_count(), 3);
}

#[test]
fn half_edge_in_the_box_stays_and_one_outside_is_marked() {
    let mut diagram = Diagram::new();
    let face = diagram.add_face(point(0.5, 0.5));
    let edge = diagram.add_half_edge(face);
    let next = diagram.add_half_edge(face);
    diagram.link_half_edges(edge, next);
    let from = diagram.add_vertex(point(0.2, 0.2));
    let to = diagram.add_vertex(point(0.4, 0.4));
    diagram.set_half_edge_origin(edge, Some(from));
    diagram.set_half_edge_destination(edge, Some(to));
    let mut crossing = no_crossing();
    let mut marks = no_marks();
    let kept = unit_box().clip_half_edge(&mut diagram, face, edge, from, true, true, &vec![], &mut crossing, &mut marks);
    assert_eq!(kept, Ok(()));
    assert!(marks.vertices_to_remove.is_empty() && marks.half_edges_to_remove.is_empty());
    assert!(marks.processed_half_edges.is_empty());
    assert_eq!(diagram.get_face_outer_component(face), Some(edge));
    let gone = unit_box().clip_half_edge(&mut diagram, face, edge, from, false, false, &vec![], &mut crossing, &mut marks);
    assert_eq!(gone, Ok(()));
    assert_eq!(marks.vertices_to_remove, vec![from]);
    assert_eq!(marks.half_edges_to_remove, vec![edge]);
    assert_eq!(diagram.get_face_outer_component(face), Some(next));
    assert_eq!(diagram.half_edge_count(), 2);
}

#[test]
fn crossings_must_go_with_where_the_ends_lie() {
    let mut diagram = Diagram::new();
    let face = diagram.add_face(point(0.5, 0.5));
    let edge = diagram.add_half_edge(face);
    let from = diagram.add_vertex(point(0.5, 0.5));
    let to = diagram.add_vertex(point(0.5, 1.5));
    diagram.set_half_edge_origin(edge, Some(from));
    diagram.set_half_edge_destination(edge, Some(to));
    let mut crossing = no_crossing();
    let mut marks = no_marks();
    let none = unit_box().clip_half_edge(&mut diagram, face, edge, from, true, false, &vec![], &mut crossing, &mut marks);
    assert_eq!(none, Err(BuildError::GeometryInvariant));
    let hits = vec![(point(0.5, 1.0), Side::Bottom)];
    let one = unit_box().clip_half_edge(&mut diagram, face, edge, from, true, false, &hits, &mut crossing, &mut marks);
    assert_eq!(one, Ok(()));
    let end = diagram.get_half_edge_destination(edge).unwrap();
    assert_eq!(xy(diagram.get_vertex_point(end)), (0.5, 1.0));
    assert_eq!(crossing.outgoing_half_edge, Some(edge));
    assert_eq!(crossing.outgoing_side, Side::Bottom);
    assert_eq!(marks.processed_half_edges, vec![edge]);
    assert!(marks.vertices_to_remove.is_empty());
}
