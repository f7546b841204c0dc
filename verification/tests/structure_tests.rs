use fortunes_algorithm::beachline::{Beachline, Descent};
use fortunes_algorithm::diagram::{Diagram, FaceKey};
use fortunes_algorithm::error::BuildError;
use fortunes_algorithm::event::{Event, EventType};
use fortunes_algorithm::queue::{PriorityQueue, QueueIndex};
use fortunes_algorithm::scalar::{Point, Scalar};
use fortunes_algorithm::tree::{NodeKey, Tree};
use fortunes_algorithm::typedvector::{TypedIndex, TypedVec};
use fortunes_algorithm::voronoi::Voronoi;
use fortunes_algorithm::voronoi_builder::{check_circle, get_initial_x, is_moving_right, Circle};

fn scalar(value: f64) -> Scalar {
    let bits = value.to_bits();
    let magnitude = (bits & 0x7FFF_FFFF_FFFF_FFFF) as i64;
    if bits >> 63 == 1 {
        Scalar::new(-magnitude)
    } else {
        Scalar::new(magnitude)
    }
}

fn point(x: f64, y: f64) -> Point {
    Point::new(scalar(x), scalar(y))
}

fn in_order(tree: &Tree<u32>) -> Vec<u32> {
    let mut out = vec![];
    let mut node = tree.get_leftmost_node();
    while let Some(key) = node {
        out.push(*tree.get_contents(key));
        node = tree.get_next(key);
    }
    out
}

fn depth(tree: &Tree<u32>, node: Option<NodeKey>) -> usize {
    match node {
        None => 0,
        Some(key) => 1 + depth(tree, tree.get_left(key)).max(depth(tree, tree.get_right(key))),
    }
}

#[test]
fn tree_keeps_the_order_of_insertion() {
    let mut tree: Tree<u32> = Tree::new();
    assert!(!tree.has_root());
    assert_eq!(tree.get_leftmost_node(), None);
    let five = tree.create_root(5);
    assert!(tree.has_root());
    let three = tree.insert_before(five, 3);
    let seven = tree.insert_after(five, 7);
    let four = tree.insert_after(three, 4);
    let six = tree.insert_before(seven, 6);
    assert_eq!(in_order(&tree), vec![3, 4, 5, 6, 7]);
    assert_eq!(tree.get_prev(three), None);
    assert_eq!(tree.get_next(seven), None);
    assert_eq!(tree.get_next(four), Some(five));
    assert_eq!(tree.get_prev(six), Some(five));
    tree.delete_node(five);
    assert_eq!(in_order(&tree), vec![3, 4, 6, 7]);
    assert!(!tree.contains(five));
    assert!(tree.contains(six));
    tree.set_contents(six, 60);
    assert_eq!(in_order(&tree), vec![3, 4, 60, 7]);
    tree.delete_node(three);
    tree.delete_node(seven);
    tree.delete_node(four);
    assert_eq!(in_order(&tree), vec![60]);
    tree.delete_node(six);
    assert!(!tree.has_root());
    assert_eq!(in_order(&tree), Vec::<u32>::new());
}

#[test]
fn tree_stays_shallow_when_filled_at_one_end() {
    let mut tree: Tree<u32> = Tree::new();
    let mut last = tree.create_root(0);
    for i in 1..1024 {
        last = tree.insert_after(last, i);
    }
    assert_eq!(in_order(&tree), (0..1024).collect::<Vec<u32>>());
    assert!(depth(&tree, tree.root()) <= 11);
    let mut first = tree.get_leftmost_node().unwrap();
    for i in 0..1000u32 {
        first = tree.insert_before(first, 2000 + i);
    }
    assert!(depth(&tree, tree.root()) <= 12);
    let mut node = tree.get_leftmost_node();
    let mut toggle = false;
    while let Some(key) = node {
        node = tree.get_next(key);
        if toggle {
            tree.delete_node(key);
        }
        toggle = !toggle;
    }
    assert_eq!(in_order(&tree).len(), 1012);
    assert!(depth(&tree, tree.root()) <= 12);
}

#[test]
fn tree_matches_a_vector_under_mixed_changes() {
    let mut tree: Tree<u32> = Tree::new();
    let mut model: Vec<(NodeKey, u32)> = vec![];
    let root = tree.create_root(0);
    model.push((root, 0));
    let mut state = 12345u64;
    for step in 1..600u32 {
        state = state.wrapping_mul(6364136223846793005).wrapping_add(1442695040888963407);
        let pick = ((state >> 33) as usize) % model.len();
        let action = (state >> 20) % 3;
        if action == 0 {
            let key = tree.insert_before(model[pick].0, step);
            model.insert(pick, (key, step));
        } else if action == 1 {
            let key = tree.insert_after(model[pick].0, step);
            model.insert(pick + 1, (key, step));
        } else if model.len() > 1 {
            tree.delete_node(model[pick].0);
            model.remove(pick);
        }
        assert_eq!(in_order(&tree), model.iter().map(|m| m.1).collect::<Vec<u32>>());
    }
    for (i, (key, value)) in model.iter().enumerate() {
        assert_eq!(tree.get_contents(*key), value);
        assert_eq!(tree.get_prev(*key), if i == 0 { None } else { Some(model[i - 1].0) });
    }
}

fn site(y: f64) -> Event {
    Event::site_event(scalar(y), FaceKey { raw: 0 })
}

#[test]
fn queue_gives_the_least_first() {
    let mut queue = PriorityQueue::new();
    assert!(queue.is_empty());
    assert!(queue.pop().is_none());
    for y in [0.5, 0.25, 0.75, -1.0, 0.1, 3.0, 0.25] {
        queue.push(site(y));
    }
    assert_eq!(queue.len(), 7);
    let mut out = vec![];
    while let Some(event) = queue.pop() {
        out.push(event.y().key());
    }
    let expect: Vec<i64> =
        [-1.0, 0.1, 0.25, 0.25, 0.5, 0.75, 3.0].iter().map(|&y| scalar(y).key()).collect();
    assert_eq!(out, expect);
}

#[test]
fn queue_forgets_what_was_removed() {
    let mut queue = PriorityQueue::new();
    let a = queue.push(site(0.4));
    let b = queue.push(site(0.2));
    let c = queue.push(site(0.6));
    let d = queue.push(site(0.1));
    assert!(queue.contains(b));
    queue.remove(b);
    assert!(!queue.contains(b));
    queue.remove(b);
    queue.remove(QueueIndex::new());
    assert_eq!(queue.len(), 3);
    assert_eq!(queue.pop().unwrap().y().key(), scalar(0.1).key());
    queue.remove(d);
    assert_eq!(queue.len(), 2);
    queue.remove(c);
    assert_eq!(queue.pop().unwrap().y().key(), scalar(0.4).key());
    queue.remove(a);
    assert!(queue.is_empty());
    let e = queue.push(site(0.9));
    assert_ne!(e, a);
    assert!(queue.contains(e));
}

#[test]
fn queue_matches_a_sorted_list_under_mixed_changes() {
    let mut queue = PriorityQueue::new();
    let mut model: Vec<(QueueIndex, i64)> = vec![];
    let mut state = 99u64;
    for _ in 0..2000 {
        state = state.wrapping_mul(6364136223846793005).wrapping_add(1442695040888963407);
        let action = (state >> 40) % 4;
        if action < 2 {
            let y = ((state >> 11) as f64) / ((1u64 << 53) as f64);
            let handle = queue.push(site(y));
            model.push((handle, scalar(y).key()));
        } else if action == 2 && !model.is_empty() {
            let pick = ((state >> 13) as usize) % model.len();
            queue.remove(model[pick].0);
            model.remove(pick);
        } else if !model.is_empty() {
            let least = model.iter().map(|m| m.1).min().unwrap();
            let popped = queue.pop().unwrap();
            assert_eq!(popped.y().key(), least);
            let at = model.iter().position(|m| m.1 == least).unwrap();
            model.remove(at);
        }
        assert_eq!(queue.len(), model.len());
    }
}

#[test]
fn events_are_ordered_by_their_y() {
    let early = site(0.25);
    let late = Event::circle_event(scalar(0.5), point(0.1, 0.2), NodeKey { slot: 3 });
    assert!(early.precedes(&late));
    assert!(!late.precedes(&early));
    assert!(!early.coincides(&late));
    assert!(early.coincides(&site(0.25)));
    match late.event_type() {
        EventType::CircleEvent { point: p, arc } => {
            assert_eq!(*p, point(0.1, 0.2));
            assert_eq!(*arc, NodeKey { slot: 3 });
        },
        EventType::SiteEvent { .. } => panic!("a circle event"),
    }
}

#[test]
fn diagram_keeps_twins_and_links() {
    let mut diagram = Diagram::new();
    let a = diagram.add_face(point(0.25, 0.5));
    let b = diagram.add_face(point(0.75, 0.5));
    assert_eq!(diagram.get_face_indices(), vec![a, b]);
    assert_eq!(diagram.get_face_outer_component(a), None);
    let (e1, e2) = diagram.add_edge(a, b);
    assert_ne!(e1, e2);
    assert_eq!(diagram.get_half_edge_twin(e1), Some(e2));
    assert_eq!(diagram.get_half_edge_twin(e2), Some(e1));
    assert_eq!(diagram.get_half_edge_incident_face(e1), Some(a));
    assert_eq!(diagram.get_half_edge_incident_face(e2), Some(b));
    assert_eq!(diagram.get_face_outer_component(a), Some(e1));
    assert_eq!(diagram.get_face_outer_component(b), Some(e2));
    assert_eq!(diagram.get_half_edge_origin(e1), None);
    let e3 = diagram.add_half_edge(a);
    assert_eq!(diagram.get_face_outer_component(a), Some(e1));
    diagram.link_half_edges(e1, e3);
    assert_eq!(diagram.get_half_edge_next(e1), Some(e3));
    assert_eq!(diagram.get_half_edge_prev(e3), Some(e1));
    let v = diagram.add_vertex(point(0.5, 0.0));
    let w = diagram.add_vertex(point(0.5, 1.0));
    diagram.set_half_edge_origin(e1, Some(v));
    diagram.set_half_edge_destination(e1, Some(w));
    assert_eq!(diagram.get_half_edge_origin_point(e1), point(0.5, 0.0));
    assert_eq!(diagram.get_vertex_point(w), point(0.5, 1.0));
    assert_eq!(diagram.get_vertex_points(), vec![point(0.5, 0.0), point(0.5, 1.0)]);
    assert!(!diagram.is_vertex_loose(v));
    diagram.remove_vertex(w);
    assert!(!diagram.has_vertex(w));
    assert!(diagram.has_vertex(v));
    assert_eq!(diagram.vertex_count(), 1);
    diagram.remove_vertex(w);
    assert_eq!(diagram.vertex_count(), 1);
    let again = diagram.add_vertex(point(0.1, 0.1));
    assert_ne!(again, w);
    diagram.remove_half_edge(e3);
    assert!(!diagram.has_half_edge(e3));
    assert_eq!(diagram.half_edge_count(), 2);
    assert_eq!(diagram.face_count(), 2);
    assert_eq!(diagram.get_face_point(b), point(0.75, 0.5));
}

#[test]
fn diagram_walks_round_a_face_once() {
    let mut diagram = Diagram::new();
    let face = diagram.add_face(point(0.5, 0.5));
    let corners = [(0.0, 0.0), (0.0, 1.0), (1.0, 1.0), (1.0, 0.0)];
    let vertices: Vec<_> = corners.iter().map(|&(x, y)| diagram.add_vertex(point(x, y))).collect();
    let edges: Vec<_> = (0..4).map(|_| diagram.add_half_edge(face)).collect();
    for i in 0..4 {
        diagram.set_half_edge_origin(edges[i], Some(vertices[i]));
        diagram.set_half_edge_destination(edges[i], Some(vertices[(i + 1) % 4]));
        diagram.link_half_edges(edges[i], edges[(i + 1) % 4]);
    }
    assert_eq!(diagram.outer_edges(edges[0]), Some(edges.clone()));
    assert_eq!(diagram.outer_edges(edges[2]), Some(vec![edges[2], edges[3], edges[0], edges[1]]));
    assert!(diagram.is_face_on_border(face));
    assert_eq!(diagram.get_edge_vertices().len(), 4);
    assert_eq!(diagram.get_edge_endpoints()[1], (point(0.0, 1.0), point(1.0, 1.0)));
    let mut cursor = diagram.outer_edge_iter(face);
    let mut seen = vec![];
    while let Some(edge) = cursor.next() {
        seen.push(edge);
    }
    assert_eq!(seen, edges);
    diagram.remove_half_edge(edges[2]);
    assert_eq!(diagram.outer_edges(edges[0]), None);
    let open = diagram.add_half_edge(face);
    let end = diagram.add_half_edge(face);
    diagram.link_half_edges(open, end);
    assert_eq!(diagram.outer_edges(open), Some(vec![open, end]));
}

#[test]
fn typed_vector_names_items_by_position() {
    let mut items: TypedVec<&str> = TypedVec::new();
    assert!(items.is_empty());
    let a = items.insert("a");
    let b = items.insert("b");
    let c = items.insert("c");
    assert_eq!(a.into(), 0);
    assert_eq!(c.into(), 2);
    assert!(a == TypedIndex::new(0));
    assert!(a != b);
    assert_eq!(b.digits(), "1");
    assert_eq!(TypedIndex::<u8>::new(0).digits(), "0");
    assert_eq!(TypedIndex::<u8>::new(12030).digits(), "12030");
    assert_eq!(items.len(), 3);
    assert_eq!(items.get(b), Some(&"b"));
    assert_eq!(items.get(TypedIndex::new(3)), None);
    *items.get_mut(b).unwrap() = "B";
    assert_eq!(items.as_slice(), &["a", "B", "c"]);
    items.as_slice_mut()[0] = "A";
    assert_eq!(items.remove(b), "B");
    assert_eq!(items.as_slice(), &["A", "c"]);
    assert!(items.get_mut(c).is_none());
    let mut seen = vec![];
    let mut cursor = items.iter();
    while let Some((index, item)) = cursor.next() {
        seen.push((index.into(), *item));
    }
    assert_eq!(seen, vec![(0, "A"), (1, "c")]);
    let mut cursor = items.iter_mut();
    assert_eq!(cursor.next().map(|(i, s)| (i.into(), *s)), Some((0, "A")));
    let back = TypedVec::from_vec(vec![1, 2, 3]).into_vec();
    assert_eq!(back, vec![1, 2, 3]);
}

#[test]
fn voronoi_lists_hold_faces_and_edges() {
    let points = [point(0.1, 0.2), point(0.3, 0.4)];
    let mut voronoi = Voronoi::new(&points);
    let faces = voronoi.get_faces();
    assert_eq!(faces.len(), 2);
    assert_eq!(voronoi.get_face_point(faces[1]), point(0.3, 0.4));
    assert!(voronoi.get_face_outer_component(faces[0]).is_none());
    let (e1, e2) = voronoi.add_edge(faces[0], faces[1]);
    assert!(voronoi.get_half_edge_twin(e1) == Some(e2));
    assert!(voronoi.get_half_edge_twin(e2) == Some(e1));
    assert!(voronoi.get_face_outer_component(faces[0]) == Some(e1));
    assert!(voronoi.get_half_edge_incident_face(e2) == Some(faces[1]));
    let e3 = voronoi.create_half_edge(faces[0]);
    assert!(voronoi.get_face_outer_component(faces[0]) == Some(e1));
    voronoi.link_half_edges(e1, e3);
    voronoi.link_half_edges(e3, e1);
    assert!(voronoi.get_half_edge_next(e1) == Some(e3));
    assert!(voronoi.get_half_edge_prev(e1) == Some(e3));
    let v = voronoi.create_vertex(point(0.5, 0.5));
    voronoi.set_half_edge_origin(e1, Some(v));
    voronoi.set_half_edge_destination(e3, Some(v));
    assert!(voronoi.get_half_edge_origin(e1) == Some(v));
    assert!(voronoi.get_half_edge_destination(e3) == Some(v));
    assert!(voronoi.get_half_edge_destination(e1).is_none());
    assert_eq!(voronoi.get_vertex_point(v), point(0.5, 0.5));
    assert_eq!(voronoi.get_vertices().len(), 1);
    voronoi.set_face_outer_component(faces[1], None);
    assert!(voronoi.get_face_outer_component(faces[1]).is_none());
    let mut cursor = voronoi.outer_edge_iter(faces[0]);
    let mut seen = 0;
    while let Some(_) = cursor.next() {
        seen += 1;
    }
    assert_eq!(seen, 2);
}

#[test]
fn circle_is_due_when_both_breakpoints_come_to_its_centre() {
    let left = point(0.2, 0.5);
    let middle = point(0.5, 0.2);
    let right = point(0.8, 0.5);
    let circle = Circle { center: point(0.5, 0.5), event_y: scalar(0.8) };
    assert!(check_circle(left, middle, right, circle, true));
    assert!(!check_circle(left, middle, right, circle, false));
    let nan = Circle { center: point(0.5, 0.5), event_y: scalar(f64::NAN) };
    assert!(!check_circle(left, middle, right, nan, true));
    let off = Circle { center: point(0.1, 0.5), event_y: scalar(0.8) };
    assert!(!check_circle(left, middle, right, off, true));
    assert!(!check_circle(middle, left, right, circle, true));
    assert!(is_moving_right(left, middle));
    assert!(!is_moving_right(middle, right));
    assert_eq!(get_initial_x(left, middle, true), scalar(0.2));
    assert_eq!(get_initial_x(left, middle, false), scalar(0.5));
}

#[test]
fn descent_follows_the_breakpoints() {
    let focus = point(0.5, 0.2);
    let (l, r) = (scalar(0.3), scalar(0.7));
    assert_eq!(Beachline::decide(scalar(0.2), focus, false, l, r), Descent::Left);
    assert_eq!(Beachline::decide(scalar(0.3), focus, false, l, r), Descent::Here);
    assert_eq!(Beachline::decide(scalar(0.7), focus, false, l, r), Descent::Here);
    assert_eq!(Beachline::decide(scalar(0.8), focus, false, l, r), Descent::Right);
    assert_eq!(Beachline::decide(scalar(0.4), focus, true, l, r), Descent::Left);
    assert_eq!(Beachline::decide(scalar(0.6), focus, true, l, r), Descent::Right);
    assert_eq!(Beachline::decide(scalar(0.5), focus, true, l, r), Descent::Duplicate);
    let ends = (scalar(f64::NEG_INFINITY), scalar(f64::INFINITY));
    assert_eq!(Beachline::decide(scalar(-1e300), focus, false, ends.0, ends.1), Descent::Here);
}

#[test]
fn errors_have_words() {
    assert_eq!(BuildError::DuplicateSite.message(), "two sites lie at the same point");
    assert_ne!(BuildError::GeometryInvariant.message(), BuildError::NonFiniteInput.message());
}
