use fortunes_algorithm::boundingbox::{BoundingBox, Side};
use fortunes_algorithm::delauney::{get_adjacent_face_iterator, get_delauney_links};
use fortunes_algorithm::diagram::Diagram;
use fortunes_algorithm::error::BuildError;
use fortunes_algorithm::scalar::{Point, Scalar};
use fortunes_algorithm::beachline::Beachline;
use fortunes_algorithm::voronoi_builder::{build_voronoi, face_corners, lloyds_relaxation, Circle};

fn scalar(value: f64) -> Scalar {
    let bits = value.to_bits();
    let magnitude = (bits & 0x7FFF_FFFF_FFFF_FFFF) as i64;
    if bits >> 63 == 1 {
        Scalar::new(-magnitude)
    } else {
        Scalar::new(magnitude)
    }
}

fn double(value: Scalar) -> f64 {
    let key = value.key();
    if key < 0 {
        f64::from_bits((-key) as u64 | (1 << 63))
    } else {
        f64::from_bits(key as u64)
    }
}

fn point(x: f64, y: f64) -> Point {
    Point::new(scalar(x), scalar(y))
}

fn xy(p: Point) -> (f64, f64) {
    (double(p.x), double(p.y))
}

fn near(a: Scalar, b: Scalar) -> bool {
    (double(a) - double(b)).abs() < f64::EPSILON
}

fn breakpoint(p1: Point, p2: Point, y: Scalar) -> Scalar {
    let (x1, y1) = xy(p1);
    let (x2, y2) = xy(p2);
    let y = double(y);
    let d1 = 1.0 / (2.0 * (y1 - y));
    let d2 = 1.0 / (2.0 * (y2 - y));
    let a = d1 - d2;
    let b = 2.0 * (x2 * d2 - x1 * d1);
    let c = (y1.powi(2) + x1.powi(2) - y.powi(2)) * d1 - (y2.powi(2) + x2.powi(2) - y.powi(2)) * d2;
    let x = if a == 0.0 {
        -c / b
    } else if (y1 - y).abs() < f64::EPSILON {
        x1
    } else if (y2 - y).abs() < f64::EPSILON {
        x2
    } else {
        (-b - (b.powi(2) - 4.0 * a * c).sqrt()) / (2.0 * a)
    };
    scalar(x)
}

fn circumcenter(p1: (f64, f64), p2: (f64, f64), p3: (f64, f64)) -> (f64, f64) {
    let v1 = (-(p1.1 - p2.1), p1.0 - p2.0);
    let v2 = (-(p2.1 - p3.1), p2.0 - p3.0);
    let delta = ((p3.0 - p1.0) * 0.5, (p3.1 - p1.1) * 0.5);
    let t = (delta.0 * v2.1 - delta.1 * v2.0) / (v1.0 * v2.1 - v1.1 * v2.0);
    ((p1.0 + p2.0) * 0.5 + v1.0 * t, (p1.1 + p2.1) * 0.5 + v1.1 * t)
}

fn circle(a: Point, b: Point, c: Point) -> Circle {
    let center = circumcenter(xy(a), xy(b), xy(c));
    let (bx, by) = xy(b);
    let radius = ((center.0 - bx).powi(2) + (center.1 - by).powi(2)).sqrt();
    Circle { center: point(center.0, center.1), event_y: scalar(center.1 + radius) }
}

fn sides(bbox: BoundingBox) -> (f64, f64, f64, f64) {
    (double(bbox.left), double(bbox.right), double(bbox.top), double(bbox.bottom))
}

fn exit(bbox: BoundingBox, left_site: Point, right_site: Point) -> (Point, Side) {
    let (left, right, top, bottom) = sides(bbox);
    let (lx, ly) = xy(left_site);
    let (rx, ry) = xy(right_site);
    let direction = (-(ly - ry), lx - rx);
    let origin = ((lx + rx) * 0.5, (ly + ry) * 0.5);
    if !(origin.0 >= left && origin.0 <= right && origin.1 >= top && origin.1 <= bottom) {
        return (point(origin.0, origin.1), Side::Nowhere);
    }
    let (t1, side1) = if direction.0 < 0.0 {
        ((right - origin.0) / direction.0, Side::Right)
    } else if direction.0 > 0.0 {
        ((left - origin.0) / direction.0, Side::Left)
    } else {
        (f64::MIN, Side::Nowhere)
    };
    let (t2, side2) = if direction.1 > 0.0 {
        ((top - origin.1) / direction.1, Side::Top)
    } else if direction.1 < 0.0 {
        ((bottom - origin.1) / direction.1, Side::Bottom)
    } else {
        (f64::MAX, Side::Nowhere)
    };
    let (t, side) = if t2.abs() < t1.abs() { (t2, side2) } else { (t1, side1) };
    (point(origin.0 + direction.0 * t, origin.1 + direction.1 * t), side)
}

fn clip(bbox: BoundingBox, a: Point, b: Point) -> Vec<(Point, Side)> {
    let (left, right, top, bottom) = sides(bbox);
    let origin = xy(a);
    let destination = xy(b);
    let direction = (destination.0 - origin.0, destination.1 - origin.1);
    let mut hits = vec![];
    if origin.0 < left || destination.0 < left {
        let t = (left - origin.0) / direction.0;
        if t > 0.0 && t < 1.0 {
            let p = (origin.0 + direction.0 * t, origin.1 + direction.1 * t);
            if p.1 >= top && p.1 <= bottom {
                hits.push((point(p.0, p.1), Side::Left));
            }
        }
    }
    if origin.0 > right || destination.0 > right {
        let t = (right - origin.0) / direction.0;
        if t > 0.0 && t < 1.0 {
            let p = (origin.0 + direction.0 * t, origin.1 + direction.1 * t);
            if p.1 >= top && p.1 <= bottom {
                hits.push((point(p.0, p.1), Side::Right));
            }
        }
    }
    if origin.1 < top || destination.1 < top {
        let t = (top - origin.1) / direction.1;
        if t > 0.0 && t < 1.0 {
            let p = (origin.0 + direction.0 * t, origin.1 + direction.1 * t);
            if p.0 <= right && p.0 >= left {
                hits.push((point(p.0, p.1), Side::Top));
            }
        }
    }
    if origin.1 > bottom || destination.1 > bottom {
        let t = (bottom - origin.1) / direction.1;
        if t > 0.0 && t < 1.0 {
            let p = (origin.0 + direction.0 * t, origin.1 + direction.1 * t);
            if p.0 <= right && p.0 >= left {
                hits.push((point(p.0, p.1), Side::Bottom));
            }
        }
    }
    hits
}

fn build(sites: &[(f64, f64)]) -> Result<Diagram, BuildError> {
    let points: Vec<Point> = sites.iter().map(|&(x, y)| point(x, y)).collect();
    build_voronoi(&points, &near, &breakpoint, &circle, &exit, &clip)
}

fn area(diagram: &Diagram, face: fortunes_algorithm::diagram::FaceKey) -> f64 {
    let start = diagram.get_face_outer_component(face).expect("face without border");
    let round = diagram.outer_edges(start).expect("border does not close");
    let mut sum = 0.0;
    for edge in round {
        let o = xy(diagram.get_vertex_point(diagram.get_half_edge_origin(edge).unwrap()));
        let d = xy(diagram.get_vertex_point(diagram.get_half_edge_destination(edge).unwrap()));
        sum += o.0 * d.1 - d.0 * o.1;
    }
    sum.abs() * 0.5
}

fn close(a: f64, b: f64) -> bool {
    (a - b).abs() < 1e-9
}

/// A linear congruential generator, for points that are the same on every run.
fn random_sites(count: usize, seed: u64) -> Vec<(f64, f64)> {
    let mut state = seed;
    let mut next = move || {
        state = state.wrapping_mul(6364136223846793005).wrapping_add(1442695040888963407);
        ((state >> 11) as f64) / ((1u64 << 53) as f64)
    };
    (0..count).map(|_| (next(), next())).collect()
}

fn check_invariants(diagram: &Diagram, count: usize) {
    let faces = diagram.get_face_indices();
    assert_eq!(faces.len(), count);
    let mut total = 0.0;
    for &face in &faces {
        let start = diagram.get_face_outer_component(face).expect("face without border");
        let round = diagram.outer_edges(start).expect("border does not close");
        assert!(round.len() <= diagram.half_edge_count());
        assert!(round.len() <= 2 * count);
        for &edge in &round {
            let next = diagram.get_half_edge_next(edge).expect("no next");
            assert_eq!(diagram.get_half_edge_prev(next), Some(edge));
            assert_eq!(diagram.get_half_edge_incident_face(edge), Some(face));
            if let Some(twin) = diagram.get_half_edge_twin(edge) {
                assert_ne!(twin, edge);
                if diagram.has_half_edge(twin) {
                    assert_eq!(diagram.get_half_edge_twin(twin), Some(edge));
                }
            }
        }
        let a = area(diagram, face);
        assert!(a > 0.0);
        total += a;
    }
    assert!(total <= 1.0 + 1e-9);
    assert!(close(total, 1.0), "areas sum to {}", total);
}

#[test]
fn three_points_meet_at_circumcentre() {
    let d = 3f64.sqrt() / 10.0;
    let sites = [(0.5, 0.2), (0.2 + d, 0.65), (0.8 - d, 0.65)];
    let diagram = build(&sites).expect("build");
    check_invariants(&diagram, 3);
    let centre = circumcenter(sites[0], sites[1], sites[2]);
    let inner: Vec<(f64, f64)> = diagram
        .get_vertex_points()
        .into_iter()
        .map(xy)
        .filter(|p| p.0 > 1e-9 && p.0 < 1.0 - 1e-9 && p.1 > 1e-9 && p.1 < 1.0 - 1e-9)
        .collect();
    assert_eq!(inner.len(), 1);
    assert!(close(inner[0].0, centre.0) && close(inner[0].1, centre.1));
}

#[test]
fn random_points_build() {
    let sites = random_sites(200, 7);
    let diagram = build(&sites).expect("build");
    check_invariants(&diagram, 200);
}

#[test]
fn empty_input_gives_empty_diagram() {
    let diagram = build(&[]).expect("build");
    assert_eq!(diagram.get_face_indices().len(), 0);
    assert_eq!(diagram.get_vertex_points().len(), 0);
}

#[test]
fn non_finite_input_is_refused() {
    assert_eq!(build(&[(0.5, f64::NAN)]).err(), Some(BuildError::NonFiniteInput));
    assert_eq!(build(&[(f64::INFINITY, 0.5), (0.1, 0.2)]).err(), Some(BuildError::NonFiniteInput));
}

#[test]
fn larger_random_sets_build() {
    for seed in [1u64, 2, 3] {
        let sites = random_sites(2000, seed);
        let diagram = build(&sites).expect("build");
        check_invariants(&diagram, 2000);
    }
}

fn is_inner(p: (f64, f64)) -> bool {
    p.0 > 1e-9 && p.0 < 1.0 - 1e-9 && p.1 > 1e-9 && p.1 < 1.0 - 1e-9
}

/// The edges of the diagram that do not run along the border of the unit square, each
/// once, from the end with the smaller ordinate.
fn inner_edges(diagram: &Diagram) -> Vec<((f64, f64), (f64, f64))> {
    let on_same_side = |a: (f64, f64), b: (f64, f64)| {
        (close(a.0, 0.0) && close(b.0, 0.0))
            || (close(a.0, 1.0) && close(b.0, 1.0))
            || (close(a.1, 0.0) && close(b.1, 0.0))
            || (close(a.1, 1.0) && close(b.1, 1.0))
    };
    let mut edges: Vec<((f64, f64), (f64, f64))> = vec![];
    for (a, b) in diagram.get_edge_endpoints() {
        let (a, b) = (xy(a), xy(b));
        if on_same_side(a, b) {
            continue;
        }
        let (a, b) = if (a.1, a.0) <= (b.1, b.0) { (a, b) } else { (b, a) };
        if !edges.iter().any(|e| close(e.0 .0, a.0) && close(e.0 .1, a.1) && close(e.1 .0, b.0) && close(e.1 .1, b.1)) {
            edges.push((a, b));
        }
    }
    edges.sort_by(|p, q| p.partial_cmp(q).unwrap());
    edges
}

#[test]
fn two_points_are_parted_by_one_edge() {
    let diagram = build(&[(0.3, 0.5), (0.7, 0.5)]).expect("build");
    check_invariants(&diagram, 2);
    let edges = inner_edges(&diagram);
    assert_eq!(edges.len(), 1);
    assert!(close(edges[0].0 .0, 0.5) && close(edges[0].0 .1, 0.0));
    assert!(close(edges[0].1 .0, 0.5) && close(edges[0].1 .1, 1.0));
}

#[test]
fn four_points_on_the_axes() {
    let diagram = build(&[(0.4, 0.5), (0.6, 0.5), (0.5, 0.2), (0.5, 0.8)]).expect("build");
    assert_eq!(diagram.get_face_indices().len(), 4);
    let inner: Vec<(f64, f64)> =
        diagram.get_vertex_points().into_iter().map(xy).filter(|&p| is_inner(p)).collect();
    assert!(inner.iter().all(|p| close(p.0, 0.5)));
    assert!(inner.iter().any(|p| close(p.1, 0.5 - 0.4 / 3.0)));
    assert!(inner.iter().any(|p| close(p.1, 0.5 + 0.4 / 3.0)));
    for p in diagram.get_vertex_points().into_iter().map(xy) {
        assert!(p.0 >= 0.0 && p.0 <= 1.0 && p.1 >= 0.0 && p.1 <= 1.0);
    }
    let mut total = 0.0;
    for face in diagram.get_face_indices() {
        let site = xy(diagram.get_face_point(face));
        let start = diagram.get_face_outer_component(face).expect("face without border");
        let round = diagram.outer_edges(start).expect("border does not close");
        assert!(round.len() <= 8);
        for &edge in &round {
            let next = diagram.get_half_edge_next(edge).expect("no next");
            assert_eq!(diagram.get_half_edge_prev(next), Some(edge));
            assert_eq!(diagram.get_half_edge_incident_face(edge), Some(face));
        }
        let a = area(&diagram, face);
        if site.1 < 0.7 {
            assert!(a > 0.0);
        }
        total += a;
    }
    assert!(total <= 1.0 + 1e-9);
}

fn assert_three_upright_edges(diagram: &Diagram) {
    check_invariants(diagram, 4);
    let edges = inner_edges(diagram);
    assert_eq!(edges.len(), 3);
    for (edge, x) in edges.iter().zip([0.3, 0.5, 0.7]) {
        assert!(close(edge.0 .0, x) && close(edge.0 .1, 0.0), "{:?}", edge);
        assert!(close(edge.1 .0, x) && close(edge.1 .1, 1.0), "{:?}", edge);
    }
}

#[test]
fn sites_on_one_level_give_upright_edges() {
    let diagram = build(&[(0.2, 0.5), (0.4, 0.5), (0.6, 0.5), (0.8, 0.5)]).expect("build");
    assert_three_upright_edges(&diagram);
}

#[test]
fn sites_on_one_level_in_any_order() {
    let orders = [
        [(0.8, 0.5), (0.6, 0.5), (0.4, 0.5), (0.2, 0.5)],
        [(0.2, 0.5), (0.8, 0.5), (0.4, 0.5), (0.6, 0.5)],
        [(0.6, 0.5), (0.2, 0.5), (0.8, 0.5), (0.4, 0.5)],
    ];
    for sites in orders {
        let diagram = build(&sites).expect("build");
        assert_three_upright_edges(&diagram);
    }
}

#[test]
fn level_sites_above_others() {
    let sites = [(0.2, 0.1), (0.5, 0.1), (0.8, 0.1), (0.3, 0.6), (0.7, 0.7), (0.5, 0.9)];
    let diagram = build(&sites).expect("build");
    check_invariants(&diagram, 6);
}

#[test]
fn duplicate_sites_are_refused() {
    assert_eq!(build(&[(0.5, 0.5), (0.5, 0.5)]).err(), Some(BuildError::DuplicateSite));
}

#[test]
fn faces_hold_what_is_nearest_to_their_site() {
    let sites = random_sites(60, 5);
    let diagram = build(&sites).expect("build");
    for face in diagram.get_face_indices() {
        let site = xy(diagram.get_face_point(face));
        let start = diagram.get_face_outer_component(face).unwrap();
        let round = diagram.outer_edges(start).unwrap();
        let mut centre = (0.0, 0.0);
        for &edge in &round {
            let o = xy(diagram.get_vertex_point(diagram.get_half_edge_origin(edge).unwrap()));
            centre.0 += o.0 / round.len() as f64;
            centre.1 += o.1 / round.len() as f64;
        }
        let q = (0.5 * (centre.0 + site.0), 0.5 * (centre.1 + site.1));
        let own = ((q.0 - site.0).powi(2) + (q.1 - site.1).powi(2)).sqrt();
        for &other in &sites {
            if other != site {
                let d = ((q.0 - other.0).powi(2) + (q.1 - other.1).powi(2)).sqrt();
                assert!(own < d);
            }
        }
    }
}

/// Vertices less edges plus faces, with the outside of the box as one face more. An
/// edge between two faces is two half-edges that are twins; an edge along the box is one
/// half-edge without a twin.
fn euler(diagram: &Diagram) -> i64 {
    let mut twinned = 0i64;
    let mut single = 0i64;
    for edge in diagram.get_half_edge_indices() {
        match diagram.get_half_edge_twin(edge) {
            Some(_) => twinned += 1,
            None => single += 1,
        }
    }
    assert_eq!(twinned % 2, 0);
    let vertices = diagram.vertex_count() as i64;
    let faces = diagram.face_count() as i64 + 1;
    vertices - (twinned / 2 + single) + faces
}

#[test]
fn vertices_edges_and_faces_add_up() {
    for seed in [11u64, 12, 13, 14] {
        let sites = random_sites(300, seed);
        let diagram = build(&sites).expect("build");
        assert_eq!(euler(&diagram), 2);
    }
    let two = build(&[(0.3, 0.5), (0.7, 0.5)]).expect("build");
    assert_eq!(euler(&two), 2);
}

#[test]
fn ten_thousand_random_points_build() {
    let sites = random_sites(10000, 42);
    let diagram = build(&sites).expect("build");
    check_invariants(&diagram, 10000);
    assert_eq!(euler(&diagram), 2);
}

#[test]
fn no_site_lies_inside_the_circle_of_a_vertex() {
    let sites = random_sites(150, 21);
    let diagram = build(&sites).expect("build");
    let mut seen = 0;
    for edge in diagram.get_half_edge_indices() {
        let origin = diagram.get_half_edge_origin(edge).unwrap();
        let v = xy(diagram.get_vertex_point(origin));
        if !is_inner(v) {
            continue;
        }
        let face = diagram.get_half_edge_incident_face(edge).unwrap();
        let own = xy(diagram.get_face_point(face));
        let radius = ((v.0 - own.0).powi(2) + (v.1 - own.1).powi(2)).sqrt();
        for &other in &sites {
            let d = ((v.0 - other.0).powi(2) + (v.1 - other.1).powi(2)).sqrt();
            assert!(d > radius - 1e-9, "a site lies {} inside the circle", radius - d);
        }
        seen += 1;
    }
    assert!(seen > 0);
}

fn centroid(diagram: &Diagram, face: fortunes_algorithm::diagram::FaceKey) -> (f64, f64) {
    let start = diagram.get_face_outer_component(face).expect("face without border");
    let round = diagram.outer_edges(start).expect("border does not close");
    let mut twice = 0.0;
    let mut sum = (0.0, 0.0);
    for edge in round {
        let o = xy(diagram.get_vertex_point(diagram.get_half_edge_origin(edge).unwrap()));
        let d = xy(diagram.get_vertex_point(diagram.get_half_edge_destination(edge).unwrap()));
        let cross = o.0 * d.1 - d.0 * o.1;
        twice += cross;
        sum.0 += (o.0 + d.0) * cross;
        sum.1 += (o.1 + d.1) * cross;
    }
    (sum.0 / (3.0 * twice), sum.1 / (3.0 * twice))
}

fn relax(sites: &[(f64, f64)]) -> Vec<(f64, f64)> {
    let diagram = build(sites).expect("build");
    diagram.get_face_indices().into_iter().map(|face| centroid(&diagram, face)).collect()
}

fn variance_of_areas(sites: &[(f64, f64)]) -> f64 {
    let diagram = build(sites).expect("build");
    let areas: Vec<f64> = diagram.get_face_indices().into_iter().map(|face| area(&diagram, face)).collect();
    let mean = areas.iter().sum::<f64>() / areas.len() as f64;
    areas.iter().map(|a| (a - mean).powi(2)).sum::<f64>() / areas.len() as f64
}

#[test]
fn moving_sites_to_centroids_evens_out_the_faces() {
    for seed in [31u64, 32, 33] {
        let mut sites = random_sites(100, seed);
        let start = variance_of_areas(&sites);
        for _ in 0..5 {
            sites = relax(&sites);
            assert_eq!(sites.len(), 100);
            assert!(sites.iter().all(|&p| p.0 >= 0.0 && p.0 <= 1.0 && p.1 >= 0.0 && p.1 <= 1.0));
        }
        assert!(variance_of_areas(&sites) < start);
    }
}

#[test]
fn centroid_of_a_lone_pair_is_the_middle_of_each_half() {
    let sites = [(0.3, 0.5), (0.7, 0.5)];
    let moved = relax(&sites);
    assert!(close(moved[0].0, 0.25) && close(moved[0].1, 0.5));
    assert!(close(moved[1].0, 0.75) && close(moved[1].1, 0.5));
}

#[test]
fn dual_graph_links_faces_that_share_an_edge() {
    let d = 3f64.sqrt() / 10.0;
    let diagram = build(&[(0.5, 0.2), (0.2 + d, 0.65), (0.8 - d, 0.65)]).expect("build");
    let mut links = get_delauney_links(&diagram);
    links.sort();
    assert_eq!(links, vec![(0, 1), (0, 2), (1, 0), (1, 2), (2, 0), (2, 1)]);
    let line = build(&[(0.2, 0.5), (0.4, 0.5), (0.6, 0.5), (0.8, 0.5)]).expect("build");
    let mut links = get_delauney_links(&line);
    links.sort();
    assert_eq!(links, vec![(0, 1), (1, 0), (1, 2), (2, 1), (2, 3), (3, 2)]);
}

#[test]
fn cursor_runs_over_the_faces_next_to_a_face() {
    let diagram = build(&[(0.2, 0.5), (0.4, 0.5), (0.6, 0.5), (0.8, 0.5)]).expect("build");
    let faces = diagram.get_face_indices();
    let mut cursor = get_adjacent_face_iterator(&diagram, faces[1]);
    let mut found = Vec::new();
    while let Some(face) = cursor.next() {
        found.push(face);
    }
    assert_eq!(cursor.next(), None);
    assert_eq!(found.len(), 2);
    assert!(found.contains(&faces[0]) && found.contains(&faces[2]));
    let mut end = get_adjacent_face_iterator(&diagram, faces[3]);
    assert_eq!(end.next(), Some(faces[2]));
    assert_eq!(end.next(), None);
}

#[test]
fn one_point_alone_has_no_border_to_clip() {
    assert_eq!(build(&[(0.5, 0.5)]).err(), Some(BuildError::GeometryInvariant));
}

#[test]
fn square_that_leaves_the_box_is_cut_at_the_side() {
    let mut diagram = Diagram::new();
    let face = diagram.add_face(point(0.5, 0.5));
    let corners = [(0.25, 0.25), (0.75, 0.25), (0.75, 1.25), (0.25, 1.25)];
    let vertices: Vec<_> = corners.iter().map(|&(x, y)| diagram.add_vertex(point(x, y))).collect();
    let edges: Vec<_> = (0..4).map(|_| diagram.add_half_edge(face)).collect();
    for i in 0..4 {
        diagram.set_half_edge_origin(edges[i], Some(vertices[i]));
        diagram.set_half_edge_destination(edges[i], Some(vertices[(i + 1) % 4]));
        diagram.link_half_edges(edges[i], edges[(i + 1) % 4]);
    }
    assert_eq!(BoundingBox::unit().intersect_diagram(&mut diagram, &clip), Ok(()));
    let mut points: Vec<(f64, f64)> = diagram.get_vertex_points().into_iter().map(xy).collect();
    points.sort_by(|a, b| a.partial_cmp(b).unwrap());
    assert_eq!(points, vec![(0.25, 0.25), (0.25, 1.0), (0.75, 0.25), (0.75, 1.0)]);
    let start = diagram.get_face_outer_component(face).unwrap();
    assert_eq!(diagram.outer_edges(start).unwrap().len(), 4);
    assert!(close(area(&diagram, face), 0.375));
}

#[test]
fn diagram_inside_the_box_is_left_as_it_is() {
    let mut diagram = Diagram::new();
    let face = diagram.add_face(point(0.5, 0.5));
    let corners = [(0.25, 0.25), (0.75, 0.25), (0.75, 0.75), (0.25, 0.75)];
    let vertices: Vec<_> = corners.iter().map(|&(x, y)| diagram.add_vertex(point(x, y))).collect();
    let edges: Vec<_> = (0..4).map(|_| diagram.add_half_edge(face)).collect();
    for i in 0..4 {
        diagram.set_half_edge_origin(edges[i], Some(vertices[i]));
        diagram.set_half_edge_destination(edges[i], Some(vertices[(i + 1) % 4]));
        diagram.link_half_edges(edges[i], edges[(i + 1) % 4]);
    }
    assert_eq!(BoundingBox::unit().intersect_diagram(&mut diagram, &clip), Ok(()));
    assert_eq!(diagram.vertex_count(), 4);
    assert_eq!(diagram.half_edge_count(), 4);
    assert_eq!(diagram.outer_edges(edges[0]), Some(edges.clone()));
}

#[test]
fn half_edge_that_crosses_the_box_twice_keeps_its_direction() {
    let from = point(1.5, 0.5);
    let to = point(-0.5, 0.5);
    let listed = clip(BoundingBox::unit(), from, to);
    assert_eq!(listed.len(), 2);
    assert_eq!(listed[0].1, Side::Left);
    let ordered = BoundingBox::order_crossings(from, to, listed);
    assert_eq!(ordered[0].1, Side::Right);
    assert_eq!(xy(ordered[0].0), (1.0, 0.5));
    assert_eq!(xy(ordered[1].0), (0.0, 0.5));
    assert!(BoundingBox::goes_first(from, to, point(1.0, 0.5), point(0.0, 0.5)));
    assert!(!BoundingBox::goes_first(to, from, point(1.0, 0.5), point(0.0, 0.5)));

    let mut diagram = Diagram::new();
    let face = diagram.add_face(point(0.5, 0.7));
    let corners = [(1.5, 0.5), (-0.5, 0.5), (0.5, 3.0)];
    let vertices: Vec<_> = corners.iter().map(|&(x, y)| diagram.add_vertex(point(x, y))).collect();
    let edges: Vec<_> = (0..3).map(|_| diagram.add_half_edge(face)).collect();
    for i in 0..3 {
        diagram.set_half_edge_origin(edges[i], Some(vertices[i]));
        diagram.set_half_edge_destination(edges[i], Some(vertices[(i + 1) % 3]));
        diagram.link_half_edges(edges[i], edges[(i + 1) % 3]);
    }
    assert_eq!(BoundingBox::unit().intersect_diagram(&mut diagram, &clip), Ok(()));
    let origin = diagram.get_half_edge_origin(edges[0]).unwrap();
    let destination = diagram.get_half_edge_destination(edges[0]).unwrap();
    assert_eq!(xy(diagram.get_vertex_point(origin)), (1.0, 0.5));
    assert_eq!(xy(diagram.get_vertex_point(destination)), (0.0, 0.5));
    assert!(!diagram.has_vertex(vertices[0]));
    let round = diagram.outer_edges(edges[0]).expect("closed");
    for &e in &round {
        let p = xy(diagram.get_vertex_point(diagram.get_half_edge_origin(e).unwrap()));
        assert!(p.0 >= 0.0 && p.0 <= 1.0 && p.1 >= 0.0 && p.1 <= 1.0);
    }
}

fn mean(corners: Vec<Point>) -> Point {
    let count = corners.len() as f64;
    let sum = corners.iter().map(|&c| xy(c)).fold((0.0, 0.0), |a, p| (a.0 + p.0, a.1 + p.1));
    point(sum.0 / count, sum.1 / count)
}

#[test]
fn relaxation_moves_each_site_to_the_mean_of_its_corners() {
    let sites: Vec<Point> = vec![point(0.3, 0.5), point(0.7, 0.5)];
    let same = lloyds_relaxation(&sites, 0, &near, &breakpoint, &circle, &exit, &clip, &mean).expect("relax");
    assert_eq!(same, sites);
    let moved = lloyds_relaxation(&sites, 1, &near, &breakpoint, &circle, &exit, &clip, &mean).expect("relax");
    assert_eq!(moved.len(), 2);
    assert!(close(xy(moved[0]).0, 0.25) && close(xy(moved[0]).1, 0.5));
    assert!(close(xy(moved[1]).0, 0.75) && close(xy(moved[1]).1, 0.5));
    let many: Vec<Point> = random_sites(80, 9).into_iter().map(|(x, y)| point(x, y)).collect();
    let after = lloyds_relaxation(&many, 3, &near, &breakpoint, &circle, &exit, &clip, &mean).expect("relax");
    assert_eq!(after.len(), 80);
    for p in after.into_iter().map(xy) {
        assert!(p.0 >= 0.0 && p.0 <= 1.0 && p.1 >= 0.0 && p.1 <= 1.0);
    }
    assert_eq!(
        lloyds_relaxation(&[point(0.5, 0.5), point(0.5, 0.5)], 2, &near, &breakpoint, &circle, &exit, &clip, &mean),
        Err(BuildError::DuplicateSite)
    );
}

#[test]
fn corners_of_a_face_are_the_origins_round_it() {
    let diagram = build(&[(0.3, 0.5), (0.7, 0.5)]).expect("build");
    let faces = diagram.get_face_indices();
    let mut corners: Vec<(f64, f64)> = face_corners(&diagram, faces[0]).unwrap().into_iter().map(xy).collect();
    corners.sort_by(|a, b| a.partial_cmp(b).unwrap());
    assert_eq!(corners.len(), 4);
    assert!(close(corners[0].0, 0.0) && close(corners[3].0, 0.5));
}

#[test]
fn arcs_without_edges_cannot_be_closed() {
    let mut diagram = Diagram::new();
    let first = diagram.add_face(point(0.5, 0.2));
    let second = diagram.add_face(point(0.5, 0.6));
    let mut beachline = Beachline::new();
    let lone = Beachline::new();
    assert_eq!(lone.complete_edges(&BoundingBox::unit(), &mut diagram, &exit), Ok(()));
    let root = beachline.create_root(first);
    assert_eq!(beachline.complete_edges(&BoundingBox::unit(), &mut diagram, &exit), Ok(()));
    assert_eq!(diagram.vertex_count(), 0);
    beachline.break_arc(root, second);
    assert_eq!(
        beachline.complete_edges(&BoundingBox::unit(), &mut diagram, &exit),
        Err(BuildError::GeometryInvariant)
    );
    assert_eq!(diagram.vertex_count(), 0);
}
