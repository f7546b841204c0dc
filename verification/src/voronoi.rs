use vstd::prelude::*;
use crate::scalar::Point;
use crate::typedvector::{TypedIndex, TypedVec};

verus! {

pub type VertexIndex = TypedIndex<Vertex>;

pub type HalfEdgeIndex = TypedIndex<HalfEdge>;

pub type FaceIndex = TypedIndex<Face>;

/// The position behind an optional index.
pub open spec fn position<T>(index: Option<TypedIndex<T>>) -> Option<usize> {
    match index {
        Some(i) => Some(i@),
        None => None,
    }
}

pub struct Vertex {
    point: Point,
}

impl Vertex {
    pub closed spec fn point(&self) -> Point {
        self.point
    }

    pub fn new(point: Point) -> (r: Self)
        ensures
            r.point() == point,
    {
        Vertex { point }
    }
}

/// What a half edge holds, with each index as its position.
pub struct HalfEdgeView {
    pub origin: Option<usize>,
    pub destination: Option<usize>,
    pub twin: Option<usize>,
    pub incident_face: Option<usize>,
    pub prev: Option<usize>,
    pub next: Option<usize>,
}

pub struct HalfEdge {
    origin: Option<VertexIndex>,
    destination: Option<VertexIndex>,
    twin: Option<HalfEdgeIndex>,
    incident_face: Option<FaceIndex>,
    prev: Option<HalfEdgeIndex>,
    next: Option<HalfEdgeIndex>,
}

impl View for HalfEdge {
    type V = HalfEdgeView;

    closed spec fn view(&self) -> HalfEdgeView {
        HalfEdgeView {
            origin: position(self.origin),
            destination: position(self.destination),
            twin: position(self.twin),
            incident_face: position(self.incident_face),
            prev: position(self.prev),
            next: position(self.next),
        }
    }
}

impl HalfEdge {
    pub fn new(incident_face: FaceIndex) -> (r: Self)
        ensures
            r@ == (HalfEdgeView {
                origin: None,
                destination: None,
                twin: None,
                incident_face: Some(incident_face@),
                prev: None,
                next: None,
            }),
    {
        HalfEdge {
            origin: None,
            destination: None,
            twin: None,
            incident_face: Some(incident_face),
            prev: None,
            next: None,
        }
    }
}

/// What a face holds, with the index of its half edge as a position.
pub struct FaceView {
    pub point: Point,
    pub outer_component: Option<usize>,
}

pub struct Face {
    point: Point,
    outer_component: Option<HalfEdgeIndex>,
}

impl View for Face {
    type V = FaceView;

    closed spec fn view(&self) -> FaceView {
        FaceView { point: self.point, outer_component: position(self.outer_component) }
    }
}

impl Face {
    pub fn new(point: Point) -> (r: Self)
        ensures
            r@ == (FaceView { point, outer_component: None }),
    {
        Face { point, outer_component: None }
    }
}

/// A doubly connected edge list whose faces, vertices and half edges are named by their
/// positions in three vectors.
pub struct Voronoi {
    faces: TypedVec<Face>,
    vertices: TypedVec<Vertex>,
    half_edges: TypedVec<HalfEdge>,
}

impl Voronoi {
    /// The faces, in the order of their indices.
    pub closed spec fn faces(&self) -> Seq<FaceView> {
        self.faces@.map_values(|f: Face| f@)
    }

    /// The places of the vertices, in the order of their indices.
    pub closed spec fn vertices(&self) -> Seq<Point> {
        self.vertices@.map_values(|v: Vertex| v.point())
    }

    /// The half edges, in the order of their indices.
    pub closed spec fn half_edges(&self) -> Seq<HalfEdgeView> {
        self.half_edges@.map_values(|e: HalfEdge| e@)
    }

    /// The half edge `k` steps of `next` behind `start`, as far as the chain leads.
    pub open spec fn walk(&self, start: usize, k: nat) -> Option<usize>
        decreases k,
    {
        if k == 0 {
            Some(start)
        } else {
            match self.walk(start, (k - 1) as nat) {
                Some(e) => if e < self.half_edges().len() {
                    self.half_edges()[e as int].next
                } else {
                    None
                },
                None => None,
            }
        }
    }

    /// A diagram with one face for each point, in order, and nothing else.
    pub fn new(points: &[Point]) -> (r: Self)
        ensures
            r.faces().len() == points@.len(),
            forall|i: int|
                0 <= i < points@.len() ==> #[trigger] r.faces()[i] == (FaceView {
                    point: points@[i],
                    outer_component: None,
                }),
            r.vertices() == Seq::<Point>::empty(),
            r.half_edges() == Seq::<HalfEdgeView>::empty(),
    {
        let mut voronoi = Voronoi {
            faces: TypedVec::new(),
            vertices: TypedVec::new(),
            half_edges: TypedVec::new(),
        };
        let mut i: usize = 0;
        while i < points.len()
            invariant
                i <= points.len(),
                voronoi.faces().len() == i,
                forall|j: int|
                    0 <= j < i ==> #[trigger] voronoi.faces()[j] == (FaceView {
                        point: points@[j],
                        outer_component: None,
                    }),
                voronoi.vertices() == Seq::<Point>::empty(),
                voronoi.half_edges() == Seq::<HalfEdgeView>::empty(),
            decreases points.len() - i,
        {
            let ghost before = voronoi.faces();
            voronoi.faces.insert(Face::new(points[i]));
            proof {
                assert forall|j: int| 0 <= j < i implies voronoi.faces()[j] == before[j] by {
                    assert(voronoi.faces@[j]@ == before[j]);
                }
                assert(voronoi.faces@[i as int]@ == voronoi.faces()[i as int]);
                assert(voronoi.faces()[i as int] == (FaceView {
                    point: points@[i as int],
                    outer_component: None,
                }));
                assert(voronoi.faces().len() == i + 1);
                assert forall|j: int| 0 <= j < i + 1 implies #[trigger] voronoi.faces()[j] == (FaceView {
                        point: points@[j],
                        outer_component: None,
                    }) by {
                    if j < i {
                        assert(voronoi.faces()[j] == before[j]);
                    }
                }
            }
            i += 1;
        }
        voronoi
    }

    /// The index of every face, in order.
    pub fn get_faces(&self) -> (r: Vec<FaceIndex>)
        ensures
            r@.len() == self.faces().len(),
            forall|i: int| 0 <= i < r@.len() ==> (#[trigger] r@[i])@ == i,
    {
        let mut indices: Vec<FaceIndex> = Vec::new();
        let mut i: usize = 0;
        while i < self.faces.len()
            invariant
                i <= self.faces@.len(),
                indices@.len() == i,
                forall|j: int| 0 <= j < indices@.len() ==> (#[trigger] indices@[j])@ == j,
            decreases self.faces@.len() - i,
        {
            indices.push(TypedIndex::new(i));
            i += 1;
        }
        indices
    }

    /// The index of every vertex, in order.
    pub fn get_vertices(&self) -> (r: Vec<VertexIndex>)
        ensures
            r@.len() == self.vertices().len(),
            forall|i: int| 0 <= i < r@.len() ==> (#[trigger] r@[i])@ == i,
    {
        let mut indices: Vec<VertexIndex> = Vec::new();
        let mut i: usize = 0;
        while i < self.vertices.len()
            invariant
                i <= self.vertices@.len(),
                indices@.len() == i,
                forall|j: int| 0 <= j < indices@.len() ==> (#[trigger] indices@[j])@ == j,
            decreases self.vertices@.len() - i,
        {
            indices.push(TypedIndex::new(i));
            i += 1;
        }
        indices
    }

    /// A cursor that walks the half edges round a face, from its outer component on.
    pub fn outer_edge_iter(&self, face: FaceIndex) -> (r: EdgeIterator<'_>)
        requires
            face@ < self.faces().len(),
            self.faces()[face@ as int].outer_component.is_some(),
        ensures
            r.voronoi() == *self,
            Some(r.start()) == self.faces()[face@ as int].outer_component,
            r.current().is_none(),
    {
        let start_edge = self.get_face_outer_component(face).unwrap();
        EdgeIterator { voronoi: self, start_edge, current_edge: None }
    }

    /// Adds a pair of half edges, twins of each other, the first on `left_face` and the
    /// second on `right_face`.
    pub fn add_edge(&mut self, left_face: FaceIndex, right_face: FaceIndex) -> (r: (
        HalfEdgeIndex,
        HalfEdgeIndex,
    ))
        requires
            left_face@ < old(self).faces().len(),
            right_face@ < old(self).faces().len(),
            old(self).half_edges().len() + 2 <= usize::MAX,
        ensures
            r.0@ == old(self).half_edges().len(),
            r.1@ == old(self).half_edges().len() + 1,
            final(self).vertices() == old(self).vertices(),
            final(self).half_edges() == old(self).half_edges().push(
                HalfEdgeView {
                    origin: None,
                    destination: None,
                    twin: Some(r.1@),
                    incident_face: Some(left_face@),
                    prev: None,
                    next: None,
                },
            ).push(
                HalfEdgeView {
                    origin: None,
                    destination: None,
                    twin: Some(r.0@),
                    incident_face: Some(right_face@),
                    prev: None,
                    next: None,
                },
            ),
            final(self).faces() == Self::faces_with(
                Self::faces_with(old(self).faces(), left_face@, r.0@),
                right_face@,
                r.1@,
            ),
    {
        let half_edge_1 = self.create_half_edge(left_face);
        let half_edge_2 = self.create_half_edge(right_face);
        self.set_half_edge_twin(half_edge_1, Some(half_edge_2));
        self.set_half_edge_twin(half_edge_2, Some(half_edge_1));
        (half_edge_1, half_edge_2)
    }

    /// The faces after a half edge was made on `face`: where the face had no outer
    /// component, the new half edge is it.
    pub open spec fn faces_with(faces: Seq<FaceView>, face: usize, half_edge: usize) -> Seq<
        FaceView,
    > {
        if faces[face as int].outer_component.is_none() {
            faces.update(
                face as int,
                FaceView { point: faces[face as int].point, outer_component: Some(half_edge) },
            )
        } else {
            faces
        }
    }

    /// Adds a half edge on `face`, with nothing else set.
    pub fn create_half_edge(&mut self, face: FaceIndex) -> (r: HalfEdgeIndex)
        requires
            face@ < old(self).faces().len(),
        ensures
            r@ == old(self).half_edges().len(),
            final(self).vertices() == old(self).vertices(),
            final(self).half_edges() == old(self).half_edges().push(
                HalfEdgeView {
                    origin: None,
                    destination: None,
                    twin: None,
                    incident_face: Some(face@),
                    prev: None,
                    next: None,
                },
            ),
            final(self).faces() == Self::faces_with(old(self).faces(), face@, r@),
    {
        let new_half_edge = self.half_edges.insert(HalfEdge::new(face));
        if self.get_face_outer_component(face).is_none() {
            self.set_face_outer_component(face, Some(new_half_edge));
        }
        new_half_edge
    }

    pub fn create_vertex(&mut self, point: Point) -> (r: VertexIndex)
        ensures
            r@ == old(self).vertices().len(),
            final(self).vertices() == old(self).vertices().push(point),
            final(self).faces() == old(self).faces(),
            final(self).half_edges() == old(self).half_edges(),
    {
        self.vertices.insert(Vertex::new(point))
    }

    pub fn get_face_point(&self, face: FaceIndex) -> (r: Point)
        requires
            face@ < self.faces().len(),
        ensures
            r == self.faces()[face@ as int].point,
    {
        let site = self.faces.get(face).unwrap();
        site.point
    }

    pub fn get_face_outer_component(&self, face: FaceIndex) -> (r: Option<HalfEdgeIndex>)
        requires
            face@ < self.faces().len(),
        ensures
            position(r) == self.faces()[face@ as int].outer_component,
    {
        let face = self.faces.get(face).unwrap();
        face.outer_component
    }

    pub fn set_face_outer_component(&mut self, face: FaceIndex, half_edge: Option<HalfEdgeIndex>)
        requires
            face@ < old(self).faces().len(),
        ensures
            final(self).faces() == old(self).faces().update(
                face@ as int,
                FaceView {
                    point: old(self).faces()[face@ as int].point,
                    outer_component: position(half_edge),
                },
            ),
            final(self).vertices() == old(self).vertices(),
            final(self).half_edges() == old(self).half_edges(),
    {
        let slot = self.faces.get_mut(face).unwrap();
        slot.outer_component = half_edge;
    }

    pub fn get_half_edge_twin(&self, half_edge: HalfEdgeIndex) -> (r: Option<HalfEdgeIndex>)
        requires
            half_edge@ < self.half_edges().len(),
        ensures
            position(r) == self.half_edges()[half_edge@ as int].twin,
    {
        let half_edge = self.half_edges.get(half_edge).unwrap();
        half_edge.twin
    }

    fn set_half_edge_twin(
        &mut self,
        half_edge: HalfEdgeIndex,
        twin_half_edge: Option<HalfEdgeIndex>,
    )
        requires
            half_edge@ < old(self).half_edges().len(),
        ensures
            final(self).half_edges() == old(self).half_edges().update(
                half_edge@ as int,
                HalfEdgeView {
                    twin: position(twin_half_edge),
                    ..old(self).half_edges()[half_edge@ as int]
                },
            ),
            final(self).faces() == old(self).faces(),
            final(self).vertices() == old(self).vertices(),
    {
        let slot = self.half_edges.get_mut(half_edge).unwrap();
        slot.twin = twin_half_edge;
    }

    pub fn get_half_edge_incident_face(&self, half_edge: HalfEdgeIndex) -> (r: Option<FaceIndex>)
        requires
            half_edge@ < self.half_edges().len(),
        ensures
            position(r) == self.half_edges()[half_edge@ as int].incident_face,
    {
        let half_edge = self.half_edges.get(half_edge).unwrap();
        half_edge.incident_face
    }

    pub fn get_half_edge_prev(&self, half_edge: HalfEdgeIndex) -> (r: Option<HalfEdgeIndex>)
        requires
            half_edge@ < self.half_edges().len(),
        ensures
            position(r) == self.half_edges()[half_edge@ as int].prev,
    {
        let half_edge = self.half_edges.get(half_edge).unwrap();
        half_edge.prev
    }

    pub fn get_half_edge_next(&self, half_edge: HalfEdgeIndex) -> (r: Option<HalfEdgeIndex>)
        requires
            half_edge@ < self.half_edges().len(),
        ensures
            position(r) == self.half_edges()[half_edge@ as int].next,
    {
        let half_edge = self.half_edges.get(half_edge).unwrap();
        half_edge.next
    }

    /// Makes `next` follow `prev`: sets the `prev` of the one and the `next` of the other.
    pub fn link_half_edges(&mut self, prev: HalfEdgeIndex, next: HalfEdgeIndex)
        requires
            prev@ < old(self).half_edges().len(),
            next@ < old(self).half_edges().len(),
        ensures
            final(self).half_edges() == Self::linked(old(self).half_edges(), prev@, next@),
            final(self).faces() == old(self).faces(),
            final(self).vertices() == old(self).vertices(),
    {
        self.set_half_edge_prev(next, Some(prev));
        self.set_half_edge_next(prev, Some(next));
    }

    /// The half edges after `next` was made to follow `prev`.
    pub open spec fn linked(half_edges: Seq<HalfEdgeView>, prev: usize, next: usize) -> Seq<
        HalfEdgeView,
    > {
        let first = half_edges.update(
            next as int,
            HalfEdgeView { prev: Some(prev), ..half_edges[next as int] },
        );
        first.update(prev as int, HalfEdgeView { next: Some(next), ..first[prev as int] })
    }

    fn set_half_edge_prev(
        &mut self,
        half_edge: HalfEdgeIndex,
        prev_half_edge: Option<HalfEdgeIndex>,
    )
        requires
            half_edge@ < old(self).half_edges().len(),
        ensures
            final(self).half_edges() == old(self).half_edges().update(
                half_edge@ as int,
                HalfEdgeView {
                    prev: position(prev_half_edge),
                    ..old(self).half_edges()[half_edge@ as int]
                },
            ),
            final(self).faces() == old(self).faces(),
            final(self).vertices() == old(self).vertices(),
    {
        let slot = self.half_edges.get_mut(half_edge).unwrap();
        slot.prev = prev_half_edge;
    }

    fn set_half_edge_next(
        &mut self,
        half_edge: HalfEdgeIndex,
        next_half_edge: Option<HalfEdgeIndex>,
    )
        requires
            half_edge@ < old(self).half_edges().len(),
        ensures
            final(self).half_edges() == old(self).half_edges().update(
                half_edge@ as int,
                HalfEdgeView {
                    next: position(next_half_edge),
                    ..old(self).half_edges()[half_edge@ as int]
                },
            ),
            final(self).faces() == old(self).faces(),
            final(self).vertices() == old(self).vertices(),
    {
        let slot = self.half_edges.get_mut(half_edge).unwrap();
        slot.next = next_half_edge;
    }

    pub fn set_half_edge_origin(&mut self, half_edge: HalfEdgeIndex, origin: Option<VertexIndex>)
        requires
            half_edge@ < old(self).half_edges().len(),
        ensures
            final(self).half_edges() == old(self).half_edges().update(
                half_edge@ as int,
                HalfEdgeView {
                    origin: position(origin),
                    ..old(self).half_edges()[half_edge@ as int]
                },
            ),
            final(self).faces() == old(self).faces(),
            final(self).vertices() == old(self).vertices(),
    {
        let slot = self.half_edges.get_mut(half_edge).unwrap();
        slot.origin = origin;
    }

    pub fn get_half_edge_origin(&self, half_edge: HalfEdgeIndex) -> (r: Option<VertexIndex>)
        requires
            half_edge@ < self.half_edges().len(),
        ensures
            position(r) == self.half_edges()[half_edge@ as int].origin,
    {
        let half_edge = self.half_edges.get(half_edge).unwrap();
        half_edge.origin
    }

    pub fn set_half_edge_destination(
        &mut self,
        half_edge: HalfEdgeIndex,
        destination: Option<VertexIndex>,
    )
        requires
            half_edge@ < old(self).half_edges().len(),
        ensures
            final(self).half_edges() == old(self).half_edges().update(
                half_edge@ as int,
                HalfEdgeView {
                    destination: position(destination),
                    ..old(self).half_edges()[half_edge@ as int]
                },
            ),
            final(self).faces() == old(self).faces(),
            final(self).vertices() == old(self).vertices(),
    {
        let slot = self.half_edges.get_mut(half_edge).unwrap();
        slot.destination = destination;
    }

    pub fn get_half_edge_destination(&self, half_edge: HalfEdgeIndex) -> (r: Option<VertexIndex>)
        requires
            half_edge@ < self.half_edges().len(),
        ensures
            position(r) == self.half_edges()[half_edge@ as int].destination,
    {
        let half_edge = self.half_edges.get(half_edge).unwrap();
        half_edge.destination
    }

    pub fn get_vertex_point(&self, vertex: VertexIndex) -> (r: Point)
        requires
            vertex@ < self.vertices().len(),
        ensures
            r == self.vertices()[vertex@ as int],
    {
        let vertex = self.vertices.get(vertex).unwrap();
        vertex.point
    }
}

/// A cursor round the half edges of one face: it starts before the face's outer component
/// and follows `next` until that leads back to the start, or nowhere.
pub struct EdgeIterator<'a> {
    voronoi: &'a Voronoi,
    start_edge: HalfEdgeIndex,
    current_edge: Option<HalfEdgeIndex>,
}

impl<'a> EdgeIterator<'a> {
    pub closed spec fn voronoi(&self) -> Voronoi {
        *self.voronoi
    }

    /// The half edge at which the round starts.
    pub closed spec fn start(&self) -> usize {
        self.start_edge@
    }

    /// The half edge that was handed out last, if the round has begun and not ended.
    pub closed spec fn current(&self) -> Option<usize> {
        position(self.current_edge)
    }

    /// The number of half edges of the diagram.
    pub open spec fn size(&self) -> nat {
        self.voronoi().half_edges().len()
    }

    /// What follows `current` in the round.
    pub open spec fn step(&self) -> Option<usize> {
        match self.current() {
            None => Some(self.start()),
            Some(e) => {
                let next = self.voronoi().half_edges()[e as int].next;
                if next == Some(self.start()) {
                    None
                } else {
                    next
                }
            },
        }
    }

    pub fn next(&mut self) -> (r: Option<HalfEdgeIndex>)
        requires
            old(self).current().is_some() ==> old(self).current().unwrap() < old(self).size(),
        ensures
            position(r) == old(self).step(),
            final(self).current() == old(self).step(),
            final(self).start() == old(self).start(),
            final(self).voronoi() == old(self).voronoi(),
    {
        if self.current_edge.is_none() {
            self.current_edge = Some(self.start_edge);
        } else {
            self.current_edge = self.voronoi.get_half_edge_next(self.current_edge.unwrap());
            if self.current_edge == Some(self.start_edge) {
                self.current_edge = None;
            }
        }
        self.current_edge
    }
}

} // verus!
