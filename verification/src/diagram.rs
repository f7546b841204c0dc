use vstd::prelude::*;
use crate::pool::{
    pool_entries, pool_get, pool_insert, pool_key_order, pool_keys, pool_len, pool_new,
    pool_remove, pool_set, slot_key, Pool, POOL_LIMIT,
};
use crate::scalar::Point;

verus! {

/// The key of a vertex of a diagram.
#[derive(Clone, Copy, PartialEq, Eq, Structural, Debug, Hash)]
pub struct VertexKey {
    pub raw: u64,
}

/// The key of a half edge of a diagram.
#[derive(Clone, Copy, PartialEq, Eq, Structural, Debug, Hash)]
pub struct HalfEdgeKey {
    pub raw: u64,
}

/// The key of a face of a diagram.
#[derive(Clone, Copy, PartialEq, Eq, Structural, Debug, Hash)]
pub struct FaceKey {
    pub raw: u64,
}

/// A vertex of the diagram: the point at which it lies.
#[derive(Clone, Copy, Debug)]
pub struct Vertex {
    pub point: Point,
}

/// A half edge: one directed side of an edge.
///
/// It runs from `origin` to `destination` with `incident_face` on its left. Its `twin` is
/// the other side of the same edge; `prev` and `next` are the half edges before and behind
/// it on the way round the face. Each of these may be unset while a diagram is built.
#[derive(Clone, Copy, Debug)]
pub struct HalfEdge {
    pub origin: Option<VertexKey>,
    pub destination: Option<VertexKey>,
    pub incident_face: Option<FaceKey>,
    pub twin: Option<HalfEdgeKey>,
    pub prev: Option<HalfEdgeKey>,
    pub next: Option<HalfEdgeKey>,
}

impl HalfEdge {
    /// A half edge on `incident_face` with nothing else set.
    pub open spec fn fresh(incident_face: FaceKey) -> HalfEdge {
        HalfEdge {
            origin: None,
            destination: None,
            incident_face: Some(incident_face),
            twin: None,
            prev: None,
            next: None,
        }
    }
}

/// A face: the site whose region it is, and one of the half edges round it.
#[derive(Clone, Copy, Debug)]
pub struct Face {
    pub point: Point,
    pub outer_component: Option<HalfEdgeKey>,
}

/// What a pool of the diagram holds under one key.
#[derive(Clone, Copy, Debug)]
pub enum Entity {
    Face(Face),
    Vertex(Vertex),
    HalfEdge(HalfEdge),
}

/// A diagram as a doubly connected edge list: faces, vertices and half edges, each kind in
/// a pool of its own.
pub struct Diagram {
    faces: Pool,
    vertices: Pool,
    half_edges: Pool,
}

impl Diagram {
    /// The faces, by key.
    pub closed spec fn faces(&self) -> Map<FaceKey, Face> {
        Map::new(
            |k: FaceKey| pool_entries(self.faces).contains_key(k.raw),
            |k: FaceKey| pool_entries(self.faces)[k.raw]->Face_0,
        )
    }

    /// The vertices, by key.
    pub closed spec fn vertices(&self) -> Map<VertexKey, Vertex> {
        Map::new(
            |k: VertexKey| pool_entries(self.vertices).contains_key(k.raw),
            |k: VertexKey| pool_entries(self.vertices)[k.raw]->Vertex_0,
        )
    }

    /// The half edges, by key.
    pub closed spec fn half_edges(&self) -> Map<HalfEdgeKey, HalfEdge> {
        Map::new(
            |k: HalfEdgeKey| pool_entries(self.half_edges).contains_key(k.raw),
            |k: HalfEdgeKey| pool_entries(self.half_edges)[k.raw]->HalfEdge_0,
        )
    }

    /// The keys of the faces in the order in which the diagram walks them.
    pub closed spec fn face_order(&self) -> Seq<FaceKey> {
        pool_key_order(self.faces).map_values(|raw: u64| FaceKey { raw })
    }

    /// The keys of the half edges in the order in which the diagram walks them.
    pub closed spec fn half_edge_order(&self) -> Seq<HalfEdgeKey> {
        pool_key_order(self.half_edges).map_values(|raw: u64| HalfEdgeKey { raw })
    }

    /// The keys of the vertices in the order in which the diagram walks them.
    pub closed spec fn vertex_order(&self) -> Seq<VertexKey> {
        pool_key_order(self.vertices).map_values(|raw: u64| VertexKey { raw })
    }

    /// Each pool holds finitely many entries, all of its own kind, under keys as the pools
    /// hand them out.
    pub closed spec fn wf(&self) -> bool {
        &&& pool_entries(self.faces).dom().finite()
        &&& pool_entries(self.vertices).dom().finite()
        &&& pool_entries(self.half_edges).dom().finite()
        &&& forall|raw: u64| #[trigger]
            pool_entries(self.faces).contains_key(raw) ==> slot_key(raw) == raw && pool_entries(
                self.faces,
            )[raw] is Face
        &&& forall|raw: u64| #[trigger]
            pool_entries(self.vertices).contains_key(raw) ==> slot_key(raw) == raw
                && pool_entries(self.vertices)[raw] is Vertex
        &&& forall|raw: u64| #[trigger]
            pool_entries(self.half_edges).contains_key(raw) ==> slot_key(raw) == raw
                && pool_entries(self.half_edges)[raw] is HalfEdge
    }


    /// The number of faces.
    pub open spec fn face_total(&self) -> nat {
        self.faces().dom().len()
    }

    /// The number of vertices.
    pub open spec fn vertex_total(&self) -> nat {
        self.vertices().dom().len()
    }

    /// The number of half edges.
    pub open spec fn half_edge_total(&self) -> nat {
        self.half_edges().dom().len()
    }

    /// The faces are those of `before`, and are walked in the same order.
    pub open spec fn faces_kept(&self, before: &Diagram) -> bool {
        self.faces() == before.faces() && self.face_order() == before.face_order()
    }

    /// The vertices are those of `before`, and are walked in the same order.
    pub open spec fn vertices_kept(&self, before: &Diagram) -> bool {
        self.vertices() == before.vertices() && self.vertex_order() == before.vertex_order()
    }

    /// Each twin is another half edge of the diagram, whose twin is the first.
    pub open spec fn twins_paired(&self) -> bool {
        forall|e: HalfEdgeKey| #[trigger]
            self.half_edges().contains_key(e) ==> match self.half_edges()[e].twin {
                Some(t) => t != e && self.half_edges().contains_key(t) && self.half_edges()[t].twin
                    == Some(e),
                None => true,
            }
    }

    /// Each twin that is in the diagram is another half edge, whose twin is the first:
    /// what is left of `twins_paired` when half edges have left the diagram.
    pub open spec fn twins_agree(&self) -> bool {
        forall|e: HalfEdgeKey| #[trigger]
            self.half_edges().contains_key(e) ==> match self.half_edges()[e].twin {
                Some(t) => self.half_edges().contains_key(t) ==> t != e && self.half_edges()[t].twin
                    == Some(e),
                None => true,
            }
    }

    /// Where `next` leads from a half edge to another, `prev` leads back.
    pub open spec fn links_paired(&self) -> bool {
        forall|e: HalfEdgeKey| #[trigger]
            self.half_edges().contains_key(e) ==> match self.half_edges()[e].next {
                Some(n) => self.half_edges().contains_key(n) && self.half_edges()[n].prev == Some(
                    e,
                ),
                None => true,
            }
    }

    /// In a well-formed diagram each kind has finitely many members.
    pub proof fn lemma_finite(&self)
        requires
            self.wf(),
        ensures
            self.faces().dom().finite(),
            self.vertices().dom().finite(),
            self.half_edges().dom().finite(),
    {
        Self::lemma_typed_domain(pool_entries(self.faces).dom(), self.faces().dom(), |raw: u64| FaceKey { raw }, |k: FaceKey| k.raw);
        Self::lemma_typed_domain(pool_entries(self.vertices).dom(), self.vertices().dom(), |raw: u64| VertexKey { raw }, |k: VertexKey| k.raw);
        Self::lemma_typed_domain(pool_entries(self.half_edges).dom(), self.half_edges().dom(), |raw: u64| HalfEdgeKey { raw }, |k: HalfEdgeKey| k.raw);
    }

    proof fn lemma_typed_domain<K>(
        raw: Set<u64>,
        typed: Set<K>,
        wrap: spec_fn(u64) -> K,
        unwrap: spec_fn(K) -> u64,
    )
        requires
            raw.finite(),
            forall|r: u64| #[trigger] unwrap(wrap(r)) == r,
            forall|k: K| #[trigger] wrap(unwrap(k)) == k,
            forall|k: K| typed.contains(k) == raw.contains(#[trigger] unwrap(k)),
        ensures
            typed.finite(),
            typed.len() == raw.len(),
    {
        assert(raw.map(wrap) =~= typed) by {
            assert forall|k: K| raw.map(wrap).contains(k) == typed.contains(k) by {
                if typed.contains(k) {
                    assert(raw.contains(unwrap(k)) && wrap(unwrap(k)) == k);
                }
                if raw.map(wrap).contains(k) {
                    let r = choose|r: u64| raw.contains(r) && wrap(r) == k;
                    assert(unwrap(wrap(r)) == r);
                }
            }
        }
        assert(vstd::relations::injective_on(wrap, raw)) by {
            assert forall|a: u64, b: u64| raw.contains(a) && raw.contains(b) && #[trigger] wrap(a) == #[trigger] wrap(b) implies a == b by {
                assert(unwrap(wrap(a)) == a);
                assert(unwrap(wrap(b)) == b);
            }
        }
        vstd::set_lib::lemma_map_size(raw, typed, wrap);
    }

    /// An empty diagram.
    pub fn new() -> (r: Self)
        ensures
            r.wf(),
            r.faces() == Map::<FaceKey, Face>::empty(),
            r.vertices() == Map::<VertexKey, Vertex>::empty(),
            r.half_edges() == Map::<HalfEdgeKey, HalfEdge>::empty(),
    {
        Diagram { faces: pool_new(), vertices: pool_new(), half_edges: pool_new() }
    }

    pub fn face_count(&self) -> (r: usize)
        requires
            self.wf(),
        ensures
            r == self.face_total(),
    {
        proof {
            self.lemma_finite();
            Self::lemma_typed_domain(pool_entries(self.faces).dom(), self.faces().dom(), |raw: u64| FaceKey { raw }, |k: FaceKey| k.raw);
        }
        pool_len(&self.faces)
    }

    pub fn vertex_count(&self) -> (r: usize)
        requires
            self.wf(),
        ensures
            r == self.vertex_total(),
    {
        proof {
            Self::lemma_typed_domain(pool_entries(self.vertices).dom(), self.vertices().dom(), |raw: u64| VertexKey { raw }, |k: VertexKey| k.raw);
        }
        pool_len(&self.vertices)
    }

    pub fn half_edge_count(&self) -> (r: usize)
        requires
            self.wf(),
        ensures
            r == self.half_edge_total(),
    {
        proof {
            Self::lemma_typed_domain(pool_entries(self.half_edges).dom(), self.half_edges().dom(), |raw: u64| HalfEdgeKey { raw }, |k: HalfEdgeKey| k.raw);
        }
        pool_len(&self.half_edges)
    }

    fn face(&self, key: FaceKey) -> (r: Face)
        requires
            self.wf(),
            self.faces().contains_key(key),
        ensures
            r == self.faces()[key],
    {
        match pool_get(&self.faces, key.raw) {
            Some(Entity::Face(face)) => face,
            _ => vstd::pervasive::unreached(),
        }
    }

    fn put_face(&mut self, key: FaceKey, value: Face)
        requires
            old(self).wf(),
            old(self).faces().contains_key(key),
        ensures
            final(self).wf(),
            final(self).faces() == old(self).faces().insert(key, value),
            final(self).face_order() == old(self).face_order(),
            final(self).vertices_kept(old(self)),
            final(self).half_edges() == old(self).half_edges(),
    {
        pool_set(&mut self.faces, key.raw, Entity::Face(value));
        assert(final(self).faces() =~= old(self).faces().insert(key, value));
    }

    fn vertex(&self, key: VertexKey) -> (r: Vertex)
        requires
            self.wf(),
            self.vertices().contains_key(key),
        ensures
            r == self.vertices()[key],
    {
        match pool_get(&self.vertices, key.raw) {
            Some(Entity::Vertex(vertex)) => vertex,
            _ => vstd::pervasive::unreached(),
        }
    }

    fn half_edge(&self, key: HalfEdgeKey) -> (r: HalfEdge)
        requires
            self.wf(),
            self.half_edges().contains_key(key),
        ensures
            r == self.half_edges()[key],
    {
        match pool_get(&self.half_edges, key.raw) {
            Some(Entity::HalfEdge(half_edge)) => half_edge,
            _ => vstd::pervasive::unreached(),
        }
    }

    fn put_half_edge(&mut self, key: HalfEdgeKey, value: HalfEdge)
        requires
            old(self).wf(),
            old(self).half_edges().contains_key(key),
        ensures
            final(self).wf(),
            final(self).half_edges() == old(self).half_edges().insert(key, value),
            final(self).faces_kept(old(self)),
            final(self).vertices_kept(old(self)),
    {
        pool_set(&mut self.half_edges, key.raw, Entity::HalfEdge(value));
        assert(final(self).half_edges() =~= old(self).half_edges().insert(key, value));
    }

    /// Whether the key names a face of the diagram.
    pub fn has_face(&self, face: FaceKey) -> (r: bool)
        requires
            self.wf(),
        ensures
            r == self.faces().contains_key(face),
    {
        pool_get(&self.faces, face.raw).is_some() && slot_canonical(face.raw)
    }

    /// Whether the key names a vertex of the diagram.
    pub fn has_vertex(&self, vertex: VertexKey) -> (r: bool)
        requires
            self.wf(),
        ensures
            r == self.vertices().contains_key(vertex),
    {
        pool_get(&self.vertices, vertex.raw).is_some() && slot_canonical(vertex.raw)
    }

    /// Whether the key names a half edge of the diagram.
    pub fn has_half_edge(&self, half_edge: HalfEdgeKey) -> (r: bool)
        requires
            self.wf(),
        ensures
            r == self.half_edges().contains_key(half_edge),
    {
        pool_get(&self.half_edges, half_edge.raw).is_some() && slot_canonical(half_edge.raw)
    }

    /// Adds a face with the site `point` and no half edge yet.
    pub fn add_face(&mut self, point: Point) -> (r: FaceKey)
        requires
            old(self).wf(),
            old(self).face_total() < POOL_LIMIT,
        ensures
            final(self).wf(),
            !old(self).faces().contains_key(r),
            final(self).faces() == old(self).faces().insert(
                r,
                Face { point, outer_component: None },
            ),
            final(self).vertices_kept(old(self)),
            final(self).half_edges() == old(self).half_edges(),
            final(self).face_total() == old(self).face_total() + 1,
    {
        proof {
            old(self).lemma_finite();
            Self::lemma_typed_domain(pool_entries(self.faces).dom(), self.faces().dom(), |raw: u64| FaceKey { raw }, |k: FaceKey| k.raw);
        }
        let raw = pool_insert(&mut self.faces, Entity::Face(Face { point, outer_component: None }));
        let key = FaceKey { raw };
        assert(final(self).faces() =~= old(self).faces().insert(key, Face { point, outer_component: None }));
        key
    }

    /// The key of every face, each once, in the order in which the diagram walks them.
    pub fn get_face_indices(&self) -> (r: Vec<FaceKey>)
        requires
            self.wf(),
        ensures
            r@ == self.face_order(),
            r@.no_duplicates(),
            r@.len() == self.face_total(),
            forall|k: FaceKey| r@.contains(k) <==> self.faces().contains_key(k),
    {
        let raws = pool_keys(&self.faces);
        let mut keys: Vec<FaceKey> = Vec::new();
        let mut i: usize = 0;
        while i < raws.len()
            invariant
                i <= raws@.len(),
                keys@.len() == i,
                forall|j: int| 0 <= j < i ==> (#[trigger] keys@[j]).raw == raws@[j],
            decreases raws@.len() - i,
        {
            keys.push(FaceKey { raw: raws[i] });
            i += 1;
        }
        proof {
            assert(keys@ =~= self.face_order());
            assert forall|k: FaceKey| keys@.contains(k) <==> self.faces().contains_key(k) by {
                if keys@.contains(k) {
                    let j = choose|j: int| 0 <= j < keys@.len() && keys@[j] == k;
                    assert(raws@.contains(raws@[j]));
                }
                if self.faces().contains_key(k) {
                    assert(raws@.contains(k.raw));
                    let j = choose|j: int| 0 <= j < raws@.len() && raws@[j] == k.raw;
                    assert(keys@[j] == k);
                }
            }
            assert(keys@.no_duplicates()) by {
                assert forall|a: int, b: int| 0 <= a < keys@.len() && 0 <= b < keys@.len() && a != b implies keys@[a] != keys@[b] by {
                    assert(raws@[a] != raws@[b]);
                }
            }
            self.lemma_finite();
            keys@.unique_seq_to_set();
            assert(keys@.to_set() =~= self.faces().dom());
        }
        keys
    }

    /// The key of every half edge, each once, in the order in which the diagram walks
    /// them.
    pub fn get_half_edge_indices(&self) -> (r: Vec<HalfEdgeKey>)
        requires
            self.wf(),
        ensures
            r@ == self.half_edge_order(),
            r@.no_duplicates(),
            r@.len() == self.half_edge_total(),
            forall|k: HalfEdgeKey| r@.contains(k) <==> self.half_edges().contains_key(k),
    {
        let raws = pool_keys(&self.half_edges);
        let mut keys: Vec<HalfEdgeKey> = Vec::new();
        let mut i: usize = 0;
        while i < raws.len()
            invariant
                i <= raws@.len(),
                keys@.len() == i,
                forall|j: int| 0 <= j < i ==> (#[trigger] keys@[j]).raw == raws@[j],
            decreases raws@.len() - i,
        {
            keys.push(HalfEdgeKey { raw: raws[i] });
            i += 1;
        }
        proof {
            assert(keys@ =~= self.half_edge_order());
            assert forall|k: HalfEdgeKey| keys@.contains(k) <==> self.half_edges().contains_key(k) by {
                if keys@.contains(k) {
                    let j = choose|j: int| 0 <= j < keys@.len() && keys@[j] == k;
                    assert(raws@.contains(raws@[j]));
                }
                if self.half_edges().contains_key(k) {
                    assert(raws@.contains(k.raw));
                    let j = choose|j: int| 0 <= j < raws@.len() && raws@[j] == k.raw;
                    assert(keys@[j] == k);
                }
            }
            assert(keys@.no_duplicates()) by {
                assert forall|a: int, b: int| 0 <= a < keys@.len() && 0 <= b < keys@.len() && a != b implies keys@[a] != keys@[b] by {
                    assert(raws@[a] != raws@[b]);
                }
            }
            self.lemma_finite();
            keys@.unique_seq_to_set();
            assert(keys@.to_set() =~= self.half_edges().dom());
        }
        keys
    }

    /// No half edge of the diagram sets out from the vertex or ends at it.
    pub open spec fn is_loose(&self, vertex: VertexKey) -> bool {
        forall|e: HalfEdgeKey| #[trigger]
            self.half_edges().contains_key(e) ==> self.half_edges()[e].origin != Some(vertex)
                && self.half_edges()[e].destination != Some(vertex)
    }

    /// Whether no half edge of the diagram sets out from the vertex or ends at it.
    pub fn is_vertex_loose(&self, vertex: VertexKey) -> (r: bool)
        requires
            self.wf(),
        ensures
            r == self.is_loose(vertex),
    {
        let keys = self.get_half_edge_indices();
        self.is_loose_among(&keys, vertex)
    }

    /// Whether none of the half edges `keys`, which are all that the diagram has, sets out
    /// from the vertex or ends at it.
    pub fn is_loose_among(&self, keys: &Vec<HalfEdgeKey>, vertex: VertexKey) -> (r: bool)
        requires
            self.wf(),
            forall|k: HalfEdgeKey| keys@.contains(k) <==> self.half_edges().contains_key(k),
        ensures
            r == self.is_loose(vertex),
    {
        let mut i: usize = 0;
        let mut loose = true;
        while i < keys.len() && loose
            invariant
                self.wf(),
                i <= keys@.len(),
                forall|k: HalfEdgeKey| keys@.contains(k) <==> self.half_edges().contains_key(k),
                loose ==> forall|j: int|
                    0 <= j < i ==> self.half_edges()[#[trigger] keys@[j]].origin != Some(vertex)
                        && self.half_edges()[keys@[j]].destination != Some(vertex),
                !loose ==> !self.is_loose(vertex),
            decreases keys@.len() - i + (if loose { 1int } else { 0int }),
        {
            let key = keys[i];
            assert(keys@.contains(key));
            if self.get_half_edge_origin(key) == Some(vertex) || self.get_half_edge_destination(key)
                == Some(vertex) {
                loose = false;
            } else {
                i += 1;
            }
        }
        proof {
            if loose {
                assert forall|e: HalfEdgeKey| #[trigger] self.half_edges().contains_key(e) implies self.half_edges()[e].origin
                    != Some(vertex) && self.half_edges()[e].destination != Some(vertex) by {
                    assert(keys@.contains(e));
                    let j = choose|j: int| 0 <= j < keys@.len() && keys@[j] == e;
                    assert(self.half_edges()[keys@[j]].origin != Some(vertex));
                }
            }
        }
        loose
    }

    /// The places of the vertices in the order in which the diagram walks them.
    pub open spec fn vertex_points(&self) -> Seq<Point> {
        Seq::new(self.vertex_order().len(), |i: int| self.vertices()[self.vertex_order()[i]].point)
    }

    /// The place of every vertex, in the order in which the diagram walks them.
    pub fn get_vertex_points(&self) -> (r: Vec<Point>)
        requires
            self.wf(),
        ensures
            r@ == self.vertex_points(),
            r@.len() == self.vertex_order().len(),
            r@.len() == self.vertex_total(),
            self.vertex_order().no_duplicates(),
            forall|k: VertexKey| self.vertex_order().contains(k) <==> self.vertices().contains_key(k),
            forall|i: int|
                0 <= i < r@.len() ==> #[trigger] r@[i] == self.vertices()[self.vertex_order()[i]].point,
    {
        let raws = pool_keys(&self.vertices);
        let mut points: Vec<Point> = Vec::new();
        let mut i: usize = 0;
        proof {
            assert forall|j: int| 0 <= j < raws@.len() implies self.vertices().contains_key(VertexKey { raw: #[trigger] raws@[j] }) by {
                assert(raws@.contains(raws@[j]));
            }
        }
        while i < raws.len()
            invariant
                self.wf(),
                i <= raws@.len(),
                points@.len() == i,
                raws@ == pool_key_order(self.vertices),
                forall|j: int| 0 <= j < raws@.len() ==> self.vertices().contains_key(VertexKey { raw: #[trigger] raws@[j] }),
                forall|j: int|
                    0 <= j < i ==> #[trigger] points@[j] == self.vertices()[VertexKey { raw: raws@[j] }].point,
            decreases raws@.len() - i,
        {
            let vertex = self.vertex(VertexKey { raw: raws[i] });
            points.push(vertex.point);
            i += 1;
        }
        proof {
            let order = self.vertex_order();
            assert(order.len() == raws@.len());
            assert forall|k: VertexKey| order.contains(k) <==> self.vertices().contains_key(k) by {
                if order.contains(k) {
                    let j = choose|j: int| 0 <= j < order.len() && order[j] == k;
                    assert(raws@.contains(raws@[j]));
                }
                if self.vertices().contains_key(k) {
                    assert(raws@.contains(k.raw));
                    let j = choose|j: int| 0 <= j < raws@.len() && raws@[j] == k.raw;
                    assert(order[j] == k);
                }
            }
            assert(order.no_duplicates()) by {
                assert forall|a: int, b: int| 0 <= a < order.len() && 0 <= b < order.len() && a != b implies order[a] != order[b] by {
                    assert(raws@[a] != raws@[b]);
                }
            }
            self.lemma_finite();
            order.unique_seq_to_set();
            assert(order.to_set() =~= self.vertices().dom());
            assert(points@ =~= self.vertex_points());
        }
        points
    }

    /// Adds a half edge on `face` with nothing else set. Where the face had no outer
    /// component, the new half edge becomes it.
    pub fn add_half_edge(&mut self, face: FaceKey) -> (r: HalfEdgeKey)
        requires
            old(self).wf(),
            old(self).faces().contains_key(face),
            old(self).half_edge_total() < POOL_LIMIT,
        ensures
            final(self).wf(),
            !old(self).half_edges().contains_key(r),
            final(self).half_edges() == old(self).half_edges().insert(r, HalfEdge::fresh(face)),
            final(self).faces() == Self::faces_with(old(self).faces(), face, r),
            final(self).face_order() == old(self).face_order(),
            final(self).vertices_kept(old(self)),
            final(self).half_edge_total() == old(self).half_edge_total() + 1,
            old(self).twins_paired() ==> final(self).twins_paired(),
            old(self).links_paired() ==> final(self).links_paired(),
    {
        proof {
            old(self).lemma_finite();
            Self::lemma_typed_domain(pool_entries(self.half_edges).dom(), self.half_edges().dom(), |raw: u64| HalfEdgeKey { raw }, |k: HalfEdgeKey| k.raw);
        }
        let fresh = HalfEdge {
            origin: None,
            destination: None,
            incident_face: Some(face),
            twin: None,
            prev: None,
            next: None,
        };
        let raw = pool_insert(&mut self.half_edges, Entity::HalfEdge(fresh));
        let new_half_edge = HalfEdgeKey { raw };
        assert(self.half_edges() =~= old(self).half_edges().insert(new_half_edge, fresh));
        assert(self.faces_kept(old(self)));
        let current = self.face(face);
        if current.outer_component.is_none() {
            self.put_face(face, Face { point: current.point, outer_component: Some(new_half_edge) });
        }
        new_half_edge
    }

    /// The faces after a half edge was made on `face`: where the face had no outer
    /// component, the new half edge is it.
    pub open spec fn faces_with(faces: Map<FaceKey, Face>, face: FaceKey, half_edge: HalfEdgeKey) -> Map<FaceKey, Face> {
        if faces[face].outer_component.is_none() {
            faces.insert(face, Face { point: faces[face].point, outer_component: Some(half_edge) })
        } else {
            faces
        }
    }

    /// Adds an edge between two faces: a pair of half edges, twins of each other, the first
    /// on `left_face` and the second on `right_face`.
    pub fn add_edge(&mut self, left_face: FaceKey, right_face: FaceKey) -> (r: (HalfEdgeKey, HalfEdgeKey))
        requires
            old(self).wf(),
            old(self).faces().contains_key(left_face),
            old(self).faces().contains_key(right_face),
            old(self).half_edge_total() + 1 < POOL_LIMIT,
        ensures
            final(self).wf(),
            r.0 != r.1,
            !old(self).half_edges().contains_key(r.0),
            !old(self).half_edges().contains_key(r.1),
            final(self).half_edges() == old(self).half_edges().insert(
                r.0,
                HalfEdge { twin: Some(r.1), ..HalfEdge::fresh(left_face) },
            ).insert(r.1, HalfEdge { twin: Some(r.0), ..HalfEdge::fresh(right_face) }),
            final(self).faces() == Self::faces_with(
                Self::faces_with(old(self).faces(), left_face, r.0),
                right_face,
                r.1,
            ),
            final(self).face_order() == old(self).face_order(),
            final(self).vertices_kept(old(self)),
            final(self).half_edge_total() == old(self).half_edge_total() + 2,
            old(self).twins_paired() ==> final(self).twins_paired(),
            old(self).links_paired() ==> final(self).links_paired(),
    {
        let half_edge_1 = self.add_half_edge(left_face);
        let half_edge_2 = self.add_half_edge(right_face);
        self.set_half_edge_twin(half_edge_1, Some(half_edge_2));
        self.set_half_edge_twin(half_edge_2, Some(half_edge_1));
        assert(self.half_edges() =~= old(self).half_edges().insert(
            half_edge_1,
            HalfEdge { twin: Some(half_edge_2), ..HalfEdge::fresh(left_face) },
        ).insert(half_edge_2, HalfEdge { twin: Some(half_edge_1), ..HalfEdge::fresh(right_face) }));
        (half_edge_1, half_edge_2)
    }

    /// Takes the half edge out of the diagram, if it is in it. What names it is left as it
    /// is.
    pub fn remove_half_edge(&mut self, half_edge: HalfEdgeKey)
        requires
            old(self).wf(),
        ensures
            final(self).wf(),
            final(self).half_edges() == old(self).half_edges().remove(half_edge),
            final(self).faces_kept(old(self)),
            final(self).vertices_kept(old(self)),
            old(self).twins_agree() ==> final(self).twins_agree(),
    {
        if self.has_half_edge(half_edge) {
            pool_remove(&mut self.half_edges, half_edge.raw);
        }
        assert(self.half_edges() =~= old(self).half_edges().remove(half_edge));
    }

    /// Adds a vertex at `point`.
    pub fn add_vertex(&mut self, point: Point) -> (r: VertexKey)
        requires
            old(self).wf(),
            old(self).vertex_total() < POOL_LIMIT,
        ensures
            final(self).wf(),
            !old(self).vertices().contains_key(r),
            final(self).vertices() == old(self).vertices().insert(r, Vertex { point }),
            final(self).faces_kept(old(self)),
            final(self).half_edges() == old(self).half_edges(),
            final(self).vertex_total() == old(self).vertex_total() + 1,
    {
        proof {
            old(self).lemma_finite();
            Self::lemma_typed_domain(pool_entries(self.vertices).dom(), self.vertices().dom(), |raw: u64| VertexKey { raw }, |k: VertexKey| k.raw);
        }
        let raw = pool_insert(&mut self.vertices, Entity::Vertex(Vertex { point }));
        let key = VertexKey { raw };
        assert(self.vertices() =~= old(self).vertices().insert(key, Vertex { point }));
        key
    }

    /// Takes the vertex out of the diagram, if it is in it. What names it is left as it is.
    pub fn remove_vertex(&mut self, vertex: VertexKey)
        requires
            old(self).wf(),
        ensures
            final(self).wf(),
            final(self).vertices() == old(self).vertices().remove(vertex),
            final(self).faces_kept(old(self)),
            final(self).half_edges() == old(self).half_edges(),
    {
        if self.has_vertex(vertex) {
            pool_remove(&mut self.vertices, vertex.raw);
        }
        assert(self.vertices() =~= old(self).vertices().remove(vertex));
    }

    pub fn get_face_point(&self, face: FaceKey) -> (r: Point)
        requires
            self.wf(),
            self.faces().contains_key(face),
        ensures
            r == self.faces()[face].point,
    {
        self.face(face).point
    }

    pub fn get_face_outer_component(&self, face: FaceKey) -> (r: Option<HalfEdgeKey>)
        requires
            self.wf(),
            self.faces().contains_key(face),
        ensures
            r == self.faces()[face].outer_component,
    {
        self.face(face).outer_component
    }

    pub fn set_face_outer_component(&mut self, face: FaceKey, half_edge: Option<HalfEdgeKey>)
        requires
            old(self).wf(),
            old(self).faces().contains_key(face),
        ensures
            final(self).wf(),
            final(self).faces() == old(self).faces().insert(
                face,
                Face { outer_component: half_edge, ..old(self).faces()[face] },
            ),
            final(self).face_order() == old(self).face_order(),
            final(self).vertices_kept(old(self)),
            final(self).half_edges() == old(self).half_edges(),
    {
        let current = self.face(face);
        self.put_face(face, Face { point: current.point, outer_component: half_edge });
    }

    pub fn get_vertex_point(&self, vertex: VertexKey) -> (r: Point)
        requires
            self.wf(),
            self.vertices().contains_key(vertex),
        ensures
            r == self.vertices()[vertex].point,
    {
        self.vertex(vertex).point
    }

    /// The place of the origin of a half edge.
    pub fn get_half_edge_origin_point(&self, half_edge: HalfEdgeKey) -> (r: Point)
        requires
            self.wf(),
            self.half_edges().contains_key(half_edge),
            self.half_edges()[half_edge].origin.is_some(),
            self.vertices().contains_key(self.half_edges()[half_edge].origin.unwrap()),
        ensures
            r == self.vertices()[self.half_edges()[half_edge].origin.unwrap()].point,
    {
        let half_edge = self.half_edge(half_edge);
        self.get_vertex_point(half_edge.origin.unwrap())
    }

    /// Makes `next` follow `prev`: sets the `prev` of the one and the `next` of the other.
    pub fn link_half_edges(&mut self, prev: HalfEdgeKey, next: HalfEdgeKey)
        requires
            old(self).wf(),
            old(self).half_edges().contains_key(prev),
            old(self).half_edges().contains_key(next),
        ensures
            final(self).wf(),
            final(self).half_edges() == Self::linked(old(self).half_edges(), prev, next),
            final(self).faces_kept(old(self)),
            final(self).vertices_kept(old(self)),
            old(self).twins_paired() ==> final(self).twins_paired(),
            old(self).links_paired() && Self::link_is_free(old(self).half_edges(), prev, next)
                ==> final(self).links_paired(),
    {
        self.set_half_edge_prev(next, Some(prev));
        self.set_half_edge_next(prev, Some(next));
    }

    /// The half edges after `next` was made to follow `prev`.
    pub open spec fn linked(half_edges: Map<HalfEdgeKey, HalfEdge>, prev: HalfEdgeKey, next: HalfEdgeKey) -> Map<HalfEdgeKey, HalfEdge> {
        let first = half_edges.insert(next, HalfEdge { prev: Some(prev), ..half_edges[next] });
        first.insert(prev, HalfEdge { next: Some(next), ..first[prev] })
    }

    /// Nothing is undone by making `next` follow `prev`: `prev` leads nowhere yet or to
    /// `next` already, and no other half edge leads to `next`.
    pub open spec fn link_is_free(half_edges: Map<HalfEdgeKey, HalfEdge>, prev: HalfEdgeKey, next: HalfEdgeKey) -> bool {
        &&& half_edges[prev].next.is_none() || half_edges[prev].next == Some(next)
        &&& forall|e: HalfEdgeKey| #[trigger]
            half_edges.contains_key(e) && half_edges[e].next == Some(next) ==> e == prev
    }

    pub fn get_half_edge_twin(&self, half_edge: HalfEdgeKey) -> (r: Option<HalfEdgeKey>)
        requires
            self.wf(),
            self.half_edges().contains_key(half_edge),
        ensures
            r == self.half_edges()[half_edge].twin,
    {
        self.half_edge(half_edge).twin
    }

    fn set_half_edge_twin(&mut self, half_edge: HalfEdgeKey, twin: Option<HalfEdgeKey>)
        requires
            old(self).wf(),
            old(self).half_edges().contains_key(half_edge),
        ensures
            final(self).wf(),
            final(self).half_edges() == old(self).half_edges().insert(
                half_edge,
                HalfEdge { twin: twin, ..old(self).half_edges()[half_edge] },
            ),
            final(self).faces_kept(old(self)),
            final(self).vertices_kept(old(self)),
            old(self).links_paired() ==> final(self).links_paired(),
    {
        let current = self.half_edge(half_edge);
        self.put_half_edge(half_edge, HalfEdge {
            origin: current.origin,
            destination: current.destination,
            incident_face: current.incident_face,
            twin: twin,
            prev: current.prev,
            next: current.next,
        });
    }

    pub fn get_half_edge_incident_face(&self, half_edge: HalfEdgeKey) -> (r: Option<FaceKey>)
        requires
            self.wf(),
            self.half_edges().contains_key(half_edge),
        ensures
            r == self.half_edges()[half_edge].incident_face,
    {
        self.half_edge(half_edge).incident_face
    }

    pub fn get_half_edge_prev(&self, half_edge: HalfEdgeKey) -> (r: Option<HalfEdgeKey>)
        requires
            self.wf(),
            self.half_edges().contains_key(half_edge),
        ensures
            r == self.half_edges()[half_edge].prev,
    {
        self.half_edge(half_edge).prev
    }

    pub fn get_half_edge_next(&self, half_edge: HalfEdgeKey) -> (r: Option<HalfEdgeKey>)
        requires
            self.wf(),
            self.half_edges().contains_key(half_edge),
        ensures
            r == self.half_edges()[half_edge].next,
    {
        self.half_edge(half_edge).next
    }

    fn set_half_edge_prev(&mut self, half_edge: HalfEdgeKey, prev: Option<HalfEdgeKey>)
        requires
            old(self).wf(),
            old(self).half_edges().contains_key(half_edge),
        ensures
            final(self).wf(),
            final(self).half_edges() == old(self).half_edges().insert(
                half_edge,
                HalfEdge { prev: prev, ..old(self).half_edges()[half_edge] },
            ),
            final(self).faces_kept(old(self)),
            final(self).vertices_kept(old(self)),
            old(self).twins_paired() ==> final(self).twins_paired(),
    {
        let current = self.half_edge(half_edge);
        self.put_half_edge(half_edge, HalfEdge {
            origin: current.origin,
            destination: current.destination,
            incident_face: current.incident_face,
            twin: current.twin,
            prev: prev,
            next: current.next,
        });
    }

    fn set_half_edge_next(&mut self, half_edge: HalfEdgeKey, next: Option<HalfEdgeKey>)
        requires
            old(self).wf(),
            old(self).half_edges().contains_key(half_edge),
        ensures
            final(self).wf(),
            final(self).half_edges() == old(self).half_edges().insert(
                half_edge,
                HalfEdge { next: next, ..old(self).half_edges()[half_edge] },
            ),
            final(self).faces_kept(old(self)),
            final(self).vertices_kept(old(self)),
            old(self).twins_paired() ==> final(self).twins_paired(),
    {
        let current = self.half_edge(half_edge);
        self.put_half_edge(half_edge, HalfEdge {
            origin: current.origin,
            destination: current.destination,
            incident_face: current.incident_face,
            twin: current.twin,
            prev: current.prev,
            next: next,
        });
    }

    pub fn set_half_edge_origin(&mut self, half_edge: HalfEdgeKey, origin: Option<VertexKey>)
        requires
            old(self).wf(),
            old(self).half_edges().contains_key(half_edge),
        ensures
            final(self).wf(),
            final(self).half_edges() == old(self).half_edges().insert(
                half_edge,
                HalfEdge { origin: origin, ..old(self).half_edges()[half_edge] },
            ),
            final(self).faces_kept(old(self)),
            final(self).vertices_kept(old(self)),
            old(self).twins_paired() ==> final(self).twins_paired(),
            old(self).links_paired() ==> final(self).links_paired(),
    {
        let current = self.half_edge(half_edge);
        self.put_half_edge(half_edge, HalfEdge {
            origin: origin,
            destination: current.destination,
            incident_face: current.incident_face,
            twin: current.twin,
            prev: current.prev,
            next: current.next,
        });
    }

    pub fn get_half_edge_origin(&self, half_edge: HalfEdgeKey) -> (r: Option<VertexKey>)
        requires
            self.wf(),
            self.half_edges().contains_key(half_edge),
        ensures
            r == self.half_edges()[half_edge].origin,
    {
        self.half_edge(half_edge).origin
    }

    pub fn set_half_edge_destination(&mut self, half_edge: HalfEdgeKey, destination: Option<VertexKey>)
        requires
            old(self).wf(),
            old(self).half_edges().contains_key(half_edge),
        ensures
            final(self).wf(),
            final(self).half_edges() == old(self).half_edges().insert(
                half_edge,
                HalfEdge { destination: destination, ..old(self).half_edges()[half_edge] },
            ),
            final(self).faces_kept(old(self)),
            final(self).vertices_kept(old(self)),
            old(self).twins_paired() ==> final(self).twins_paired(),
            old(self).links_paired() ==> final(self).links_paired(),
    {
        let current = self.half_edge(half_edge);
        self.put_half_edge(half_edge, HalfEdge {
            origin: current.origin,
            destination: destination,
            incident_face: current.incident_face,
            twin: current.twin,
            prev: current.prev,
            next: current.next,
        });
    }

    pub fn get_half_edge_destination(&self, half_edge: HalfEdgeKey) -> (r: Option<VertexKey>)
        requires
            self.wf(),
            self.half_edges().contains_key(half_edge),
        ensures
            r == self.half_edges()[half_edge].destination,
    {
        self.half_edge(half_edge).destination
    }

    /// The diagram has grown out of `before`: it has the same faces at the same sites, all
    /// the vertices of `before` where they were, and all its half edges; and what held of
    /// the twins and the ends of the half edges of `before` holds of its own.
    pub open spec fn grown(&self, before: &Diagram) -> bool {
        &&& self.wf()
        &&& self.face_order() == before.face_order()
        &&& self.faces().dom() == before.faces().dom()
        &&& forall|f: FaceKey| #[trigger]
            before.faces().contains_key(f) ==> self.faces()[f].point == before.faces()[f].point
        &&& forall|v: VertexKey| #[trigger]
            before.vertices().contains_key(v) ==> self.vertices().contains_key(v)
                && self.vertices()[v] == before.vertices()[v]
        &&& forall|e: HalfEdgeKey| #[trigger]
            before.half_edges().contains_key(e) ==> self.half_edges().contains_key(e)
        &&& (before.twins_paired() ==> self.twins_paired())
        &&& (before.ends_present() ==> self.ends_present())
    }

    /// Every half edge of `before` is in the diagram, and each of its ends that was set is
    /// as it was.
    pub open spec fn ends_held(&self, before: &Diagram) -> bool {
        forall|e: HalfEdgeKey| #[trigger]
            before.half_edges().contains_key(e) ==> {
                &&& self.half_edges().contains_key(e)
                &&& before.half_edges()[e].origin.is_some() ==> self.half_edges()[e].origin
                    == before.half_edges()[e].origin
                &&& before.half_edges()[e].destination.is_some() ==> self.half_edges()[e].destination
                    == before.half_edges()[e].destination
            }
    }

    /// Ends that are held over two steps are held over both.
    pub proof fn lemma_ends_held_trans(&self, middle: &Diagram, before: &Diagram)
        requires
            self.ends_held(middle),
            middle.ends_held(before),
        ensures
            self.ends_held(before),
    {
        assert forall|e: HalfEdgeKey| #[trigger] before.half_edges().contains_key(e) implies {
            &&& self.half_edges().contains_key(e)
            &&& before.half_edges()[e].origin.is_some() ==> self.half_edges()[e].origin
                == before.half_edges()[e].origin
            &&& before.half_edges()[e].destination.is_some() ==> self.half_edges()[e].destination
                == before.half_edges()[e].destination
        } by {
            assert(middle.half_edges().contains_key(e));
        }
    }

    /// Twins that are paired agree.
    pub proof fn lemma_twins_agree(&self)
        requires
            self.twins_paired(),
        ensures
            self.twins_agree(),
    {
    }

    /// Growing carries over.
    pub proof fn lemma_grown_trans(&self, middle: &Diagram, before: &Diagram)
        requires
            self.grown(middle),
            middle.grown(before),
        ensures
            self.grown(before),
    {
        assert forall|f: FaceKey| #[trigger] before.faces().contains_key(f) implies self.faces()[f].point
            == before.faces()[f].point by {
            assert(middle.faces().contains_key(f));
        }
        assert forall|v: VertexKey| #[trigger] before.vertices().contains_key(v) implies self.vertices().contains_key(
            v,
        ) && self.vertices()[v] == before.vertices()[v] by {
            assert(middle.vertices().contains_key(v));
        }
        assert forall|e: HalfEdgeKey| #[trigger] before.half_edges().contains_key(e) implies self.half_edges().contains_key(
            e,
        ) by {
            assert(middle.half_edges().contains_key(e));
        }
    }

    /// The half edge `k` steps of `next` behind `start`: none where the chain has ended
    /// before, on a half edge without `next` or on a key that names no half edge.
    pub open spec fn walk(&self, start: HalfEdgeKey, k: nat) -> Option<HalfEdgeKey>
        decreases k,
    {
        if k == 0 {
            Some(start)
        } else {
            match self.walk(start, (k - 1) as nat) {
                Some(e) => if self.half_edges().contains_key(e) {
                    self.half_edges()[e].next
                } else {
                    None
                },
                None => None,
            }
        }
    }

    /// `round` is the way round from `start`: it follows `next` from `start` over half
    /// edges of the diagram, as far as that leads back to `start`, or nowhere.
    pub open spec fn is_round(&self, start: HalfEdgeKey, round: Seq<HalfEdgeKey>) -> bool {
        &&& round.len() >= 1
        &&& forall|i: int|
            0 <= i < round.len() ==> self.walk(start, i as nat) == Some(#[trigger] round[i])
                && self.half_edges().contains_key(round[i])
        &&& forall|i: int| 1 <= i < round.len() ==> #[trigger] round[i] != start
        &&& (self.walk(start, round.len()).is_none() || self.walk(start, round.len()) == Some(
            start,
        ))
    }

    /// The way round from `start`, where there is one of no more half edges than the
    /// diagram has.
    pub open spec fn round_of(&self, start: HalfEdgeKey) -> Option<Seq<HalfEdgeKey>> {
        if exists|round: Seq<HalfEdgeKey>|
            self.is_round(start, round) && round.len() <= self.half_edge_total() {
            Some(
                choose|round: Seq<HalfEdgeKey>|
                    self.is_round(start, round) && round.len() <= self.half_edge_total(),
            )
        } else {
            None
        }
    }

    /// From one half edge there is at most one way round.
    pub proof fn lemma_round_unique(&self, start: HalfEdgeKey, a: Seq<HalfEdgeKey>, b: Seq<HalfEdgeKey>)
        requires
            self.is_round(start, a),
            self.is_round(start, b),
        ensures
            a == b,
    {
        if a.len() < b.len() {
            assert(self.walk(start, a.len()) == Some(b[a.len() as int]));
            assert(b[a.len() as int] != start);
        } else if b.len() < a.len() {
            assert(self.walk(start, b.len()) == Some(a[b.len() as int]));
            assert(a[b.len() as int] != start);
        } else {
            assert(a =~= b);
        }
    }

    /// The half edges on the way round from `start`, in order: see `round_of`.
    pub fn outer_edges(&self, start: HalfEdgeKey) -> (r: Option<Vec<HalfEdgeKey>>)
        requires
            self.wf(),
        ensures
            match r {
                Some(round) => self.round_of(start) == Some(round@),
                None => self.round_of(start).is_none(),
            },
    {
        let limit = self.half_edge_count();
        let mut round: Vec<HalfEdgeKey> = Vec::new();
        let mut current = start;
        let mut ended = false;
        let mut broken = false;
        while round.len() < limit && !ended && !broken
            invariant
                self.wf(),
                limit == self.half_edge_total(),
                round@.len() <= limit,
                !(ended && broken),
                forall|i: int|
                    0 <= i < round@.len() ==> self.walk(start, i as nat) == Some(
                        #[trigger] round@[i],
                    ) && self.half_edges().contains_key(round@[i]),
                forall|i: int| 1 <= i < round@.len() ==> #[trigger] round@[i] != start,
                !ended ==> self.walk(start, round@.len()) == Some(current),
                !ended && round@.len() >= 1 ==> current != start,
                ended ==> self.is_round(start, round@),
                broken ==> !self.half_edges().contains_key(current),
            decreases limit - round@.len() + (if ended || broken { 0int } else { 1int }),
        {
            if !self.has_half_edge(current) {
                broken = true;
            } else {
                round.push(current);
                match self.get_half_edge_next(current) {
                    None => {
                        ended = true;
                    },
                    Some(next) => {
                        if next == start {
                            ended = true;
                        } else {
                            current = next;
                        }
                    },
                }
            }
        }
        if ended {
            proof {
                let chosen = self.round_of(start).unwrap();
                self.lemma_round_unique(start, chosen, round@);
            }
            Some(round)
        } else {
            proof {
                if self.round_of(start).is_some() {
                    let other = self.round_of(start).unwrap();
                    let n = round@.len();
                    if other.len() > n {
                        assert(self.walk(start, n as nat) == Some(other[n as int]));
                    } else {
                        assert(self.walk(start, other.len()) == Some(round@[other.len() as int])
                            || (other.len() == n && self.walk(start, other.len()) == Some(
                            current,
                        )));
                    }
                }
            }
            None
        }
    }

    /// A cursor that walks the half edges round a face, from its outer component on.
    pub fn outer_edge_iter(&self, face: FaceKey) -> (r: EdgeIterator<'_>)
        requires
            self.wf(),
            self.faces().contains_key(face),
            self.faces()[face].outer_component.is_some(),
        ensures
            r.diagram() == *self,
            Some(r.start()) == self.faces()[face].outer_component,
            r.current().is_none(),
    {
        let start_edge = self.get_face_outer_component(face).unwrap();
        EdgeIterator { diagram: self, start_edge, current_edge: None }
    }

    /// Some half edge of the sequence has no twin.
    pub open spec fn lacks_twin(&self, round: Seq<HalfEdgeKey>) -> bool {
        exists|i: int| 0 <= i < round.len() && (#[trigger] self.half_edges()[round[i]]).twin.is_none()
    }

    /// Whether a half edge on the way round the face has no twin, so that the face lies
    /// on the border of the diagram. False for a face without a way round.
    pub fn is_face_on_border(&self, face: FaceKey) -> (r: bool)
        requires
            self.wf(),
            self.faces().contains_key(face),
            self.faces()[face].outer_component.is_some(),
        ensures
            r == match self.round_of(self.faces()[face].outer_component.unwrap()) {
                Some(round) => self.lacks_twin(round),
                None => false,
            },
    {
        let start = self.get_face_outer_component(face).unwrap();
        match self.outer_edges(start) {
            None => false,
            Some(round) => {
                let mut i: usize = 0;
                let mut found = false;
                proof {
                    let chosen = self.round_of(start).unwrap();
                    assert(self.is_round(start, chosen));
                }
                while i < round.len() && !found
                    invariant
                        self.wf(),
                        i <= round@.len(),
                        self.is_round(start, round@),
                        found ==> self.lacks_twin(round@),
                        !found ==> forall|j: int|
                            0 <= j < i ==> (#[trigger] self.half_edges()[round@[j]]).twin.is_some(),
                    decreases round@.len() - i + (if found { 0int } else { 1int }),
                {
                    if self.get_half_edge_twin(round[i]).is_none() {
                        found = true;
                    } else {
                        i += 1;
                    }
                }
                found
            },
        }
    }

    /// The ends of those of the first `n` half edges of `round` that have both ends set.
    pub open spec fn ends_of(&self, round: Seq<HalfEdgeKey>, n: nat) -> Seq<(VertexKey, VertexKey)>
        decreases n,
    {
        if n == 0 {
            Seq::empty()
        } else {
            let rest = self.ends_of(round, (n - 1) as nat);
            let e = self.half_edges()[round[n - 1]];
            if e.origin.is_some() && e.destination.is_some() {
                rest.push((e.origin.unwrap(), e.destination.unwrap()))
            } else {
                rest
            }
        }
    }

    /// The ends of the half edges round a face that have both ends set, in order. Empty for
    /// a face without a way round.
    pub open spec fn face_ends(&self, face: FaceKey) -> Seq<(VertexKey, VertexKey)> {
        match self.round_of(self.faces()[face].outer_component.unwrap()) {
            Some(round) => self.ends_of(round, round.len()),
            None => Seq::empty(),
        }
    }

    /// The ends of the half edges round each of the first `n` faces, face after face.
    pub open spec fn ends_upto(&self, n: nat) -> Seq<(VertexKey, VertexKey)>
        decreases n,
    {
        if n == 0 {
            Seq::empty()
        } else {
            self.ends_upto((n - 1) as nat) + self.face_ends(self.face_order()[n - 1])
        }
    }

    /// Every face has an outer component.
    pub open spec fn faces_bounded(&self) -> bool {
        forall|f: FaceKey| #[trigger]
            self.faces().contains_key(f) ==> self.faces()[f].outer_component.is_some()
    }

    /// For every half edge round a face that has both its ends set, the keys of the two
    /// vertices; face after face, and round each face in order.
    pub fn get_edge_vertices(&self) -> (r: Vec<(VertexKey, VertexKey)>)
        requires
            self.wf(),
            self.faces_bounded(),
        ensures
            r@ == self.ends_upto(self.face_order().len()),
    {
        let mut edges: Vec<(VertexKey, VertexKey)> = Vec::new();
        let faces = self.get_face_indices();
        let mut f: usize = 0;
        while f < faces.len()
            invariant
                self.wf(),
                self.faces_bounded(),
                faces@ == self.face_order(),
                forall|k: FaceKey| faces@.contains(k) <==> self.faces().contains_key(k),
                f <= faces@.len(),
                edges@ == self.ends_upto(f as nat),
            decreases faces@.len() - f,
        {
            let face = faces[f];
            assert(faces@.contains(face));
            let start = self.get_face_outer_component(face).unwrap();
            let ghost before = edges@;
            match self.outer_edges(start) {
                None => {},
                Some(round) => {
                    proof {
                        let chosen = self.round_of(start).unwrap();
                        assert(self.is_round(start, chosen));
                    }
                    let mut i: usize = 0;
                    while i < round.len()
                        invariant
                            self.wf(),
                            self.is_round(start, round@),
                            i <= round@.len(),
                            edges@ == before + self.ends_of(round@, i as nat),
                        decreases round@.len() - i,
                    {
                        let origin = self.get_half_edge_origin(round[i]);
                        let destination = self.get_half_edge_destination(round[i]);
                        if origin.is_some() && destination.is_some() {
                            edges.push((origin.unwrap(), destination.unwrap()));
                        }
                        i += 1;
                    }
                },
            }
            f += 1;
        }
        edges
    }

    /// Every half edge of the diagram that has an end set has it at a vertex of the
    /// diagram.
    pub open spec fn ends_present(&self) -> bool {
        forall|e: HalfEdgeKey| #[trigger]
            self.half_edges().contains_key(e) ==> (match self.half_edges()[e].origin {
                Some(v) => self.vertices().contains_key(v),
                None => true,
            }) && (match self.half_edges()[e].destination {
                Some(v) => self.vertices().contains_key(v),
                None => true,
            })
    }

    /// For every half edge round a face that has both its ends set, the places of the two
    /// vertices; in the order of `get_edge_vertices`.
    pub fn get_edge_endpoints(&self) -> (r: Vec<(Point, Point)>)
        requires
            self.wf(),
            self.faces_bounded(),
            self.ends_present(),
        ensures
            r@.len() == self.ends_upto(self.face_order().len()).len(),
            forall|i: int|
                0 <= i < r@.len() ==> #[trigger] r@[i] == (
                    self.vertices()[self.ends_upto(self.face_order().len())[i].0].point,
                    self.vertices()[self.ends_upto(self.face_order().len())[i].1].point,
                ),
    {
        let ends = self.get_edge_vertices();
        proof {
            self.lemma_ends_upto_present(self.face_order().len());
        }
        let mut edges: Vec<(Point, Point)> = Vec::new();
        let mut i: usize = 0;
        while i < ends.len()
            invariant
                self.wf(),
                i <= ends@.len(),
                edges@.len() == i,
                forall|j: int|
                    0 <= j < ends@.len() ==> self.vertices().contains_key((#[trigger] ends@[j]).0)
                        && self.vertices().contains_key(ends@[j].1),
                forall|j: int|
                    0 <= j < i ==> #[trigger] edges@[j] == (
                        self.vertices()[ends@[j].0].point,
                        self.vertices()[ends@[j].1].point,
                    ),
            decreases ends@.len() - i,
        {
            let pair = ends[i];
            edges.push((self.get_vertex_point(pair.0), self.get_vertex_point(pair.1)));
            i += 1;
        }
        edges
    }

    proof fn lemma_ends_of_present(&self, start: HalfEdgeKey, round: Seq<HalfEdgeKey>, n: nat)
        requires
            self.ends_present(),
            self.is_round(start, round),
            n <= round.len(),
        ensures
            forall|j: int|
                0 <= j < self.ends_of(round, n).len() ==> self.vertices().contains_key(
                    (#[trigger] self.ends_of(round, n)[j]).0,
                ) && self.vertices().contains_key(self.ends_of(round, n)[j].1),
        decreases n,
    {
        if n > 0 {
            self.lemma_ends_of_present(start, round, (n - 1) as nat);
            let rest = self.ends_of(round, (n - 1) as nat);
            let all = self.ends_of(round, n);
            assert(self.half_edges().contains_key(round[n - 1]));
            assert forall|j: int| 0 <= j < all.len() implies self.vertices().contains_key(
                (#[trigger] all[j]).0,
            ) && self.vertices().contains_key(all[j].1) by {
                if j < rest.len() {
                    assert(all[j] == rest[j]);
                }
            }
        }
    }

    proof fn lemma_ends_upto_present(&self, n: nat)
        requires
            self.ends_present(),
            n <= self.face_order().len(),
        ensures
            forall|j: int|
                0 <= j < self.ends_upto(n).len() ==> self.vertices().contains_key(
                    (#[trigger] self.ends_upto(n)[j]).0,
                ) && self.vertices().contains_key(self.ends_upto(n)[j].1),
        decreases n,
    {
        if n > 0 {
            self.lemma_ends_upto_present((n - 1) as nat);
            let face = self.face_order()[n - 1];
            let start = self.faces()[face].outer_component.unwrap();
            let rest = self.ends_upto((n - 1) as nat);
            let last = self.face_ends(face);
            let all = self.ends_upto(n);
            if self.round_of(start).is_some() {
                let round = self.round_of(start).unwrap();
                self.lemma_ends_of_present(start, round, round.len());
            }
            assert forall|j: int| 0 <= j < all.len() implies self.vertices().contains_key(
                (#[trigger] all[j]).0,
            ) && self.vertices().contains_key(all[j].1) by {
                if j < rest.len() {
                    assert(all[j] == rest[j]);
                } else {
                    assert(all[j] == last[j - rest.len()]);
                }
            }
        }
    }
}

/// A cursor round the half edges of one face: it starts before the face's outer component
/// and follows `next` until that leads back to the start, or nowhere.
pub struct EdgeIterator<'a> {
    diagram: &'a Diagram,
    start_edge: HalfEdgeKey,
    current_edge: Option<HalfEdgeKey>,
}

impl<'a> EdgeIterator<'a> {
    pub closed spec fn diagram(&self) -> Diagram {
        *self.diagram
    }

    /// The half edge at which the round starts.
    pub closed spec fn start(&self) -> HalfEdgeKey {
        self.start_edge
    }

    /// The half edge that was handed out last, if the round has begun and not ended.
    pub closed spec fn current(&self) -> Option<HalfEdgeKey> {
        self.current_edge
    }

    /// What follows `current` in the round.
    pub open spec fn step(&self) -> Option<HalfEdgeKey> {
        match self.current() {
            None => Some(self.start()),
            Some(e) => {
                let next = self.diagram().half_edges()[e].next;
                if next == Some(self.start()) {
                    None
                } else {
                    next
                }
            },
        }
    }

    /// The cursor can take a step: it stands before the start, or on a half edge of the
    /// diagram.
    pub open spec fn can_step(&self) -> bool {
        self.diagram().wf() && match self.current() {
            None => true,
            Some(e) => self.diagram().half_edges().contains_key(e),
        }
    }

    pub fn next(&mut self) -> (r: Option<HalfEdgeKey>)
        requires
            old(self).can_step(),
        ensures
            r == old(self).step(),
            final(self).current() == old(self).step(),
            final(self).start() == old(self).start(),
            final(self).diagram() == old(self).diagram(),
    {
        if self.current_edge.is_none() {
            self.current_edge = Some(self.start_edge);
        } else {
            self.current_edge = self.diagram.get_half_edge_next(self.current_edge.unwrap());
            if self.current_edge == Some(self.start_edge) {
                self.current_edge = None;
            }
        }
        self.current_edge
    }
}

/// Whether a raw key is one that a pool hands out: its version is odd.
fn slot_canonical(raw: u64) -> (r: bool)
    ensures
        r == (slot_key(raw) == raw),
{
    (raw | 0x1_0000_0000) == raw
}

} // verus!
