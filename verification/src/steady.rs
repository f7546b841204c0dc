use vstd::prelude::*;
use crate::beachline::{Arc, Beachline};
use crate::diagram::{Diagram, FaceKey, HalfEdge, HalfEdgeKey, VertexKey};
use crate::tree::NodeKey;
use crate::voronoi_builder::{
    arc_removed, closed_at, hinge_of, is_bare, split_arcs, with_edge, Hinge,
};

verus! {

/// Each twin is another half edge of the map, whose twin is the first.
pub open spec fn twinned(half_edges: Map<HalfEdgeKey, HalfEdge>) -> bool {
    forall|e: HalfEdgeKey| #[trigger]
        half_edges.contains_key(e) ==> match half_edges[e].twin {
            Some(t) => t != e && half_edges.contains_key(t) && half_edges[t].twin == Some(e),
            None => true,
        }
}

/// Where `next` leads from a half edge to another, `prev` leads back.
pub open spec fn chained(half_edges: Map<HalfEdgeKey, HalfEdge>) -> bool {
    forall|e: HalfEdgeKey| #[trigger]
        half_edges.contains_key(e) ==> match half_edges[e].next {
            Some(n) => half_edges.contains_key(n) && half_edges[n].prev == Some(e),
            None => true,
        }
}

/// The arcs are those of the order, each once.
pub open spec fn lined(order: Seq<NodeKey>, arcs: Map<NodeKey, Arc>) -> bool {
    &&& order.no_duplicates()
    &&& forall|node: NodeKey| arcs.contains_key(node) <==> order.contains(node)
}

/// Between two arcs that follow each other runs an edge: the right half edge of the one
/// and the left half edge of the other are twins in the map, each on the face of its arc.
pub open spec fn seamed(
    half_edges: Map<HalfEdgeKey, HalfEdge>,
    arcs: Map<NodeKey, Arc>,
    left: NodeKey,
    right: NodeKey,
) -> bool {
    &&& arcs[left].right_half_edge.is_some()
    &&& arcs[right].left_half_edge.is_some()
    &&& half_edges.contains_key(arcs[left].right_half_edge.unwrap())
    &&& half_edges.contains_key(arcs[right].left_half_edge.unwrap())
    &&& half_edges[arcs[left].right_half_edge.unwrap()].twin == arcs[right].left_half_edge
    &&& half_edges[arcs[left].right_half_edge.unwrap()].incident_face == arcs[left].face
    &&& half_edges[arcs[right].left_half_edge.unwrap()].incident_face == arcs[right].face
}

/// Every two arcs that follow each other have an edge between them, and the beachline has
/// no edge beyond its ends.
pub open spec fn seams_sound(
    half_edges: Map<HalfEdgeKey, HalfEdge>,
    order: Seq<NodeKey>,
    arcs: Map<NodeKey, Arc>,
) -> bool {
    &&& forall|i: int|
        0 <= i < order.len() - 1 ==> seamed(half_edges, arcs, #[trigger] order[i], order[i + 1])
    &&& order.len() > 0 ==> arcs[order[0]].left_half_edge.is_none() && arcs[order[order.len()
        - 1]].right_half_edge.is_none()
}

/// The half edges of the arcs are still open towards the beachline: the left half edge of
/// an arc has no `next` and the right one no `prev`.
pub open spec fn edges_open(half_edges: Map<HalfEdgeKey, HalfEdge>, arcs: Map<NodeKey, Arc>) -> bool {
    forall|node: NodeKey| #[trigger]
        arcs.contains_key(node) ==> (match arcs[node].left_half_edge {
            Some(l) => half_edges[l].next.is_none(),
            None => true,
        }) && (match arcs[node].right_half_edge {
            Some(r) => half_edges[r].prev.is_none(),
            None => true,
        })
}

/// No half edge is the left half edge of two arcs, nor the right half edge of two.
pub open spec fn edges_apart(arcs: Map<NodeKey, Arc>) -> bool {
    forall|a: NodeKey, b: NodeKey|
        #![trigger arcs[a], arcs[b]]
        arcs.contains_key(a) && arcs.contains_key(b) && a != b ==> (arcs[a].left_half_edge.is_some()
            ==> arcs[a].left_half_edge != arcs[b].left_half_edge) && (
        arcs[a].right_half_edge.is_some() ==> arcs[a].right_half_edge
            != arcs[b].right_half_edge)
}

/// What holds of a diagram and a beachline between two events of a sweep: twins are
/// paired, `prev` leads back where `next` leads, the arcs alternate with the edges between
/// them, and the half edges of the arcs are open towards the beachline and belong to one
/// arc each.
pub open spec fn steady_in(
    half_edges: Map<HalfEdgeKey, HalfEdge>,
    order: Seq<NodeKey>,
    arcs: Map<NodeKey, Arc>,
) -> bool {
    &&& twinned(half_edges)
    &&& chained(half_edges)
    &&& lined(order, arcs)
    &&& seams_sound(half_edges, order, arcs)
    &&& edges_open(half_edges, arcs)
    &&& edges_apart(arcs)
}

/// What holds of a diagram and a beachline between two events of a sweep: see `steady_in`.
pub open spec fn steady(voronoi: &Diagram, beachline: &Beachline) -> bool {
    steady_in(voronoi.half_edges(), beachline.order(), beachline.arcs())
}

/// Between two events the twins of the diagram are paired, and `prev` leads back where
/// `next` leads.
pub proof fn lemma_steady_diagram(voronoi: &Diagram, beachline: &Beachline)
    requires
        steady(voronoi, beachline),
    ensures
        voronoi.twins_paired(),
        voronoi.links_paired(),
{
}

/// A diagram without half edges and a beachline without arcs are as between two events.
pub proof fn lemma_steady_start(voronoi: &Diagram, beachline: &Beachline)
    requires
        voronoi.half_edges() == Map::<HalfEdgeKey, HalfEdge>::empty(),
        beachline.order() == Seq::<NodeKey>::empty(),
        beachline.arcs() == Map::<NodeKey, Arc>::empty(),
    ensures
        steady(voronoi, beachline),
{
}

/// The first arc of a beachline leaves a diagram and a beachline as between two events.
pub proof fn lemma_steady_root(
    half_edges: Map<HalfEdgeKey, HalfEdge>,
    root: NodeKey,
    face: FaceKey,
)
    requires
        twinned(half_edges),
        chained(half_edges),
    ensures
        steady_in(half_edges, seq![root], Map::<NodeKey, Arc>::empty().insert(root, Arc::fresh(face))),
{
    let order = seq![root];
    let arcs = Map::<NodeKey, Arc>::empty().insert(root, Arc::fresh(face));
    assert(order[0] == root);
    assert forall|node: NodeKey| arcs.contains_key(node) <==> order.contains(node) by {
        if node == root {
            assert(order[0] == node);
        }
    }
}

/// Between two events an arc with a neighbour on either side has its hinge in the
/// diagram, so that its circle event can be handled.
pub proof fn lemma_steady_hinge(voronoi: &Diagram, beachline: &Beachline, arc: NodeKey)
    requires
        steady(voronoi, beachline),
        beachline.tree.wf(),
        beachline.tree.has(arc),
        0 < beachline.tree.rank(arc),
        beachline.tree.rank(arc) + 1 < beachline.order().len(),
    ensures
        hinge_of(arc, voronoi, beachline) == Some(
            hinge_at(beachline.order(), beachline.arcs(), beachline.tree.rank(arc)),
        ),
{
    beachline.tree.lemma_rank(arc);
    lemma_hinged(
        voronoi.half_edges(),
        beachline.order(),
        beachline.arcs(),
        beachline.tree.rank(arc),
    );
}

/// The two maps of arcs agree on all but the handles of the circle events.
pub open spec fn same_seams(arcs: Map<NodeKey, Arc>, before: Map<NodeKey, Arc>) -> bool {
    &&& arcs.dom() == before.dom()
    &&& forall|node: NodeKey| #[trigger]
        arcs.contains_key(node) ==> arcs[node].face == before[node].face
            && arcs[node].left_half_edge == before[node].left_half_edge
            && arcs[node].right_half_edge == before[node].right_half_edge
}

/// The handles of the circle events do not matter to what holds between two events.
pub proof fn lemma_events_steady(
    half_edges: Map<HalfEdgeKey, HalfEdge>,
    order: Seq<NodeKey>,
    before: Map<NodeKey, Arc>,
    arcs: Map<NodeKey, Arc>,
)
    requires
        steady_in(half_edges, order, before),
        same_seams(arcs, before),
    ensures
        steady_in(half_edges, order, arcs),
{
    assert forall|node: NodeKey| arcs.contains_key(node) <==> order.contains(node) by {
        assert(arcs.dom().contains(node) == before.dom().contains(node));
    }
    assert forall|i: int| 0 <= i < order.len() - 1 implies seamed(
        half_edges,
        arcs,
        #[trigger] order[i],
        order[i + 1],
    ) by {
        assert(seamed(half_edges, before, order[i], order[i + 1]));
        assert(order.contains(order[i]) && order.contains(order[i + 1]));
    }
    if order.len() > 0 {
        assert(order.contains(order[0]) && order.contains(order[order.len() - 1]));
    }
    assert forall|node: NodeKey| #[trigger] arcs.contains_key(node) implies (match arcs[node].left_half_edge {
        Some(l) => half_edges[l].next.is_none(),
        None => true,
    }) && (match arcs[node].right_half_edge {
        Some(r) => half_edges[r].prev.is_none(),
        None => true,
    }) by {
        assert(before.contains_key(node));
    }
    assert forall|a: NodeKey, b: NodeKey|
        #![trigger arcs[a], arcs[b]]
        arcs.contains_key(a) && arcs.contains_key(b) && a != b implies (
        arcs[a].left_half_edge.is_some() ==> arcs[a].left_half_edge != arcs[b].left_half_edge) && (
        arcs[a].right_half_edge.is_some() ==> arcs[a].right_half_edge
            != arcs[b].right_half_edge) by {
        assert(before.contains_key(a) && before.contains_key(b));
        let x = before[a];
        let y = before[b];
    }
}

/// Every half edge that an arc names is in the map.
pub open spec fn named_present(half_edges: Map<HalfEdgeKey, HalfEdge>, arcs: Map<NodeKey, Arc>) -> bool {
    forall|node: NodeKey| #[trigger]
        arcs.contains_key(node) ==> (match arcs[node].left_half_edge {
            Some(l) => half_edges.contains_key(l),
            None => true,
        }) && (match arcs[node].right_half_edge {
            Some(r) => half_edges.contains_key(r),
            None => true,
        })
}

/// Between two events every half edge that an arc names is in the diagram.
pub proof fn lemma_named_present(
    half_edges: Map<HalfEdgeKey, HalfEdge>,
    order: Seq<NodeKey>,
    arcs: Map<NodeKey, Arc>,
)
    requires
        lined(order, arcs),
        seams_sound(half_edges, order, arcs),
    ensures
        named_present(half_edges, arcs),
{
    assert forall|node: NodeKey| #[trigger] arcs.contains_key(node) implies (match arcs[node].left_half_edge {
        Some(l) => half_edges.contains_key(l),
        None => true,
    }) && (match arcs[node].right_half_edge {
        Some(r) => half_edges.contains_key(r),
        None => true,
    }) by {
        assert(order.contains(node));
        let i = choose|i: int| 0 <= i < order.len() && order[i] == node;
        if i > 0 {
            assert(seamed(half_edges, arcs, order[i - 1], order[i - 1 + 1]));
        }
        if i < order.len() - 1 {
            assert(seamed(half_edges, arcs, order[i], order[i + 1]));
        }
    }
}

/// A new edge keeps the twins paired and the links in both directions.
pub proof fn lemma_edge_added(
    half_edges: Map<HalfEdgeKey, HalfEdge>,
    pair: (HalfEdgeKey, HalfEdgeKey),
    left_face: FaceKey,
    right_face: FaceKey,
)
    requires
        !half_edges.contains_key(pair.0),
        !half_edges.contains_key(pair.1),
        pair.0 != pair.1,
    ensures
        twinned(half_edges) ==> twinned(with_edge(half_edges, pair, left_face, right_face)),
        chained(half_edges) ==> chained(with_edge(half_edges, pair, left_face, right_face)),
{
    let edges = with_edge(half_edges, pair, left_face, right_face);
    if twinned(half_edges) {
        assert forall|e: HalfEdgeKey| #[trigger] edges.contains_key(e) implies match edges[e].twin {
            Some(t) => t != e && edges.contains_key(t) && edges[t].twin == Some(e),
            None => true,
        } by {
            if e != pair.0 && e != pair.1 {
                assert(half_edges.contains_key(e));
            }
        }
    }
    if chained(half_edges) {
        assert forall|e: HalfEdgeKey| #[trigger] edges.contains_key(e) implies match edges[e].next {
            Some(n) => edges.contains_key(n) && edges[n].prev == Some(e),
            None => true,
        } by {
            if e != pair.0 && e != pair.1 {
                assert(half_edges.contains_key(e));
            }
        }
    }
}

/// The order after an arc was split: the two new nodes stand on either side of the node
/// at `rank`.
pub proof fn lemma_split_order(order: Seq<NodeKey>, rank: int, sides: (NodeKey, NodeKey))
    requires
        0 <= rank < order.len(),
    ensures
        order.insert(rank, sides.0).insert(rank + 2, sides.1).len() == order.len() + 2,
        forall|i: int|
            0 <= i < order.len() + 2 ==> #[trigger] order.insert(rank, sides.0).insert(
                rank + 2,
                sides.1,
            )[i] == (if i < rank {
                order[i]
            } else if i == rank {
                sides.0
            } else if i == rank + 1 {
                order[rank]
            } else if i == rank + 2 {
                sides.1
            } else {
                order[i - 2]
            }),
{
}

proof fn lemma_split_lined(
    order: Seq<NodeKey>,
    arcs: Map<NodeKey, Arc>,
    rank: int,
    face: FaceKey,
    sides: (NodeKey, NodeKey),
    pair: (HalfEdgeKey, HalfEdgeKey),
)
    requires
        lined(order, arcs),
        0 <= rank < order.len(),
        !arcs.contains_key(sides.0),
        !arcs.contains_key(sides.1),
        sides.0 != sides.1,
    ensures
        lined(
            order.insert(rank, sides.0).insert(rank + 2, sides.1),
            split_arcs(arcs, order[rank], face, sides, pair),
        ),
{
    let middle = order[rank];
    let line = order.insert(rank, sides.0).insert(rank + 2, sides.1);
    let after = split_arcs(arcs, middle, face, sides, pair);
    lemma_split_order(order, rank, sides);
    assert(order.contains(middle));
    assert forall|a: int, b: int| 0 <= a < line.len() && 0 <= b < line.len() && a != b implies line[a]
        != line[b] by {
        if a != rank && a != rank + 2 {
            assert(order.contains(line[a]));
        }
        if b != rank && b != rank + 2 {
            assert(order.contains(line[b]));
        }
    }
    assert forall|node: NodeKey| after.contains_key(node) <==> line.contains(node) by {
        if after.contains_key(node) {
            if node == sides.0 {
                assert(line[rank] == node);
            } else if node == sides.1 {
                assert(line[rank + 2] == node);
            } else {
                assert(order.contains(node));
                let i = choose|i: int| 0 <= i < order.len() && order[i] == node;
                if i < rank {
                    assert(line[i] == node);
                } else if i == rank {
                    assert(line[rank + 1] == node);
                } else {
                    assert(line[i + 2] == node);
                }
            }
        }
        if line.contains(node) {
            let i = choose|i: int| 0 <= i < line.len() && line[i] == node;
            if i != rank && i != rank + 2 {
                assert(order.contains(line[i]));
            }
        }
    }
}

proof fn lemma_split_seams(
    half_edges: Map<HalfEdgeKey, HalfEdge>,
    order: Seq<NodeKey>,
    arcs: Map<NodeKey, Arc>,
    rank: int,
    face: FaceKey,
    sides: (NodeKey, NodeKey),
    pair: (HalfEdgeKey, HalfEdgeKey),
)
    requires
        lined(order, arcs),
        seams_sound(half_edges, order, arcs),
        0 <= rank < order.len(),
        arcs[order[rank]].face.is_some(),
        !arcs.contains_key(sides.0),
        !arcs.contains_key(sides.1),
        sides.0 != sides.1,
        !half_edges.contains_key(pair.0),
        !half_edges.contains_key(pair.1),
        pair.0 != pair.1,
    ensures
        seams_sound(
            with_edge(half_edges, pair, arcs[order[rank]].face.unwrap(), face),
            order.insert(rank, sides.0).insert(rank + 2, sides.1),
            split_arcs(arcs, order[rank], face, sides, pair),
        ),
{
    let middle = order[rank];
    let old_face = arcs[middle].face.unwrap();
    let edges = with_edge(half_edges, pair, old_face, face);
    let line = order.insert(rank, sides.0).insert(rank + 2, sides.1);
    let after = split_arcs(arcs, middle, face, sides, pair);
    lemma_split_order(order, rank, sides);
    assert(order.contains(middle));
    assert forall|i: int| 0 <= i < line.len() - 1 implies seamed(
        edges,
        after,
        #[trigger] line[i],
        line[i + 1],
    ) by {
        if i < rank - 1 {
            assert(seamed(half_edges, arcs, order[i], order[i + 1]));
            assert(order.contains(order[i]) && order.contains(order[i + 1]));
        } else if i == rank - 1 {
            assert(seamed(half_edges, arcs, order[i], order[i + 1]));
            assert(order.contains(order[i]));
        } else if i == rank + 2 {
            assert(seamed(half_edges, arcs, order[rank], order[rank + 1]));
            assert(order.contains(order[rank + 1]));
        } else if i > rank + 2 {
            assert(seamed(half_edges, arcs, order[i - 2], order[i - 2 + 1]));
            assert(order.contains(order[i - 2]) && order.contains(order[i - 1]));
        }
    }
    assert(order.contains(order[0]) && order.contains(order[order.len() - 1]));
}

proof fn lemma_split_open(
    half_edges: Map<HalfEdgeKey, HalfEdge>,
    arcs: Map<NodeKey, Arc>,
    middle: NodeKey,
    face: FaceKey,
    sides: (NodeKey, NodeKey),
    pair: (HalfEdgeKey, HalfEdgeKey),
)
    requires
        edges_open(half_edges, arcs),
        named_present(half_edges, arcs),
        arcs.contains_key(middle),
        arcs[middle].face.is_some(),
        !half_edges.contains_key(pair.0),
        !half_edges.contains_key(pair.1),
        pair.0 != pair.1,
    ensures
        edges_open(
            with_edge(half_edges, pair, arcs[middle].face.unwrap(), face),
            split_arcs(arcs, middle, face, sides, pair),
        ),
{
    let edges = with_edge(half_edges, pair, arcs[middle].face.unwrap(), face);
    let after = split_arcs(arcs, middle, face, sides, pair);
    assert forall|node: NodeKey| #[trigger] after.contains_key(node) implies (match after[node].left_half_edge {
        Some(l) => edges[l].next.is_none(),
        None => true,
    }) && (match after[node].right_half_edge {
        Some(r) => edges[r].prev.is_none(),
        None => true,
    }) by {
        if node != sides.0 && node != sides.1 && node != middle {
            assert(arcs.contains_key(node));
        }
    }
}

proof fn lemma_split_apart(
    half_edges: Map<HalfEdgeKey, HalfEdge>,
    arcs: Map<NodeKey, Arc>,
    middle: NodeKey,
    face: FaceKey,
    sides: (NodeKey, NodeKey),
    pair: (HalfEdgeKey, HalfEdgeKey),
)
    requires
        edges_apart(arcs),
        named_present(half_edges, arcs),
        arcs.contains_key(middle),
        !arcs.contains_key(sides.0),
        !arcs.contains_key(sides.1),
        sides.0 != sides.1,
        !half_edges.contains_key(pair.0),
        !half_edges.contains_key(pair.1),
        pair.0 != pair.1,
    ensures
        edges_apart(split_arcs(arcs, middle, face, sides, pair)),
{
    let after = split_arcs(arcs, middle, face, sides, pair);
    assert forall|a: NodeKey, b: NodeKey|
        #![trigger after[a], after[b]]
        after.contains_key(a) && after.contains_key(b) && a != b implies (
        after[a].left_half_edge.is_some() ==> after[a].left_half_edge != after[b].left_half_edge) && (
        after[a].right_half_edge.is_some() ==> after[a].right_half_edge
            != after[b].right_half_edge) by {
        let x = if a == sides.0 || a == sides.1 {
            middle
        } else {
            a
        };
        let y = if b == sides.0 || b == sides.1 {
            middle
        } else {
            b
        };
        assert(arcs.contains_key(x) && arcs.contains_key(y));
        let p = arcs[x];
        let q = arcs[y];
    }
}

/// The splitting of an arc for a new site keeps what holds between two events.
pub proof fn lemma_split_steady(
    half_edges: Map<HalfEdgeKey, HalfEdge>,
    order: Seq<NodeKey>,
    arcs: Map<NodeKey, Arc>,
    rank: int,
    face: FaceKey,
    sides: (NodeKey, NodeKey),
    pair: (HalfEdgeKey, HalfEdgeKey),
)
    requires
        steady_in(half_edges, order, arcs),
        0 <= rank < order.len(),
        arcs[order[rank]].face.is_some(),
        !arcs.contains_key(sides.0),
        !arcs.contains_key(sides.1),
        sides.0 != sides.1,
        !half_edges.contains_key(pair.0),
        !half_edges.contains_key(pair.1),
        pair.0 != pair.1,
    ensures
        steady_in(
            with_edge(half_edges, pair, arcs[order[rank]].face.unwrap(), face),
            order.insert(rank, sides.0).insert(rank + 2, sides.1),
            split_arcs(arcs, order[rank], face, sides, pair),
        ),
{
    let middle = order[rank];
    assert(order.contains(middle));
    lemma_named_present(half_edges, order, arcs);
    lemma_edge_added(half_edges, pair, arcs[middle].face.unwrap(), face);
    lemma_split_lined(order, arcs, rank, face, sides, pair);
    lemma_split_seams(half_edges, order, arcs, rank, face, sides, pair);
    lemma_split_open(half_edges, arcs, middle, face, sides, pair);
    lemma_split_apart(half_edges, arcs, middle, face, sides, pair);
}

/// The hinge of the arc at `rank`, between two events.
pub open spec fn hinge_at(order: Seq<NodeKey>, arcs: Map<NodeKey, Arc>, rank: int) -> Hinge {
    Hinge {
        left: arcs[order[rank]].left_half_edge.unwrap(),
        right: arcs[order[rank]].right_half_edge.unwrap(),
        prev_right: arcs[order[rank - 1]].right_half_edge.unwrap(),
        next_left: arcs[order[rank + 1]].left_half_edge.unwrap(),
    }
}

/// What the half edges of a hinge are to each other between two events.
pub open spec fn hinged(half_edges: Map<HalfEdgeKey, HalfEdge>, hinge: Hinge) -> bool {
    &&& half_edges.contains_key(hinge.left)
    &&& half_edges.contains_key(hinge.right)
    &&& half_edges.contains_key(hinge.prev_right)
    &&& half_edges.contains_key(hinge.next_left)
    &&& half_edges[hinge.prev_right].twin == Some(hinge.left)
    &&& half_edges[hinge.right].twin == Some(hinge.next_left)
    &&& hinge.left != hinge.next_left
    &&& hinge.right != hinge.prev_right
    &&& half_edges[hinge.left].next.is_none()
    &&& half_edges[hinge.next_left].next.is_none()
    &&& half_edges[hinge.right].prev.is_none()
    &&& half_edges[hinge.prev_right].prev.is_none()
}

/// Between two events an arc with a neighbour on either side has a hinge.
pub proof fn lemma_hinged(
    half_edges: Map<HalfEdgeKey, HalfEdge>,
    order: Seq<NodeKey>,
    arcs: Map<NodeKey, Arc>,
    rank: int,
)
    requires
        steady_in(half_edges, order, arcs),
        0 < rank < order.len() - 1,
    ensures
        hinged(half_edges, hinge_at(order, arcs, rank)),
        arcs[order[rank]].left_half_edge.is_some(),
        arcs[order[rank]].right_half_edge.is_some(),
        arcs[order[rank - 1]].right_half_edge.is_some(),
        arcs[order[rank + 1]].left_half_edge.is_some(),
        arcs.contains_key(order[rank]),
        arcs.contains_key(order[rank - 1]),
        arcs.contains_key(order[rank + 1]),
        order[rank - 1] != order[rank],
        order[rank + 1] != order[rank],
        order[rank - 1] != order[rank + 1],
{
    assert(seamed(half_edges, arcs, order[rank - 1], order[rank - 1 + 1]));
    assert(seamed(half_edges, arcs, order[rank], order[rank + 1]));
    assert(order.contains(order[rank]) && order.contains(order[rank - 1]) && order.contains(
        order[rank + 1],
    ));
    let a = arcs[order[rank]];
    let p = arcs[order[rank - 1]];
    let n = arcs[order[rank + 1]];
}

proof fn lemma_closed_edges(
    half_edges: Map<HalfEdgeKey, HalfEdge>,
    hinge: Hinge,
    vertex: VertexKey,
    pair: (HalfEdgeKey, HalfEdgeKey),
    prev_face: FaceKey,
    next_face: FaceKey,
)
    requires
        twinned(half_edges),
        chained(half_edges),
        hinged(half_edges, hinge),
        !half_edges.contains_key(pair.0),
        !half_edges.contains_key(pair.1),
        pair.0 != pair.1,
    ensures
        twinned(closed_at(half_edges, hinge, vertex, pair, prev_face, next_face)),
        chained(closed_at(half_edges, hinge, vertex, pair, prev_face, next_face)),
        forall|e: HalfEdgeKey| #[trigger]
            half_edges.contains_key(e) ==> closed_at(
                half_edges,
                hinge,
                vertex,
                pair,
                prev_face,
                next_face,
            ).contains_key(e) && closed_at(half_edges, hinge, vertex, pair, prev_face, next_face)[e].twin
                == half_edges[e].twin && closed_at(
                half_edges,
                hinge,
                vertex,
                pair,
                prev_face,
                next_face,
            )[e].incident_face == half_edges[e].incident_face && (e != hinge.left && e
                != hinge.next_left ==> closed_at(
                half_edges,
                hinge,
                vertex,
                pair,
                prev_face,
                next_face,
            )[e].next == half_edges[e].next) && (e != hinge.right && e != hinge.prev_right
                ==> closed_at(half_edges, hinge, vertex, pair, prev_face, next_face)[e].prev
                == half_edges[e].prev),
        closed_at(half_edges, hinge, vertex, pair, prev_face, next_face).contains_key(pair.0),
        closed_at(half_edges, hinge, vertex, pair, prev_face, next_face).contains_key(pair.1),
        closed_at(half_edges, hinge, vertex, pair, prev_face, next_face)[pair.0] == (HalfEdge {
            origin: None,
            destination: Some(vertex),
            incident_face: Some(prev_face),
            twin: Some(pair.1),
            prev: None,
            next: Some(hinge.prev_right),
        }),
        closed_at(half_edges, hinge, vertex, pair, prev_face, next_face)[pair.1] == (HalfEdge {
            origin: Some(vertex),
            destination: None,
            incident_face: Some(next_face),
            twin: Some(pair.0),
            prev: Some(hinge.next_left),
            next: None,
        }),
{
    let after = closed_at(half_edges, hinge, vertex, pair, prev_face, next_face);
    assert forall|e: HalfEdgeKey| #[trigger] after.contains_key(e) implies match after[e].twin {
        Some(t) => t != e && after.contains_key(t) && after[t].twin == Some(e),
        None => true,
    } by {
        if e != pair.0 && e != pair.1 {
            assert(half_edges.contains_key(e));
        }
    }
    assert forall|e: HalfEdgeKey| #[trigger] after.contains_key(e) implies match after[e].next {
        Some(n) => after.contains_key(n) && after[n].prev == Some(e),
        None => true,
    } by {
        if e != pair.0 && e != pair.1 {
            assert(half_edges.contains_key(e));
            if half_edges[e].next.is_some() {
                let n = half_edges[e].next.unwrap();
                assert(half_edges.contains_key(n));
            }
        }
    }
}

proof fn lemma_removed_lined(
    order: Seq<NodeKey>,
    arcs: Map<NodeKey, Arc>,
    rank: int,
    pair: (HalfEdgeKey, HalfEdgeKey),
)
    requires
        lined(order, arcs),
        0 < rank < order.len() - 1,
    ensures
        lined(
            order.remove(rank),
            arc_removed(arcs, order[rank], order[rank - 1], order[rank + 1], pair),
        ),
{
    let line = order.remove(rank);
    let after = arc_removed(arcs, order[rank], order[rank - 1], order[rank + 1], pair);
    assert(order.contains(order[rank]) && order.contains(order[rank - 1]) && order.contains(
        order[rank + 1],
    ));
    assert forall|a: int, b: int| 0 <= a < line.len() && 0 <= b < line.len() && a != b implies line[a]
        != line[b] by {
        let x = if a < rank {
            a
        } else {
            a + 1
        };
        let y = if b < rank {
            b
        } else {
            b + 1
        };
        assert(line[a] == order[x] && line[b] == order[y]);
    }
    assert forall|node: NodeKey| after.contains_key(node) <==> line.contains(node) by {
        if after.contains_key(node) {
            assert(order.contains(node));
            let i = choose|i: int| 0 <= i < order.len() && order[i] == node;
            if i < rank {
                assert(line[i] == node);
            } else {
                assert(line[i - 1] == node);
            }
        }
        if line.contains(node) {
            let i = choose|i: int| 0 <= i < line.len() && line[i] == node;
            let x = if i < rank {
                i
            } else {
                i + 1
            };
            assert(order[x] == node);
            assert(order.contains(order[x]));
        }
    }
}

proof fn lemma_removed_seams(
    half_edges: Map<HalfEdgeKey, HalfEdge>,
    after_edges: Map<HalfEdgeKey, HalfEdge>,
    order: Seq<NodeKey>,
    arcs: Map<NodeKey, Arc>,
    rank: int,
    pair: (HalfEdgeKey, HalfEdgeKey),
)
    requires
        lined(order, arcs),
        seams_sound(half_edges, order, arcs),
        0 < rank < order.len() - 1,
        arcs[order[rank - 1]].face.is_some(),
        arcs[order[rank + 1]].face.is_some(),
        forall|e: HalfEdgeKey| #[trigger]
            half_edges.contains_key(e) ==> after_edges.contains_key(e) && after_edges[e].twin
                == half_edges[e].twin && after_edges[e].incident_face == half_edges[e].incident_face,
        after_edges.contains_key(pair.0),
        after_edges.contains_key(pair.1),
        after_edges[pair.0].twin == Some(pair.1),
        after_edges[pair.0].incident_face == arcs[order[rank - 1]].face,
        after_edges[pair.1].incident_face == arcs[order[rank + 1]].face,
    ensures
        seams_sound(
            after_edges,
            order.remove(rank),
            arc_removed(arcs, order[rank], order[rank - 1], order[rank + 1], pair),
        ),
{
    let line = order.remove(rank);
    let after = arc_removed(arcs, order[rank], order[rank - 1], order[rank + 1], pair);
    assert(order.contains(order[rank]) && order.contains(order[rank - 1]) && order.contains(
        order[rank + 1],
    ));
    assert(order[rank - 1] != order[rank] && order[rank + 1] != order[rank] && order[rank - 1]
        != order[rank + 1]);
    assert forall|i: int| 0 <= i < line.len() - 1 implies seamed(
        after_edges,
        after,
        #[trigger] line[i],
        line[i + 1],
    ) by {
        if i < rank - 1 {
            assert(seamed(half_edges, arcs, order[i], order[i + 1]));
            assert(order.contains(order[i]) && order.contains(order[i + 1]));
            assert(order[i] != order[rank] && order[i] != order[rank + 1]);
            assert(order[i + 1] != order[rank] && order[i + 1] != order[rank + 1]);
        } else if i >= rank {
            assert(seamed(half_edges, arcs, order[i + 1], order[i + 1 + 1]));
            assert(order.contains(order[i + 1]) && order.contains(order[i + 2]));
            assert(order[i + 1] != order[rank] && order[i + 1] != order[rank - 1]);
            assert(order[i + 2] != order[rank] && order[i + 2] != order[rank - 1]);
        }
    }
    assert(order.contains(order[0]) && order.contains(order[order.len() - 1]));
    assert(order[0] != order[rank] && order[order.len() - 1] != order[rank]);
    assert(order[0] != order[rank + 1] && order[order.len() - 1] != order[rank - 1]);
}

proof fn lemma_removed_open(
    half_edges: Map<HalfEdgeKey, HalfEdge>,
    after_edges: Map<HalfEdgeKey, HalfEdge>,
    order: Seq<NodeKey>,
    arcs: Map<NodeKey, Arc>,
    rank: int,
    pair: (HalfEdgeKey, HalfEdgeKey),
)
    requires
        lined(order, arcs),
        edges_open(half_edges, arcs),
        edges_apart(arcs),
        named_present(half_edges, arcs),
        0 < rank < order.len() - 1,
        arcs[order[rank]].left_half_edge.is_some(),
        arcs[order[rank]].right_half_edge.is_some(),
        arcs[order[rank - 1]].right_half_edge.is_some(),
        arcs[order[rank + 1]].left_half_edge.is_some(),
        !half_edges.contains_key(pair.0),
        !half_edges.contains_key(pair.1),
        forall|e: HalfEdgeKey| #[trigger]
            half_edges.contains_key(e) ==> (e != hinge_at(order, arcs, rank).left && e != hinge_at(
                order,
                arcs,
                rank,
            ).next_left ==> after_edges[e].next == half_edges[e].next) && (e != hinge_at(
                order,
                arcs,
                rank,
            ).right && e != hinge_at(order, arcs, rank).prev_right ==> after_edges[e].prev
                == half_edges[e].prev),
        after_edges[pair.0].prev.is_none(),
        after_edges[pair.1].next.is_none(),
    ensures
        edges_open(
            after_edges,
            arc_removed(arcs, order[rank], order[rank - 1], order[rank + 1], pair),
        ),
        edges_apart(arc_removed(arcs, order[rank], order[rank - 1], order[rank + 1], pair)),
{
    let arc = order[rank];
    let prev = order[rank - 1];
    let next = order[rank + 1];
    let after = arc_removed(arcs, arc, prev, next, pair);
    assert(order.contains(arc) && order.contains(prev) && order.contains(next));
    assert(prev != arc && next != arc && prev != next);
    let a = arcs[arc];
    let p = arcs[prev];
    let n = arcs[next];
    assert forall|node: NodeKey| #[trigger] after.contains_key(node) implies (match after[node].left_half_edge {
        Some(l) => after_edges[l].next.is_none(),
        None => true,
    }) && (match after[node].right_half_edge {
        Some(r) => after_edges[r].prev.is_none(),
        None => true,
    }) by {
        assert(arcs.contains_key(node));
        let x = arcs[node];
    }
    assert forall|x: NodeKey, y: NodeKey|
        #![trigger after[x], after[y]]
        after.contains_key(x) && after.contains_key(y) && x != y implies (
        after[x].left_half_edge.is_some() ==> after[x].left_half_edge != after[y].left_half_edge) && (
        after[x].right_half_edge.is_some() ==> after[x].right_half_edge
            != after[y].right_half_edge) by {
        assert(arcs.contains_key(x) && arcs.contains_key(y));
        let u = arcs[x];
        let w = arcs[y];
    }
}

/// The closing of the diagram behind an arc that has shrunk to a vertex keeps what holds
/// between two events.
pub proof fn lemma_closed_steady(
    half_edges: Map<HalfEdgeKey, HalfEdge>,
    order: Seq<NodeKey>,
    arcs: Map<NodeKey, Arc>,
    rank: int,
    vertex: VertexKey,
    pair: (HalfEdgeKey, HalfEdgeKey),
)
    requires
        steady_in(half_edges, order, arcs),
        0 < rank < order.len() - 1,
        arcs[order[rank - 1]].face.is_some(),
        arcs[order[rank + 1]].face.is_some(),
        !half_edges.contains_key(pair.0),
        !half_edges.contains_key(pair.1),
        pair.0 != pair.1,
    ensures
        steady_in(
            closed_at(
                half_edges,
                hinge_at(order, arcs, rank),
                vertex,
                pair,
                arcs[order[rank - 1]].face.unwrap(),
                arcs[order[rank + 1]].face.unwrap(),
            ),
            order.remove(rank),
            arc_removed(arcs, order[rank], order[rank - 1], order[rank + 1], pair),
        ),
{
    let hinge = hinge_at(order, arcs, rank);
    let prev_face = arcs[order[rank - 1]].face.unwrap();
    let next_face = arcs[order[rank + 1]].face.unwrap();
    let after_edges = closed_at(half_edges, hinge, vertex, pair, prev_face, next_face);
    lemma_hinged(half_edges, order, arcs, rank);
    lemma_named_present(half_edges, order, arcs);
    lemma_closed_edges(half_edges, hinge, vertex, pair, prev_face, next_face);
    lemma_removed_lined(order, arcs, rank, pair);
    lemma_removed_seams(half_edges, after_edges, order, arcs, rank, pair);
    lemma_removed_open(half_edges, after_edges, order, arcs, rank, pair);
}

/// The arcs with the edge `pair` noted between the arc `left` and the arc `right` behind
/// it.
pub open spec fn noted(
    arcs: Map<NodeKey, Arc>,
    left: NodeKey,
    right: NodeKey,
    pair: (HalfEdgeKey, HalfEdgeKey),
) -> Map<NodeKey, Arc> {
    let first = arcs.insert(left, Arc { right_half_edge: Some(pair.0), ..arcs[left] });
    first.insert(right, Arc { left_half_edge: Some(pair.1), ..first[right] })
}

/// A new arc at one end of the beachline, with a new edge between it and the arc that
/// was at that end, keeps what holds between two events.
pub proof fn lemma_join_end(
    half_edges: Map<HalfEdgeKey, HalfEdge>,
    order: Seq<NodeKey>,
    arcs: Map<NodeKey, Arc>,
    at_right: bool,
    node: NodeKey,
    face: FaceKey,
    pair: (HalfEdgeKey, HalfEdgeKey),
)
    requires
        steady_in(half_edges, order, arcs),
        order.len() > 0,
        !at_right ==> arcs[order[0]].face.is_some(),
        at_right ==> arcs[order[order.len() - 1]].face.is_some(),
        !arcs.contains_key(node),
        !half_edges.contains_key(pair.0),
        !half_edges.contains_key(pair.1),
        pair.0 != pair.1,
    ensures
        at_right ==> steady_in(
            with_edge(half_edges, pair, arcs[order[order.len() - 1]].face.unwrap(), face),
            order.insert(order.len() as int, node),
            noted(arcs.insert(node, Arc::fresh(face)), order[order.len() - 1], node, pair),
        ),
        !at_right ==> steady_in(
            with_edge(half_edges, pair, face, arcs[order[0]].face.unwrap()),
            order.insert(0, node),
            noted(arcs.insert(node, Arc::fresh(face)), node, order[0], pair),
        ),
{
    let last = order[order.len() - 1];
    let first = order[0];
    assert(order.contains(last) && order.contains(first));
    lemma_named_present(half_edges, order, arcs);
    if at_right {
        let edges = with_edge(half_edges, pair, arcs[last].face.unwrap(), face);
        let line = order.insert(order.len() as int, node);
        let after = noted(arcs.insert(node, Arc::fresh(face)), last, node, pair);
        lemma_edge_added(half_edges, pair, arcs[last].face.unwrap(), face);
        assert(after.dom() =~= arcs.dom().insert(node));
        lemma_end_lined(order, arcs, line, after, node, order.len() as int);
        assert forall|i: int| 0 <= i < line.len() - 1 implies seamed(
            edges,
            after,
            #[trigger] line[i],
            line[i + 1],
        ) by {
            if i < order.len() - 1 {
                assert(seamed(half_edges, arcs, order[i], order[i + 1]));
                assert(order.contains(order[i]) && order.contains(order[i + 1]));
            }
        }
        lemma_end_open(half_edges, edges, arcs, after, node, last, pair);
    } else {
        let edges = with_edge(half_edges, pair, face, arcs[first].face.unwrap());
        let line = order.insert(0, node);
        let after = noted(arcs.insert(node, Arc::fresh(face)), node, first, pair);
        lemma_edge_added(half_edges, pair, face, arcs[first].face.unwrap());
        assert(after.dom() =~= arcs.dom().insert(node));
        lemma_end_lined(order, arcs, line, after, node, 0);
        assert forall|i: int| 0 <= i < line.len() - 1 implies seamed(
            edges,
            after,
            #[trigger] line[i],
            line[i + 1],
        ) by {
            if i > 0 {
                assert(seamed(half_edges, arcs, order[i - 1], order[i - 1 + 1]));
                assert(order.contains(order[i - 1]) && order.contains(order[i]));
            }
        }
        lemma_end_open(half_edges, edges, arcs, after, node, first, pair);
    }
}

proof fn lemma_end_lined(
    order: Seq<NodeKey>,
    arcs: Map<NodeKey, Arc>,
    line: Seq<NodeKey>,
    after: Map<NodeKey, Arc>,
    node: NodeKey,
    place: int,
)
    requires
        lined(order, arcs),
        0 <= place <= order.len(),
        line == order.insert(place, node),
        after.dom() == arcs.dom().insert(node),
        !arcs.contains_key(node),
    ensures
        lined(line, after),
{
    assert forall|a: int, b: int| 0 <= a < line.len() && 0 <= b < line.len() && a != b implies line[a]
        != line[b] by {
        if a != place {
            assert(order.contains(line[a]));
        }
        if b != place {
            assert(order.contains(line[b]));
        }
    }
    assert forall|key: NodeKey| after.contains_key(key) <==> line.contains(key) by {
        if after.contains_key(key) {
            if key == node {
                assert(line[place] == key);
            } else {
                assert(arcs.dom().contains(key));
                assert(order.contains(key));
                let i = choose|i: int| 0 <= i < order.len() && order[i] == key;
                if i < place {
                    assert(line[i] == key);
                } else {
                    assert(line[i + 1] == key);
                }
            }
        }
        if line.contains(key) {
            let i = choose|i: int| 0 <= i < line.len() && line[i] == key;
            if i != place {
                assert(order.contains(line[i]));
                assert(arcs.dom().contains(key));
            }
            assert(after.dom().contains(key));
        }
    }
}

proof fn lemma_end_open(
    half_edges: Map<HalfEdgeKey, HalfEdge>,
    edges: Map<HalfEdgeKey, HalfEdge>,
    arcs: Map<NodeKey, Arc>,
    after: Map<NodeKey, Arc>,
    node: NodeKey,
    neighbour: NodeKey,
    pair: (HalfEdgeKey, HalfEdgeKey),
)
    requires
        edges_open(half_edges, arcs),
        edges_apart(arcs),
        named_present(half_edges, arcs),
        arcs.contains_key(neighbour),
        !arcs.contains_key(node),
        !half_edges.contains_key(pair.0),
        !half_edges.contains_key(pair.1),
        pair.0 != pair.1,
        after.dom() == arcs.dom().insert(node),
        forall|e: HalfEdgeKey| #[trigger] half_edges.contains_key(e) ==> edges[e] == half_edges[e],
        edges[pair.0].prev.is_none() && edges[pair.0].next.is_none(),
        edges[pair.1].prev.is_none() && edges[pair.1].next.is_none(),
        forall|key: NodeKey| #[trigger]
            arcs.contains_key(key) && key != neighbour ==> after[key].left_half_edge
                == arcs[key].left_half_edge && after[key].right_half_edge
                == arcs[key].right_half_edge,
        (after[neighbour].left_half_edge == arcs[neighbour].left_half_edge
            && after[neighbour].right_half_edge == Some(pair.0) && after[node].left_half_edge
            == Some(pair.1) && after[node].right_half_edge.is_none()) || (
        after[neighbour].right_half_edge == arcs[neighbour].right_half_edge
            && after[neighbour].left_half_edge == Some(pair.1) && after[node].right_half_edge
            == Some(pair.0) && after[node].left_half_edge.is_none()),
    ensures
        edges_open(edges, after),
        edges_apart(after),
{
    assert forall|key: NodeKey| #[trigger] after.contains_key(key) implies (match after[key].left_half_edge {
        Some(l) => edges[l].next.is_none(),
        None => true,
    }) && (match after[key].right_half_edge {
        Some(r) => edges[r].prev.is_none(),
        None => true,
    }) by {
        assert(after.dom().contains(key));
        if key != node {
            assert(arcs.contains_key(key));
        }
    }
    assert forall|x: NodeKey, y: NodeKey|
        #![trigger after[x], after[y]]
        after.contains_key(x) && after.contains_key(y) && x != y implies (
        after[x].left_half_edge.is_some() ==> after[x].left_half_edge != after[y].left_half_edge) && (
        after[x].right_half_edge.is_some() ==> after[x].right_half_edge
            != after[y].right_half_edge) by {
        assert(after.dom().contains(x) && after.dom().contains(y));
        if x != node {
            assert(arcs.contains_key(x));
        }
        if y != node {
            assert(arcs.contains_key(y));
        }
        if x != node && y != node {
            let u = arcs[x];
            let w = arcs[y];
        }
    }
}

/// The half edges without an edge that is still as it was made stay paired and linked.
pub proof fn lemma_edge_removed(half_edges: Map<HalfEdgeKey, HalfEdge>, pair: (HalfEdgeKey, HalfEdgeKey))
    requires
        twinned(half_edges),
        chained(half_edges),
        half_edges.contains_key(pair.0),
        half_edges.contains_key(pair.1),
        half_edges[pair.0].twin == Some(pair.1),
        is_bare(half_edges[pair.0]),
        is_bare(half_edges[pair.1]),
    ensures
        twinned(half_edges.remove(pair.0).remove(pair.1)),
        chained(half_edges.remove(pair.0).remove(pair.1)),
{
    let bare = half_edges.remove(pair.0).remove(pair.1);
    assert forall|e: HalfEdgeKey| #[trigger] bare.contains_key(e) implies match bare[e].twin {
        Some(t) => t != e && bare.contains_key(t) && bare[t].twin == Some(e),
        None => true,
    } by {
        assert(half_edges.contains_key(e));
        if half_edges[e].twin.is_some() {
            assert(half_edges.contains_key(half_edges[e].twin.unwrap()));
        }
    }
    assert forall|e: HalfEdgeKey| #[trigger] bare.contains_key(e) implies match bare[e].next {
        Some(n) => bare.contains_key(n) && bare[n].prev == Some(e),
        None => true,
    } by {
        assert(half_edges.contains_key(e));
        if half_edges[e].next.is_some() {
            assert(half_edges.contains_key(half_edges[e].next.unwrap()));
        }
    }
}

/// A new arc between two arcs that follow each other, with new edges to both in the place
/// of the edge between them, which was still as it was made, keeps what holds between two
/// events.
pub proof fn lemma_join_middle(
    half_edges: Map<HalfEdgeKey, HalfEdge>,
    order: Seq<NodeKey>,
    arcs: Map<NodeKey, Arc>,
    place: int,
    node: NodeKey,
    face: FaceKey,
    left_pair: (HalfEdgeKey, HalfEdgeKey),
    right_pair: (HalfEdgeKey, HalfEdgeKey),
)
    requires
        steady_in(half_edges, order, arcs),
        0 < place < order.len(),
        arcs[order[place - 1]].face.is_some(),
        arcs[order[place]].face.is_some(),
        !arcs.contains_key(node),
        is_bare(half_edges[arcs[order[place - 1]].right_half_edge.unwrap()]),
        is_bare(half_edges[arcs[order[place]].left_half_edge.unwrap()]),
        unshared(
            arcs,
            (
                arcs[order[place - 1]].right_half_edge.unwrap(),
                arcs[order[place]].left_half_edge.unwrap(),
            ),
        ),
        !bared(half_edges, order, arcs, place).contains_key(left_pair.0),
        !bared(half_edges, order, arcs, place).contains_key(left_pair.1),
        left_pair.0 != left_pair.1,
        right_pair.0 != right_pair.1,
        right_pair.0 != left_pair.0 && right_pair.0 != left_pair.1,
        right_pair.1 != left_pair.0 && right_pair.1 != left_pair.1,
        !bared(half_edges, order, arcs, place).contains_key(right_pair.0),
        !bared(half_edges, order, arcs, place).contains_key(right_pair.1),
    ensures
        steady_in(
            with_edge(
                with_edge(
                    bared(half_edges, order, arcs, place),
                    left_pair,
                    arcs[order[place - 1]].face.unwrap(),
                    face,
                ),
                right_pair,
                face,
                arcs[order[place]].face.unwrap(),
            ),
            order.insert(place, node),
            noted(
                noted(arcs.insert(node, Arc::fresh(face)), order[place - 1], node, left_pair),
                node,
                order[place],
                right_pair,
            ),
        ),
{
    let left = order[place - 1];
    let right = order[place];
    let bare = bared(half_edges, order, arcs, place);
    let half = with_edge(bare, left_pair, arcs[left].face.unwrap(), face);
    let edges = with_edge(half, right_pair, face, arcs[right].face.unwrap());
    let line = order.insert(place, node);
    let after = noted(
        noted(arcs.insert(node, Arc::fresh(face)), left, node, left_pair),
        node,
        right,
        right_pair,
    );
    assert(order.contains(left) && order.contains(right));
    assert(left != right);
    assert(seamed(half_edges, arcs, order[place - 1], order[place - 1 + 1]));
    lemma_named_present(half_edges, order, arcs);
    let old_pair = (arcs[left].right_half_edge.unwrap(), arcs[right].left_half_edge.unwrap());
    lemma_edge_removed(half_edges, old_pair);
    lemma_edge_added(bare, left_pair, arcs[left].face.unwrap(), face);
    lemma_edge_added(half, right_pair, face, arcs[right].face.unwrap());
    assert(after.dom() =~= arcs.dom().insert(node));
    lemma_end_lined(order, arcs, line, after, node, place);
    lemma_middle_seams(half_edges, edges, order, arcs, line, after, place, node);
    lemma_middle_open(half_edges, edges, order, arcs, after, place, node, left_pair, right_pair);
}

/// No arc has the first half edge of the pair on its left, nor the second on its right.
pub open spec fn unshared(arcs: Map<NodeKey, Arc>, pair: (HalfEdgeKey, HalfEdgeKey)) -> bool {
    forall|key: NodeKey| #[trigger]
        arcs.contains_key(key) ==> arcs[key].left_half_edge != Some(pair.0)
            && arcs[key].right_half_edge != Some(pair.1)
}

/// The half edges without the edge between the arc before `place` and the arc at it.
pub open spec fn bared(
    half_edges: Map<HalfEdgeKey, HalfEdge>,
    order: Seq<NodeKey>,
    arcs: Map<NodeKey, Arc>,
    place: int,
) -> Map<HalfEdgeKey, HalfEdge> {
    half_edges.remove(arcs[order[place - 1]].right_half_edge.unwrap()).remove(
        arcs[order[place]].left_half_edge.unwrap(),
    )
}

#[verifier::spinoff_prover]
#[verifier::rlimit(100)]
proof fn lemma_middle_seams(
    half_edges: Map<HalfEdgeKey, HalfEdge>,
    edges: Map<HalfEdgeKey, HalfEdge>,
    order: Seq<NodeKey>,
    arcs: Map<NodeKey, Arc>,
    line: Seq<NodeKey>,
    after: Map<NodeKey, Arc>,
    place: int,
    node: NodeKey,
)
    requires
        lined(order, arcs),
        seams_sound(half_edges, order, arcs),
        edges_apart(arcs),
        0 < place < order.len(),
        arcs[order[place - 1]].right_half_edge.is_some(),
        arcs[order[place]].left_half_edge.is_some(),
        unshared(
            arcs,
            (
                arcs[order[place - 1]].right_half_edge.unwrap(),
                arcs[order[place]].left_half_edge.unwrap(),
            ),
        ),
        line == order.insert(place, node),
        !arcs.contains_key(node),
        seamed(edges, after, order[place - 1], node),
        seamed(edges, after, node, order[place]),
        forall|e: HalfEdgeKey| #[trigger]
            half_edges.contains_key(e) && Some(e) != arcs[order[place - 1]].right_half_edge && Some(e)
                != arcs[order[place]].left_half_edge ==> edges.contains_key(e) && edges[e]
                == half_edges[e],
        forall|key: NodeKey| #[trigger]
            arcs.contains_key(key) ==> after[key].face == arcs[key].face && (key != order[place]
                ==> after[key].left_half_edge == arcs[key].left_half_edge) && (key != order[place
                - 1] ==> after[key].right_half_edge == arcs[key].right_half_edge),
    ensures
        seams_sound(edges, line, after),
{
    let left = order[place - 1];
    let right = order[place];
    assert(order.contains(left) && order.contains(right));
    assert forall|i: int| 0 <= i < line.len() - 1 implies seamed(
        edges,
        after,
        #[trigger] line[i],
        line[i + 1],
    ) by {
        if i < place - 1 {
            assert(seamed(half_edges, arcs, order[i], order[i + 1]));
            assert(order.contains(order[i]) && order.contains(order[i + 1]));
            assert(order[i] != left && order[i] != right && order[i + 1] != right);
            let x = arcs[order[i]];
            let y = arcs[order[i + 1]];
            let u = arcs[left];
            let w = arcs[right];
        } else if i > place {
            assert(seamed(half_edges, arcs, order[i - 1], order[i - 1 + 1]));
            assert(order.contains(order[i - 1]) && order.contains(order[i]));
            assert(order[i] != left && order[i] != right && order[i - 1] != left);
            let x = arcs[order[i - 1]];
            let y = arcs[order[i]];
            let u = arcs[left];
            let w = arcs[right];
        } else if i == place - 1 {
            assert(line[i] == left && line[i + 1] == node);
        } else {
            assert(line[i] == node && line[i + 1] == right);
        }
    }
    assert(order.contains(order[0]) && order.contains(order[order.len() - 1]));
    let f = arcs[order[0]];
    let g = arcs[order[order.len() - 1]];
}

proof fn lemma_middle_open(
    half_edges: Map<HalfEdgeKey, HalfEdge>,
    edges: Map<HalfEdgeKey, HalfEdge>,
    order: Seq<NodeKey>,
    arcs: Map<NodeKey, Arc>,
    after: Map<NodeKey, Arc>,
    place: int,
    node: NodeKey,
    left_pair: (HalfEdgeKey, HalfEdgeKey),
    right_pair: (HalfEdgeKey, HalfEdgeKey),
)
    requires
        lined(order, arcs),
        edges_open(half_edges, arcs),
        edges_apart(arcs),
        named_present(half_edges, arcs),
        0 < place < order.len(),
        !arcs.contains_key(node),
        after.dom() == arcs.dom().insert(node),
        arcs[order[place - 1]].right_half_edge.is_some(),
        arcs[order[place]].left_half_edge.is_some(),
        unshared(
            arcs,
            (
                arcs[order[place - 1]].right_half_edge.unwrap(),
                arcs[order[place]].left_half_edge.unwrap(),
            ),
        ),
        forall|e: HalfEdgeKey| #[trigger]
            half_edges.contains_key(e) && Some(e) != arcs[order[place - 1]].right_half_edge && Some(e)
                != arcs[order[place]].left_half_edge ==> edges.contains_key(e) && edges[e]
                == half_edges[e] && e != left_pair.0 && e != left_pair.1 && e != right_pair.0 && e
                != right_pair.1,
        left_pair.0 != right_pair.0,
        left_pair.1 != right_pair.1,
        edges[left_pair.0].prev.is_none(),
        edges[left_pair.1].next.is_none(),
        edges[right_pair.0].prev.is_none(),
        edges[right_pair.1].next.is_none(),
        after[node].left_half_edge == Some(left_pair.1),
        after[node].right_half_edge == Some(right_pair.0),
        after[order[place - 1]].right_half_edge == Some(left_pair.0),
        after[order[place]].left_half_edge == Some(right_pair.1),
        forall|key: NodeKey| #[trigger]
            arcs.contains_key(key) ==> (key != order[place] ==> after[key].left_half_edge
                == arcs[key].left_half_edge) && (key != order[place - 1]
                ==> after[key].right_half_edge == arcs[key].right_half_edge),
    ensures
        edges_open(edges, after),
        edges_apart(after),
{
    let left = order[place - 1];
    let right = order[place];
    assert(order.contains(left) && order.contains(right));
    let u = arcs[left];
    let w = arcs[right];
    assert forall|key: NodeKey| #[trigger] after.contains_key(key) implies (match after[key].left_half_edge {
        Some(l) => edges[l].next.is_none(),
        None => true,
    }) && (match after[key].right_half_edge {
        Some(r) => edges[r].prev.is_none(),
        None => true,
    }) by {
        assert(after.dom().contains(key));
        if key != node {
            assert(arcs.contains_key(key));
            let x = arcs[key];
            if key != right && x.left_half_edge.is_some() {
                assert(half_edges.contains_key(x.left_half_edge.unwrap()));
            }
            if key != left && x.right_half_edge.is_some() {
                assert(half_edges.contains_key(x.right_half_edge.unwrap()));
            }
        }
    }
    assert forall|x: NodeKey, y: NodeKey|
        #![trigger after[x], after[y]]
        after.contains_key(x) && after.contains_key(y) && x != y implies (
        after[x].left_half_edge.is_some() ==> after[x].left_half_edge != after[y].left_half_edge) && (
        after[x].right_half_edge.is_some() ==> after[x].right_half_edge
            != after[y].right_half_edge) by {
        assert(after.dom().contains(x) && after.dom().contains(y));
        if x != node {
            assert(arcs.contains_key(x));
            let p = arcs[x];
            if x != right && p.left_half_edge.is_some() {
                assert(half_edges.contains_key(p.left_half_edge.unwrap()));
            }
            if x != left && p.right_half_edge.is_some() {
                assert(half_edges.contains_key(p.right_half_edge.unwrap()));
            }
        }
        if y != node {
            assert(arcs.contains_key(y));
            let q = arcs[y];
            if y != right && q.left_half_edge.is_some() {
                assert(half_edges.contains_key(q.left_half_edge.unwrap()));
            }
            if y != left && q.right_half_edge.is_some() {
                assert(half_edges.contains_key(q.right_half_edge.unwrap()));
            }
        }
        if x != node && y != node {
            let p = arcs[x];
            let q = arcs[y];
        }
    }
}

} // verus!
