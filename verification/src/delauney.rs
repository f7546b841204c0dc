use vstd::prelude::*;
use crate::diagram::{Diagram, FaceKey, HalfEdgeKey};

verus! {

/// The face on the other side of a half edge: the face of its twin, where the half edge has
/// a twin in the diagram and the twin has a face.
pub open spec fn face_across(voronoi: &Diagram, half_edge: HalfEdgeKey) -> Option<FaceKey> {
    match voronoi.half_edges()[half_edge].twin {
        Some(twin) => if voronoi.half_edges().contains_key(twin) {
            voronoi.half_edges()[twin].incident_face
        } else {
            None
        },
        None => None,
    }
}

/// The faces across the first `n` half edges of `round`, in order, leaving out the half
/// edges that have no face across.
pub open spec fn faces_across(voronoi: &Diagram, round: Seq<HalfEdgeKey>, n: nat) -> Seq<FaceKey>
    decreases n,
{
    if n == 0 {
        Seq::empty()
    } else {
        let rest = faces_across(voronoi, round, (n - 1) as nat);
        match face_across(voronoi, round[n - 1]) {
            Some(face) => rest.push(face),
            None => rest,
        }
    }
}

/// The faces that share an edge with the face, in the order of the way round the face; a
/// face comes as often as it shares an edge. None for a face without a way round.
pub open spec fn neighbours_of(voronoi: &Diagram, face: FaceKey) -> Option<Seq<FaceKey>> {
    match voronoi.round_of(voronoi.faces()[face].outer_component.unwrap()) {
        Some(round) => Some(faces_across(voronoi, round, round.len())),
        None => None,
    }
}

/// Finds the faces that share an edge with the face: see `neighbours_of`.
pub fn get_adjacent_faces(voronoi: &Diagram, index: FaceKey) -> (r: Option<Vec<FaceKey>>)
    requires
        voronoi.wf(),
        voronoi.faces().contains_key(index),
        voronoi.faces()[index].outer_component.is_some(),
    ensures
        match r {
            Some(faces) => neighbours_of(voronoi, index) == Some(faces@),
            None => neighbours_of(voronoi, index).is_none(),
        },
{
    let start_edge = voronoi.get_face_outer_component(index).unwrap();
    let round = match voronoi.outer_edges(start_edge) {
        Some(round) => round,
        None => {
            return None;
        },
    };
    proof {
        let chosen = voronoi.round_of(start_edge).unwrap();
        assert(voronoi.is_round(start_edge, chosen));
    }
    let mut faces: Vec<FaceKey> = Vec::new();
    let mut i: usize = 0;
    while i < round.len()
        invariant
            voronoi.wf(),
            voronoi.is_round(start_edge, round@),
            i <= round@.len(),
            faces@ == faces_across(voronoi, round@, i as nat),
        decreases round@.len() - i,
    {
        match voronoi.get_half_edge_twin(round[i]) {
            Some(twin) => {
                if voronoi.has_half_edge(twin) {
                    match voronoi.get_half_edge_incident_face(twin) {
                        Some(face) => {
                            faces.push(face);
                        },
                        None => {},
                    }
                }
            },
            None => {},
        }
        i += 1;
    }
    Some(faces)
}

/// A cursor over the faces that share an edge with a face.
pub struct AdjacentFaceIterator {
    faces: Vec<FaceKey>,
    position: usize,
}

impl AdjacentFaceIterator {
    /// The faces that the cursor runs over.
    pub closed spec fn faces(&self) -> Seq<FaceKey> {
        self.faces@
    }

    /// The number of faces handed out so far.
    pub closed spec fn position(&self) -> nat {
        self.position as nat
    }

    /// The cursor is within its faces.
    pub closed spec fn wf(&self) -> bool {
        self.position <= self.faces@.len()
    }

    /// Hands out the next face, if one is left.
    pub fn next(&mut self) -> (r: Option<FaceKey>)
        requires
            old(self).wf(),
        ensures
            final(self).wf(),
            final(self).faces() == old(self).faces(),
            r.is_some() == (old(self).position() < old(self).faces().len()),
            r.is_some() ==> r.unwrap() == old(self).faces()[old(self).position() as int]
                && final(self).position() == old(self).position() + 1,
            r.is_none() ==> final(self).position() == old(self).position(),
    {
        if self.position < self.faces.len() {
            let face = self.faces[self.position];
            self.position += 1;
            Some(face)
        } else {
            None
        }
    }
}

/// A cursor over the faces that share an edge with the face, from the first on: see
/// `neighbours_of`. It runs over nothing for a face without a way round.
pub fn get_adjacent_face_iterator(voronoi: &Diagram, index: FaceKey) -> (r: AdjacentFaceIterator)
    requires
        voronoi.wf(),
        voronoi.faces().contains_key(index),
        voronoi.faces()[index].outer_component.is_some(),
    ensures
        r.wf(),
        r.position() == 0,
        r.faces() == (match neighbours_of(voronoi, index) {
            Some(faces) => faces,
            None => Seq::empty(),
        }),
{
    match get_adjacent_faces(voronoi, index) {
        Some(faces) => AdjacentFaceIterator { faces, position: 0 },
        None => AdjacentFaceIterator { faces: Vec::new(), position: 0 },
    }
}

/// The place of a key in a list, if it is in it: the first, where it is there more than
/// once.
pub fn place_of(list: &Vec<FaceKey>, key: FaceKey) -> (r: Option<usize>)
    ensures
        match r {
            Some(i) => i < list@.len() && list@[i as int] == key && forall|j: int|
                0 <= j < i ==> list@[j] != key,
            None => !list@.contains(key),
        },
{
    let mut i: usize = 0;
    while i < list.len()
        invariant
            i <= list@.len(),
            forall|j: int| 0 <= j < i ==> list@[j] != key,
        decreases list@.len() - i,
    {
        if list[i] == key {
            return Some(i);
        }
        i += 1;
    }
    None
}

/// The links of the graph whose nodes are the first `n` faces `faces` and that links a
/// face to each face that shares an edge with it: each link as the places of its two
/// faces in `faces`. Neighbours that are not among `faces` are left out.
pub open spec fn links_upto(voronoi: &Diagram, faces: Seq<FaceKey>, n: nat) -> Seq<(usize, usize)>
    decreases n,
{
    if n == 0 {
        Seq::empty()
    } else {
        let rest = links_upto(voronoi, faces, (n - 1) as nat);
        match neighbours_of(voronoi, faces[n - 1]) {
            Some(neighbours) => rest + links_from(faces, (n - 1) as usize, neighbours, neighbours.len()),
            None => rest,
        }
    }
}

/// The links from the face at place `from` to the first `n` of its neighbours.
pub open spec fn links_from(faces: Seq<FaceKey>, from: usize, neighbours: Seq<FaceKey>, n: nat) -> Seq<
    (usize, usize),
>
    decreases n,
{
    if n == 0 {
        Seq::empty()
    } else {
        let rest = links_from(faces, from, neighbours, (n - 1) as nat);
        if faces.contains(neighbours[n - 1]) {
            rest.push((from, faces.index_of(neighbours[n - 1]) as usize))
        } else {
            rest
        }
    }
}

/// The links of the dual graph of a diagram: its nodes are the faces, in the order in
/// which the diagram walks them, and each face is linked to every face that shares an
/// edge with it. Returns the links as pairs of places in that order: see `links_upto`.
pub fn get_delauney_links(voronoi: &Diagram) -> (r: Vec<(usize, usize)>)
    requires
        voronoi.wf(),
        voronoi.faces_bounded(),
    ensures
        r@ == links_upto(voronoi, voronoi.face_order(), voronoi.face_order().len()),
{
    let faces = voronoi.get_face_indices();
    let mut links: Vec<(usize, usize)> = Vec::new();
    let mut f: usize = 0;
    while f < faces.len()
        invariant
            voronoi.wf(),
            voronoi.faces_bounded(),
            faces@ == voronoi.face_order(),
            faces@.no_duplicates(),
            forall|k: FaceKey| faces@.contains(k) <==> voronoi.faces().contains_key(k),
            f <= faces@.len(),
            links@ == links_upto(voronoi, faces@, f as nat),
        decreases faces@.len() - f,
    {
        let face = faces[f];
        assert(faces@.contains(face));
        let ghost before = links@;
        match get_adjacent_faces(voronoi, face) {
            None => {},
            Some(neighbours) => {
                let mut i: usize = 0;
                while i < neighbours.len()
                    invariant
                        i <= neighbours@.len(),
                        f < faces@.len(),
                        faces@.no_duplicates(),
                        links@ == before + links_from(faces@, f, neighbours@, i as nat),
                    decreases neighbours@.len() - i,
                {
                    match place_of(&faces, neighbours[i]) {
                        Some(place) => {
                            proof {
                                faces@.index_of_first_ensures(neighbours@[i as int]);
                                assert(faces@.index_of(neighbours@[i as int]) == place) by {
                                    let found = faces@.index_of(neighbours@[i as int]);
                                    assert(faces@[found] == neighbours@[i as int]);
                                }
                            }
                            links.push((f, place));
                        },
                        None => {},
                    }
                    i += 1;
                }
            },
        }
        f += 1;
    }
    links
}

} // verus!
