use vstd::prelude::*;
use crate::diagram::{Diagram, Face, FaceKey, HalfEdge, HalfEdgeKey, Vertex, VertexKey};
use crate::error::BuildError;
use crate::pool::POOL_LIMIT;
use crate::scalar::{Point, Scalar};

verus! {

/// A side of the bounding box, or none.
#[derive(Clone, Copy, PartialEq, Eq, Structural, Debug)]
pub enum Side {
    Left,
    Right,
    Top,
    Bottom,
    Nowhere,
}

impl Side {
    /// The side that follows this one on the way round the box: left, bottom, right, top.
    pub open spec fn next_spec(self) -> Side {
        match self {
            Side::Left => Side::Bottom,
            Side::Top => Side::Left,
            Side::Right => Side::Top,
            Side::Bottom => Side::Right,
            Side::Nowhere => Side::Nowhere,
        }
    }

    /// The side is one of the four sides of a box.
    pub open spec fn is_edge(self) -> bool {
        self != Side::Nowhere
    }

    /// The number of steps of `next_spec` from `self` to `to`, for two sides of a box.
    pub open spec fn steps_to(self, to: Side) -> nat
        decreases self.rank_from(to),
    {
        if self == to || !self.is_edge() || !to.is_edge() {
            0
        } else {
            1 + self.next_spec().steps_to(to)
        }
    }

    /// The place of `self` in the round that ends at `to`: a measure for `steps_to`.
    pub open spec fn rank_from(self, to: Side) -> nat {
        if !self.is_edge() || !to.is_edge() {
            0
        } else {
            ((to.index() + 4 - self.index()) % 4) as nat
        }
    }

    /// The place of a side in the round left, bottom, right, top.
    pub open spec fn index(self) -> int {
        match self {
            Side::Left => 0,
            Side::Bottom => 1,
            Side::Right => 2,
            Side::Top => 3,
            Side::Nowhere => 4,
        }
    }

    pub fn next(self) -> (r: Side)
        ensures
            r == self.next_spec(),
    {
        match self {
            Side::Left => Side::Bottom,
            Side::Top => Side::Left,
            Side::Right => Side::Top,
            Side::Bottom => Side::Right,
            Side::Nowhere => Side::Nowhere,
        }
    }
}

/// Four steps round the box lead back to the start, and fewer do not.
pub proof fn lemma_side_round(side: Side)
    requires
        side.is_edge(),
    ensures
        side.next_spec().is_edge(),
        side.next_spec() != side,
        side.next_spec().next_spec() != side,
        side.next_spec().next_spec().next_spec() != side,
        side.next_spec().next_spec().next_spec().next_spec() == side,
{
}

/// From any side of a box every other side is reached in at most three steps.
pub proof fn lemma_steps_bounded(from: Side, to: Side)
    ensures
        from.steps_to(to) <= 3,
        from.is_edge() && to.is_edge() && from != to ==> from.steps_to(to) == 1
            + from.next_spec().steps_to(to),
{
    reveal_with_fuel(Side::steps_to, 5);
}

/// An axis-parallel box. `y` grows downwards: `top` is the smaller ordinate.
#[derive(Clone, Copy, PartialEq, Eq, Structural, Debug)]
pub struct BoundingBox {
    pub left: Scalar,
    pub right: Scalar,
    pub top: Scalar,
    pub bottom: Scalar,
}

impl BoundingBox {
    /// The point lies in the box, its boundary included.
    pub open spec fn contains_spec(self, point: Point) -> bool {
        &&& self.left.le_spec(point.x)
        &&& point.x.le_spec(self.right)
        &&& self.top.le_spec(point.y)
        &&& point.y.le_spec(self.bottom)
    }

    /// The two sides are distinct sides of a box that meet in a corner.
    pub open spec fn adjacent(side_1: Side, side_2: Side) -> bool {
        side_1.is_edge() && (side_1.next_spec() == side_2 || side_2.next_spec() == side_1)
    }

    /// The corner in which two adjacent sides meet.
    pub open spec fn corner_spec(self, side_1: Side, side_2: Side) -> Point {
        let x = if side_1 == Side::Left || side_2 == Side::Left {
            self.left
        } else {
            self.right
        };
        let y = if side_1 == Side::Top || side_2 == Side::Top {
            self.top
        } else {
            self.bottom
        };
        Point { x, y }
    }

    pub fn new(left: Scalar, right: Scalar, top: Scalar, bottom: Scalar) -> (r: BoundingBox)
        ensures
            r == (BoundingBox { left, right, top, bottom }),
    {
        BoundingBox { left, right, top, bottom }
    }

    /// The unit square, to which a finished diagram is clipped.
    pub fn unit() -> (r: BoundingBox)
        ensures
            r == (BoundingBox {
                left: Scalar { key: 0 },
                right: Scalar { key: crate::scalar::ONE_KEY },
                top: Scalar { key: 0 },
                bottom: Scalar { key: crate::scalar::ONE_KEY },
            }),
    {
        BoundingBox {
            left: Scalar::zero(),
            right: Scalar::one(),
            top: Scalar::zero(),
            bottom: Scalar::one(),
        }
    }

    pub fn contains(&self, point: &Point) -> (r: bool)
        ensures
            r == self.contains_spec(*point),
    {
        point.x.ge(&self.left) && point.x.le(&self.right) && point.y.ge(&self.top) && point.y.le(
            &self.bottom,
        )
    }

    pub fn get_corner(&self, side_1: Side, side_2: Side) -> (r: Point)
        requires
            Self::adjacent(side_1, side_2),
        ensures
            r == self.corner_spec(side_1, side_2),
    {
        match (side_1, side_2) {
            (Side::Top, Side::Left) | (Side::Left, Side::Top) => self.get_top_left(),
            (Side::Top, Side::Right) | (Side::Right, Side::Top) => self.get_top_right(),
            (Side::Bottom, Side::Left) | (Side::Left, Side::Bottom) => self.get_bottom_left(),
            _ => self.get_bottom_right(),
        }
    }

    pub fn get_top_left(&self) -> (r: Point)
        ensures
            r == (Point { x: self.left, y: self.top }),
    {
        Point::new(self.left, self.top)
    }

    pub fn get_top_right(&self) -> (r: Point)
        ensures
            r == (Point { x: self.right, y: self.top }),
    {
        Point::new(self.right, self.top)
    }

    pub fn get_bottom_left(&self) -> (r: Point)
        ensures
            r == (Point { x: self.left, y: self.bottom }),
    {
        Point::new(self.left, self.bottom)
    }

    pub fn get_bottom_right(&self) -> (r: Point)
        ensures
            r == (Point { x: self.right, y: self.bottom }),
    {
        Point::new(self.right, self.bottom)
    }

    /// The box grown, where needed, to hold the point.
    pub open spec fn grown_spec(self, point: Point) -> BoundingBox {
        BoundingBox {
            left: self.left.min_spec(point.x),
            right: self.right.max_spec(point.x),
            top: self.top.min_spec(point.y),
            bottom: self.bottom.max_spec(point.y),
        }
    }

    /// The box grown to hold every point of the sequence, taken in order.
    pub open spec fn hull_spec(self, points: Seq<Point>) -> BoundingBox
        decreases points.len(),
    {
        if points.len() == 0 {
            self
        } else {
            self.hull_spec(points.drop_last()).grown_spec(points.last())
        }
    }

    pub fn grown(&self, point: &Point) -> (r: BoundingBox)
        ensures
            r == self.grown_spec(*point),
    {
        BoundingBox {
            left: self.left.min(point.x),
            right: self.right.max(point.x),
            top: self.top.min(point.y),
            bottom: self.bottom.max(point.y),
        }
    }

    /// The smallest box that holds this one and the points.
    pub fn hull(&self, points: &Vec<Point>) -> (r: BoundingBox)
        ensures
            r == self.hull_spec(points@),
    {
        let mut bbox = *self;
        let mut i: usize = 0;
        while i < points.len()
            invariant
                i <= points.len(),
                bbox == self.hull_spec(points@.take(i as int)),
            decreases points.len() - i,
        {
            proof {
                assert(points@.take(i as int + 1).drop_last() == points@.take(i as int));
            }
            bbox = bbox.grown(&points[i]);
            i += 1;
        }
        proof {
            assert(points@.take(points.len() as int) == points@);
        }
        bbox
    }
}

/// The side that is reached from `side` by `i` steps round the box.
pub open spec fn side_after(side: Side, i: nat) -> Side
    decreases i,
{
    if i == 0 {
        side
    } else {
        side_after(side, (i - 1) as nat).next_spec()
    }
}

/// The half edge that the `i`-th new half edge of a walk along the box follows: the one
/// from which the walk set out, or the new one before it.
pub open spec fn wall_before(start_edge: HalfEdgeKey, walls: Seq<HalfEdgeKey>, i: int) -> HalfEdgeKey {
    if i == 0 {
        start_edge
    } else {
        walls[i - 1]
    }
}

/// The half edges after the first `i` corners of a walk along the box from `start_edge`:
/// for each corner a new half edge of the face, which follows the one before it, sets out
/// where that one ends, and ends at the vertex of the corner.
pub open spec fn walled(
    half_edges: Map<HalfEdgeKey, HalfEdge>,
    start_edge: HalfEdgeKey,
    face: FaceKey,
    walls: Seq<HalfEdgeKey>,
    corners: Seq<VertexKey>,
    i: nat,
) -> Map<HalfEdgeKey, HalfEdge>
    decreases i,
{
    if i == 0 {
        half_edges
    } else {
        let rest = walled(half_edges, start_edge, face, walls, corners, (i - 1) as nat);
        let before = wall_before(start_edge, walls, i - 1);
        let wall = walls[i - 1];
        let hung = Diagram::linked(rest.insert(wall, HalfEdge::fresh(face)), before, wall);
        hung.insert(
            wall,
            HalfEdge {
                origin: hung[before].destination,
                destination: Some(corners[i - 1]),
                ..hung[wall]
            },
        )
    }
}

/// The half edges after a walk along the box over `n` corners was closed: a last new half
/// edge follows the last one of the walk and is followed by `end_edge`; it sets out where
/// the one before it ends, and ends where `end_edge` sets out.
pub open spec fn wall_closed(
    half_edges: Map<HalfEdgeKey, HalfEdge>,
    start_edge: HalfEdgeKey,
    end_edge: HalfEdgeKey,
    face: FaceKey,
    walls: Seq<HalfEdgeKey>,
    corners: Seq<VertexKey>,
    n: nat,
) -> Map<HalfEdgeKey, HalfEdge> {
    let rest = walled(half_edges, start_edge, face, walls, corners, n);
    let before = wall_before(start_edge, walls, n as int);
    let wall = walls[n as int];
    let hung = Diagram::linked(
        Diagram::linked(rest.insert(wall, HalfEdge::fresh(face)), before, wall),
        wall,
        end_edge,
    );
    hung.insert(
        wall,
        HalfEdge {
            origin: hung[before].destination,
            destination: hung[end_edge].origin,
            ..hung[wall]
        },
    )
}

/// The vertices after the first `i` corners of a walk along the box that sets out on the
/// side `side`: a new vertex in each corner between a side and the next.
pub open spec fn cornered(
    vertices: Map<VertexKey, Vertex>,
    bbox: BoundingBox,
    side: Side,
    corners: Seq<VertexKey>,
    i: nat,
) -> Map<VertexKey, Vertex>
    decreases i,
{
    if i == 0 {
        vertices
    } else {
        cornered(vertices, bbox, side, corners, (i - 1) as nat).insert(
            corners[i - 1],
            Vertex {
                point: bbox.corner_spec(
                    side_after(side, (i - 1) as nat),
                    side_after(side, i),
                ),
            },
        )
    }
}

/// The keys are new to the map and differ from each other.
pub open spec fn all_new<K, V>(map: Map<K, V>, keys: Seq<K>) -> bool {
    &&& keys.no_duplicates()
    &&& forall|i: int| 0 <= i < keys.len() ==> !map.contains_key(#[trigger] keys[i])
}

impl BoundingBox {
    /// The diagram `after` is `before` with the border of a face closed along the box, from
    /// the half edge `start_edge`, which leaves the box on the side `start_side`, to the
    /// half edge `end_edge`, which comes in on the side `end_side`, by the new half edges
    /// `walls` through the new vertices `corners`.
    pub open spec fn border_closed(
        self,
        before: &Diagram,
        after: &Diagram,
        start: (HalfEdgeKey, Side),
        end: (HalfEdgeKey, Side),
        walls: Seq<HalfEdgeKey>,
        corners: Seq<VertexKey>,
    ) -> bool {
        let face = before.half_edges()[start.0].incident_face.unwrap();
        let n = start.1.steps_to(end.1);
        &&& walls.len() == n + 1
        &&& corners.len() == n
        &&& all_new(before.half_edges(), walls)
        &&& all_new(before.vertices(), corners)
        &&& after.half_edges() == wall_closed(
            before.half_edges(),
            start.0,
            end.0,
            face,
            walls,
            corners,
            n,
        )
        &&& after.vertices() == cornered(before.vertices(), self, start.1, corners, n)
        &&& after.faces() == Diagram::faces_with(before.faces(), face, walls[0])
    }

    /// Closes the border of a face along the box.
    ///
    /// `start_edge` leaves the box on the side `start_side` and `end_edge` comes in on
    /// the side `end_side`. From the one to the other the box is walked side after side;
    /// each corner on the way gets a vertex, and new half edges of the face of
    /// `start_edge` run from the end of `start_edge` through those vertices to the origin
    /// of `end_edge`: see `border_closed`.
    pub fn link_vertices(
        &self,
        voronoi: &mut Diagram,
        start_edge: HalfEdgeKey,
        start_side: Side,
        end_edge: HalfEdgeKey,
        end_side: Side,
    )
        requires
            old(voronoi).wf(),
            old(voronoi).half_edges().contains_key(start_edge),
            old(voronoi).half_edges().contains_key(end_edge),
            old(voronoi).half_edges()[start_edge].incident_face.is_some(),
            old(voronoi).faces().contains_key(
                old(voronoi).half_edges()[start_edge].incident_face.unwrap(),
            ),
            start_side.is_edge(),
            end_side.is_edge(),
            old(voronoi).half_edge_total() + 4 <= POOL_LIMIT,
            old(voronoi).vertex_total() + 3 <= POOL_LIMIT,
        ensures
            final(voronoi).grown(old(voronoi)),
            final(voronoi).ends_held(old(voronoi)),
            exists|walls: Seq<HalfEdgeKey>, corners: Seq<VertexKey>| #[trigger]
                self.border_closed(
                    old(voronoi),
                    final(voronoi),
                    (start_edge, start_side),
                    (end_edge, end_side),
                    walls,
                    corners,
                ),
            final(voronoi).half_edge_total() == old(voronoi).half_edge_total()
                + start_side.steps_to(end_side) + 1,
            final(voronoi).vertex_total() == old(voronoi).vertex_total() + start_side.steps_to(
                end_side,
            ),
    {
        let mut edge = start_edge;
        let mut side = start_side;
        let incident_face = voronoi.get_half_edge_incident_face(edge).unwrap();
        let ghost mut walls: Seq<HalfEdgeKey> = Seq::empty();
        let ghost mut corners: Seq<VertexKey> = Seq::empty();
        let ghost n = start_side.steps_to(end_side);
        let mut count: usize = 0;
        proof {
            lemma_steps_bounded(start_side, end_side);
            old(voronoi).lemma_finite();
        }
        while side != end_side
            invariant
                voronoi.wf(),
                start_side.is_edge(),
                end_side.is_edge(),
                side.is_edge(),
                count <= n <= 3,
                n == start_side.steps_to(end_side),
                side == side_after(start_side, count as nat),
                side.steps_to(end_side) == n - count,
                walls.len() == count,
                corners.len() == count,
                all_new(old(voronoi).half_edges(), walls),
                all_new(old(voronoi).vertices(), corners),
                forall|j: int| 0 <= j < walls.len() ==> voronoi.half_edges().contains_key(#[trigger] walls[j]),
                forall|j: int| 0 <= j < corners.len() ==> voronoi.vertices().contains_key(#[trigger] corners[j]),
                edge == wall_before(start_edge, walls, count as int),
                voronoi.half_edges().contains_key(edge),
                voronoi.half_edges().contains_key(end_edge),
                voronoi.half_edges().contains_key(start_edge),
                voronoi.faces().contains_key(incident_face),
                Some(incident_face) == old(voronoi).half_edges()[start_edge].incident_face,
                voronoi.half_edges() == walled(
                    old(voronoi).half_edges(),
                    start_edge,
                    incident_face,
                    walls,
                    corners,
                    count as nat,
                ),
                voronoi.vertices() == cornered(
                    old(voronoi).vertices(),
                    *self,
                    start_side,
                    corners,
                    count as nat,
                ),
                voronoi.faces() == (if count == 0 {
                    old(voronoi).faces()
                } else {
                    Diagram::faces_with(old(voronoi).faces(), incident_face, walls[0])
                }),
                voronoi.grown(old(voronoi)),
                voronoi.ends_held(old(voronoi)),
                voronoi.half_edge_total() == old(voronoi).half_edge_total() + count,
                voronoi.vertex_total() == old(voronoi).vertex_total() + count,
                old(voronoi).half_edge_total() + 4 <= POOL_LIMIT,
                old(voronoi).vertex_total() + 3 <= POOL_LIMIT,
            decreases n - count,
        {
            proof {
                lemma_steps_bounded(side, end_side);
                lemma_side_round(side);
            }
            let ghost before_edges = voronoi.half_edges();
            let ghost before_vertices = voronoi.vertices();
            let ghost before_loop = *voronoi;
            let new_edge = voronoi.add_half_edge(incident_face);
            voronoi.link_half_edges(edge, new_edge);
            let destination_of_edge = voronoi.get_half_edge_destination(edge);
            voronoi.set_half_edge_origin(new_edge, destination_of_edge);
            let destination = voronoi.add_vertex(self.get_corner(side, side.next()));
            voronoi.set_half_edge_destination(new_edge, Some(destination));
            proof {
                let old_walls = walls;
                let old_corners = corners;
                walls = walls.push(new_edge);
                corners = corners.push(destination);
                lemma_walled_extends(
                    old(voronoi).half_edges(),
                    start_edge,
                    incident_face,
                    old_walls,
                    walls,
                    old_corners,
                    corners,
                    count as nat,
                );
                lemma_cornered_extends(
                    old(voronoi).vertices(),
                    *self,
                    start_side,
                    old_corners,
                    corners,
                    count as nat,
                );
                assert(voronoi.half_edges() =~= walled(
                    old(voronoi).half_edges(),
                    start_edge,
                    incident_face,
                    walls,
                    corners,
                    (count + 1) as nat,
                ));
                assert(voronoi.half_edges().dom() =~= before_edges.dom().insert(new_edge));
                assert(voronoi.vertices().dom() =~= before_vertices.dom().insert(destination));
                voronoi.lemma_finite();
                assert(voronoi.faces().dom() =~= before_loop.faces().dom());
                assert(voronoi.grown(&before_loop));
                voronoi.lemma_grown_trans(&before_loop, old(voronoi));
                assert(voronoi.ends_held(&before_loop));
                voronoi.lemma_ends_held_trans(&before_loop, old(voronoi));
            }
            side = side.next();
            edge = new_edge;
            count += 1;
        }
        let ghost before_edges = voronoi.half_edges();
        let ghost before_last = *voronoi;
        let new_edge = voronoi.add_half_edge(incident_face);
        voronoi.link_half_edges(edge, new_edge);
        voronoi.link_half_edges(new_edge, end_edge);
        let destination_of_edge = voronoi.get_half_edge_destination(edge);
        voronoi.set_half_edge_origin(new_edge, destination_of_edge);
        let origin_of_end = voronoi.get_half_edge_origin(end_edge);
        voronoi.set_half_edge_destination(new_edge, origin_of_end);
        proof {
            let old_walls = walls;
            walls = walls.push(new_edge);
            lemma_walled_extends(
                old(voronoi).half_edges(),
                start_edge,
                incident_face,
                old_walls,
                walls,
                corners,
                corners,
                count as nat,
            );
            assert(voronoi.half_edges() =~= wall_closed(
                old(voronoi).half_edges(),
                start_edge,
                end_edge,
                incident_face,
                walls,
                corners,
                n,
            ));
            assert(voronoi.half_edges().dom() =~= before_edges.dom().insert(new_edge));
            assert(voronoi.faces().dom() =~= before_last.faces().dom());
            assert(voronoi.grown(&before_last));
            voronoi.lemma_grown_trans(&before_last, old(voronoi));
            assert(voronoi.ends_held(&before_last));
            voronoi.lemma_ends_held_trans(&before_last, old(voronoi));
            assert(self.border_closed(
                old(voronoi),
                voronoi,
                (start_edge, start_side),
                (end_edge, end_side),
                walls,
                corners,
            ));
        }
    }
}

/// Where the walk round a face stands while the face is clipped: the half edge on which
/// the border has left the box without coming in since, and the one on which it came in
/// before it ever left, each with the side of the box.
#[derive(Clone, Copy, Debug)]
pub struct Crossing {
    pub outgoing_half_edge: Option<HalfEdgeKey>,
    pub outgoing_side: Side,
    pub incoming_half_edge: Option<HalfEdgeKey>,
    pub incoming_side: Side,
}

/// What a clipping pass has noted down so far: the half edges of which an end was moved
/// to the box, and the vertices and half edges that are to leave the diagram.
pub struct Marks {
    pub processed_half_edges: Vec<HalfEdgeKey>,
    pub vertices_to_remove: Vec<VertexKey>,
    pub half_edges_to_remove: Vec<HalfEdgeKey>,
}

/// Whether the key is in the list.
pub fn is_listed(list: &Vec<HalfEdgeKey>, key: HalfEdgeKey) -> (r: bool)
    ensures
        r == list@.contains(key),
{
    let mut i: usize = 0;
    while i < list.len()
        invariant
            i <= list@.len(),
            forall|j: int| 0 <= j < i ==> list@[j] != key,
        decreases list@.len() - i,
    {
        if list[i] == key {
            return true;
        }
        i += 1;
    }
    false
}

impl BoundingBox {
    /// Closes the border of a face between two half edges as `link_vertices` does, where
    /// that can be done: both half edges are in the diagram, the first has a face of the
    /// diagram, both sides are sides of a box, and the pools have room.
    pub fn try_link(
        &self,
        voronoi: &mut Diagram,
        start_edge: HalfEdgeKey,
        start_side: Side,
        end_edge: HalfEdgeKey,
        end_side: Side,
    ) -> (r: Result<(), BuildError>)
        requires
            old(voronoi).wf(),
        ensures
            final(voronoi).grown(old(voronoi)),
            final(voronoi).ends_held(old(voronoi)),
            r.is_ok() == Self::can_link(old(voronoi), start_edge, start_side, end_edge, end_side),
            r.is_ok() ==> exists|walls: Seq<HalfEdgeKey>, corners: Seq<VertexKey>| #[trigger]
                self.border_closed(
                    old(voronoi),
                    final(voronoi),
                    (start_edge, start_side),
                    (end_edge, end_side),
                    walls,
                    corners,
                ),
            r.is_err() ==> r == Err::<(), BuildError>(BuildError::GeometryInvariant)
                && final(voronoi).faces() == old(voronoi).faces() && final(voronoi).vertices() == old(voronoi).vertices() && final(voronoi).half_edges() == old(voronoi).half_edges(),
    {
        if start_side == Side::Nowhere || end_side == Side::Nowhere {
            return Err(BuildError::GeometryInvariant);
        }
        if !voronoi.has_half_edge(start_edge) || !voronoi.has_half_edge(end_edge) {
            return Err(BuildError::GeometryInvariant);
        }
        match voronoi.get_half_edge_incident_face(start_edge) {
            Some(face) => {
                if !voronoi.has_face(face) {
                    return Err(BuildError::GeometryInvariant);
                }
            },
            None => {
                return Err(BuildError::GeometryInvariant);
            },
        }
        if voronoi.half_edge_count() > POOL_LIMIT - 4 || voronoi.vertex_count() > POOL_LIMIT - 3 {
            return Err(BuildError::GeometryInvariant);
        }
        self.link_vertices(voronoi, start_edge, start_side, end_edge, end_side);
        Ok(())
    }

    /// The border of a face can be closed between the two half edges: see `try_link`.
    pub open spec fn can_link(
        voronoi: &Diagram,
        start_edge: HalfEdgeKey,
        start_side: Side,
        end_edge: HalfEdgeKey,
        end_side: Side,
    ) -> bool {
        &&& start_side.is_edge()
        &&& end_side.is_edge()
        &&& voronoi.half_edges().contains_key(start_edge)
        &&& voronoi.half_edges().contains_key(end_edge)
        &&& voronoi.half_edges()[start_edge].incident_face.is_some()
        &&& voronoi.faces().contains_key(voronoi.half_edges()[start_edge].incident_face.unwrap())
        &&& voronoi.half_edge_total() + 4 <= POOL_LIMIT
        &&& voronoi.vertex_total() + 3 <= POOL_LIMIT
    }

    /// The half edge with one of its ends at `end`.
    pub open spec fn with_end(own: HalfEdge, at_origin: bool, end: Option<VertexKey>) -> HalfEdge {
        if at_origin {
            HalfEdge { origin: end, ..own }
        } else {
            HalfEdge { destination: end, ..own }
        }
    }

    /// An end of the half edge can be moved: its twin, where that was clipped before, is
    /// in the diagram; else the pool of vertices has room for `room` more.
    pub open spec fn can_move(voronoi: &Diagram, half_edge: HalfEdgeKey, processed: Seq<HalfEdgeKey>, room: nat) -> bool {
        let twin = voronoi.half_edges()[half_edge].twin;
        if twin.is_some() && processed.contains(twin.unwrap()) {
            voronoi.half_edges().contains_key(twin.unwrap())
        } else {
            voronoi.vertex_total() + room <= POOL_LIMIT
        }
    }

    /// `after` is `before` with a new vertex `vertex` at `hit` as one end of the half edge.
    pub open spec fn end_set(
        before: &Diagram,
        after: &Diagram,
        half_edge: HalfEdgeKey,
        at_origin: bool,
        hit: Point,
        vertex: VertexKey,
    ) -> bool {
        &&& !before.vertices().contains_key(vertex)
        &&& after.vertices() == before.vertices().insert(vertex, Vertex { point: hit })
        &&& after.half_edges() == before.half_edges().insert(
            half_edge,
            Self::with_end(before.half_edges()[half_edge], at_origin, Some(vertex)),
        )
    }

    /// What `move_end` leaves where it succeeds: the end is the one that the twin has at
    /// the crossing, where the twin was clipped before, and else a new vertex at `hit`.
    pub open spec fn end_moved(
        before: &Diagram,
        after: &Diagram,
        half_edge: HalfEdgeKey,
        at_origin: bool,
        hit: Point,
        processed: Seq<HalfEdgeKey>,
    ) -> bool {
        let own = before.half_edges()[half_edge];
        &&& after.wf()
        &&& after.faces() == before.faces()
        &&& if own.twin.is_some() && processed.contains(own.twin.unwrap()) {
            let other = before.half_edges()[own.twin.unwrap()];
            &&& after.vertices() == before.vertices()
            &&& after.half_edges() == before.half_edges().insert(
                half_edge,
                Self::with_end(
                    own,
                    at_origin,
                    if at_origin {
                        other.destination
                    } else {
                        other.origin
                    },
                ),
            )
        } else {
            exists|vertex: VertexKey| #[trigger]
                Self::end_set(before, after, half_edge, at_origin, hit, vertex)
        }
    }

    /// The diagrams have the same faces, vertices and half edges.
    pub open spec fn same_parts(before: &Diagram, after: &Diagram) -> bool {
        &&& after.faces() == before.faces()
        &&& after.vertices() == before.vertices()
        &&& after.half_edges() == before.half_edges()
    }

    /// Moves an end of a half edge that crosses the box to the point `hit` at which it
    /// does: to the end that its twin has there, where the twin was clipped before, and
    /// else to a new vertex at `hit`. `at_origin` says which end it is. Fails with
    /// `GeometryInvariant`, and changes nothing, where that cannot be done: see `can_move`.
    pub fn move_end(
        voronoi: &mut Diagram,
        half_edge: HalfEdgeKey,
        at_origin: bool,
        hit: Point,
        processed: &Vec<HalfEdgeKey>,
    ) -> (r: Result<(), BuildError>)
        requires
            old(voronoi).wf(),
            old(voronoi).half_edges().contains_key(half_edge),
        ensures
            final(voronoi).grown(old(voronoi)),
            final(voronoi).faces() == old(voronoi).faces(),
            r.is_ok() == Self::can_move(old(voronoi), half_edge, processed@, 1),
            r.is_ok() ==> Self::end_moved(
                old(voronoi),
                final(voronoi),
                half_edge,
                at_origin,
                hit,
                processed@,
            ),
            r.is_err() ==> r == Err::<(), BuildError>(BuildError::GeometryInvariant) && Self::same_parts(
                old(voronoi),
                final(voronoi),
            ),
    {
        let half_edge_twin = voronoi.get_half_edge_twin(half_edge);
        let ghost before = *voronoi;
        proof {
            before.lemma_finite();
        }
        if half_edge_twin.is_some() && is_listed(processed, half_edge_twin.unwrap()) {
            let twin = half_edge_twin.unwrap();
            if !voronoi.has_half_edge(twin) {
                return Err(BuildError::GeometryInvariant);
            }
            if at_origin {
                let end = voronoi.get_half_edge_destination(twin);
                voronoi.set_half_edge_origin(half_edge, end);
            } else {
                let end = voronoi.get_half_edge_origin(twin);
                voronoi.set_half_edge_destination(half_edge, end);
            }
        } else {
            if voronoi.vertex_count() >= POOL_LIMIT {
                return Err(BuildError::GeometryInvariant);
            }
            let vertex = voronoi.add_vertex(hit);
            if at_origin {
                voronoi.set_half_edge_origin(half_edge, Some(vertex));
            } else {
                voronoi.set_half_edge_destination(half_edge, Some(vertex));
            }
            proof {
                assert(Self::end_set(&before, voronoi, half_edge, at_origin, hit, vertex));
            }
        }
        proof {
            assert(voronoi.half_edges().dom() =~= before.half_edges().dom());
        }
        Ok(())
    }

    /// The crossing once the border has come in on `half_edge`: where it had left the box
    /// before, that is settled; else the half edge is the one on which it first came in.
    pub open spec fn come_in_spec(was: Crossing, half_edge: HalfEdgeKey, side: Side) -> Crossing {
        if was.outgoing_half_edge.is_some() {
            Crossing { outgoing_half_edge: None, ..was }
        } else {
            Crossing { incoming_half_edge: Some(half_edge), incoming_side: side, ..was }
        }
    }

    /// The border can come in on `half_edge`: where it had left the box before, it can be
    /// closed from there to here; else it has not come in before.
    pub open spec fn can_come_in(voronoi: &Diagram, was: Crossing, half_edge: HalfEdgeKey, side: Side) -> bool {
        if was.outgoing_half_edge.is_some() {
            Self::can_link(voronoi, was.outgoing_half_edge.unwrap(), was.outgoing_side, half_edge, side)
        } else {
            was.incoming_half_edge.is_none()
        }
    }

    /// What `come_in` leaves of the diagram where it succeeds.
    pub open spec fn came_in(
        self,
        before: &Diagram,
        after: &Diagram,
        was: Crossing,
        half_edge: HalfEdgeKey,
        side: Side,
    ) -> bool {
        if was.outgoing_half_edge.is_some() {
            exists|walls: Seq<HalfEdgeKey>, corners: Seq<VertexKey>| #[trigger]
                self.border_closed(
                    before,
                    after,
                    (was.outgoing_half_edge.unwrap(), was.outgoing_side),
                    (half_edge, side),
                    walls,
                    corners,
                )
        } else {
            Self::same_parts(before, after)
        }
    }

    /// Notes that the border of a face comes into the box on the half edge `half_edge`, on
    /// the side `side`. Where the border has left the box before and has not come in
    /// since, it is closed along the box from there to here; else the half edge is kept
    /// as the one on which the border first came in. Fails with `GeometryInvariant`, and
    /// changes nothing, where the border has come in before without leaving since, and as
    /// `try_link` does.
    pub fn come_in(
        &self,
        voronoi: &mut Diagram,
        half_edge: HalfEdgeKey,
        side: Side,
        crossing: &mut Crossing,
    ) -> (r: Result<(), BuildError>)
        requires
            old(voronoi).wf(),
        ensures
            final(voronoi).grown(old(voronoi)),
            r.is_ok() == Self::can_come_in(old(voronoi), *old(crossing), half_edge, side),
            r.is_ok() ==> *final(crossing) == Self::come_in_spec(*old(crossing), half_edge, side)
                && self.came_in(old(voronoi), final(voronoi), *old(crossing), half_edge, side),
            r.is_err() ==> r == Err::<(), BuildError>(BuildError::GeometryInvariant) && *final(crossing)
                == *old(crossing) && Self::same_parts(old(voronoi), final(voronoi)),
    {
        if crossing.outgoing_half_edge.is_some() {
            let linked = self.try_link(
                voronoi,
                crossing.outgoing_half_edge.unwrap(),
                crossing.outgoing_side,
                half_edge,
                side,
            );
            if linked.is_err() {
                return linked;
            }
            crossing.outgoing_half_edge = None;
            Ok(())
        } else if crossing.incoming_half_edge.is_none() {
            crossing.incoming_half_edge = Some(half_edge);
            crossing.incoming_side = side;
            Ok(())
        } else {
            Err(BuildError::GeometryInvariant)
        }
    }

    /// Notes that the border of a face leaves the box on the half edge `half_edge`, on the
    /// side `side`. Fails with `GeometryInvariant` where the border has left the box before
    /// without coming in since.
    pub fn go_out(half_edge: HalfEdgeKey, side: Side, crossing: &mut Crossing) -> (r: Result<
        (),
        BuildError,
    >)
        ensures
            r.is_ok() == old(crossing).outgoing_half_edge.is_none(),
            r.is_err() ==> r == Err::<(), BuildError>(BuildError::GeometryInvariant) && *final(crossing)
                == *old(crossing),
            r.is_ok() ==> *final(crossing) == (Crossing {
                outgoing_half_edge: Some(half_edge),
                outgoing_side: side,
                ..*old(crossing)
            }),
    {
        if crossing.outgoing_half_edge.is_some() {
            return Err(BuildError::GeometryInvariant);
        }
        crossing.outgoing_half_edge = Some(half_edge);
        crossing.outgoing_side = side;
        Ok(())
    }

    /// The crossing once the border has left the box on `half_edge`.
    pub open spec fn go_out_spec(was: Crossing, half_edge: HalfEdgeKey, side: Side) -> Crossing {
        Crossing { outgoing_half_edge: Some(half_edge), outgoing_side: side, ..was }
    }

    /// The number of vertices that moving `ends` ends of the half edge adds: none where its
    /// twin was clipped before.
    pub open spec fn added_by(voronoi: &Diagram, half_edge: HalfEdgeKey, processed: Seq<HalfEdgeKey>, ends: nat) -> nat {
        let twin = voronoi.half_edges()[half_edge].twin;
        if twin.is_some() && processed.contains(twin.unwrap()) {
            0
        } else {
            ends
        }
    }

    /// The border can come in on `half_edge` once `added` vertices more are in the
    /// diagram: see `can_come_in`.
    pub open spec fn can_come_in_after(
        voronoi: &Diagram,
        was: Crossing,
        half_edge: HalfEdgeKey,
        side: Side,
        added: nat,
    ) -> bool {
        if was.outgoing_half_edge.is_some() {
            let out = was.outgoing_half_edge.unwrap();
            &&& was.outgoing_side.is_edge()
            &&& side.is_edge()
            &&& voronoi.half_edges().contains_key(out)
            &&& voronoi.half_edges().contains_key(half_edge)
            &&& voronoi.half_edges()[out].incident_face.is_some()
            &&& voronoi.faces().contains_key(voronoi.half_edges()[out].incident_face.unwrap())
            &&& voronoi.half_edge_total() + 4 <= POOL_LIMIT
            &&& voronoi.vertex_total() + added + 3 <= POOL_LIMIT
        } else {
            was.incoming_half_edge.is_none()
        }
    }

    /// `after` is `before` with two new vertices `a` at `first` and `b` at `second` as the
    /// ends of the half edge.
    pub open spec fn ends_set(
        before: &Diagram,
        after: &Diagram,
        half_edge: HalfEdgeKey,
        first: Point,
        second: Point,
        a: VertexKey,
        b: VertexKey,
    ) -> bool {
        &&& !before.vertices().contains_key(a)
        &&& !before.vertices().contains_key(b)
        &&& a != b
        &&& after.vertices() == before.vertices().insert(a, Vertex { point: first }).insert(
            b,
            Vertex { point: second },
        )
        &&& after.half_edges() == before.half_edges().insert(
            half_edge,
            HalfEdge { origin: Some(a), destination: Some(b), ..before.half_edges()[half_edge] },
        )
    }

    /// Both ends of a half edge that crosses the box twice are at the crossings: they are
    /// the ends of the twin, turned round, where the twin was clipped before, and else two
    /// new vertices at `first` and `second`.
    pub open spec fn ends_moved(
        before: &Diagram,
        after: &Diagram,
        half_edge: HalfEdgeKey,
        first: Point,
        second: Point,
        processed: Seq<HalfEdgeKey>,
    ) -> bool {
        let own = before.half_edges()[half_edge];
        &&& after.wf()
        &&& after.faces() == before.faces()
        &&& if own.twin.is_some() && processed.contains(own.twin.unwrap()) {
            let twin = own.twin.unwrap();
            let half = before.half_edges().insert(
                half_edge,
                HalfEdge { origin: before.half_edges()[twin].destination, ..own },
            );
            &&& after.vertices() == before.vertices()
            &&& after.half_edges() == half.insert(
                half_edge,
                HalfEdge { destination: half[twin].origin, ..half[half_edge] },
            )
        } else {
            exists|a: VertexKey, b: VertexKey| #[trigger]
                Self::ends_set(before, after, half_edge, first, second, a, b)
        }
    }

    /// A half edge can be clipped: the number of its crossings goes with where its ends
    /// lie, the ends outside the box can be moved, and the border can come in or leave as
    /// the half edge does.
    pub open spec fn can_clip(
        voronoi: &Diagram,
        half_edge: HalfEdgeKey,
        inside: bool,
        next_inside: bool,
        hits: Seq<(Point, Side)>,
        was: Crossing,
        processed: Seq<HalfEdgeKey>,
    ) -> bool {
        if inside && next_inside {
            true
        } else if !inside && !next_inside {
            hits.len() == 0 || (hits.len() == 2 && Self::can_move(voronoi, half_edge, processed, 2)
                && Self::can_come_in_after(
                voronoi,
                was,
                half_edge,
                hits[0].1,
                Self::added_by(voronoi, half_edge, processed, 2),
            ))
        } else if inside {
            hits.len() == 1 && Self::can_move(voronoi, half_edge, processed, 1)
                && was.outgoing_half_edge.is_none()
        } else {
            hits.len() == 1 && Self::can_move(voronoi, half_edge, processed, 1)
                && Self::can_come_in_after(
                voronoi,
                was,
                half_edge,
                hits[0].1,
                Self::added_by(voronoi, half_edge, processed, 1),
            )
        }
    }

    /// A half edge that comes into the box was clipped by way of `middle`: its origin was
    /// moved to the crossing, and then the border came in.
    pub open spec fn clipped_in(
        self,
        before: &Diagram,
        middle: &Diagram,
        after: &Diagram,
        half_edge: HalfEdgeKey,
        hit: (Point, Side),
        was: Crossing,
        processed: Seq<HalfEdgeKey>,
    ) -> bool {
        &&& Self::end_moved(before, middle, half_edge, true, hit.0, processed)
        &&& self.came_in(middle, after, was, half_edge, hit.1)
    }

    /// A half edge that crosses the box twice was clipped by way of `middle`: its ends
    /// were moved to the crossings, and then the border came in at the first.
    pub open spec fn clipped_through(
        self,
        before: &Diagram,
        middle: &Diagram,
        after: &Diagram,
        half_edge: HalfEdgeKey,
        hits: Seq<(Point, Side)>,
        was: Crossing,
        processed: Seq<HalfEdgeKey>,
    ) -> bool {
        &&& Self::ends_moved(before, middle, half_edge, hits[0].0, hits[1].0, processed)
        &&& self.came_in(middle, after, was, half_edge, hits[0].1)
    }

    /// What `clip_half_edge` leaves where it succeeds.
    pub open spec fn edge_clipped(
        self,
        before: &Diagram,
        after: &Diagram,
        face: FaceKey,
        half_edge: HalfEdgeKey,
        origin: VertexKey,
        inside: bool,
        next_inside: bool,
        hits: Seq<(Point, Side)>,
        was: Crossing,
        now: Crossing,
        marks: &Marks,
        marked: &Marks,
    ) -> bool {
        let processed = marks.processed_half_edges@;
        if inside && next_inside {
            &&& Self::same_parts(before, after)
            &&& now == was
            &&& marked.processed_half_edges@ == processed
            &&& marked.vertices_to_remove@ == marks.vertices_to_remove@
            &&& marked.half_edges_to_remove@ == marks.half_edges_to_remove@
        } else if !inside && !next_inside && hits.len() == 0 {
            &&& after.vertices() == before.vertices()
            &&& after.half_edges() == before.half_edges()
            &&& after.faces() == (if before.faces()[face].outer_component == Some(half_edge) {
                before.faces().insert(
                    face,
                    Face {
                        outer_component: before.half_edges()[half_edge].next,
                        ..before.faces()[face]
                    },
                )
            } else {
                before.faces()
            })
            &&& now == was
            &&& marked.processed_half_edges@ == processed
            &&& marked.vertices_to_remove@ == marks.vertices_to_remove@.push(origin)
            &&& marked.half_edges_to_remove@ == marks.half_edges_to_remove@.push(half_edge)
        } else if !inside && !next_inside {
            &&& exists|middle: Diagram| #[trigger]
                self.clipped_through(before, &middle, after, half_edge, hits, was, processed)
            &&& now == Self::go_out_spec(
                Self::come_in_spec(was, half_edge, hits[0].1),
                half_edge,
                hits[1].1,
            )
            &&& marked.processed_half_edges@ == processed.push(half_edge)
            &&& marked.vertices_to_remove@ == marks.vertices_to_remove@.push(origin)
            &&& marked.half_edges_to_remove@ == marks.half_edges_to_remove@
        } else if inside {
            &&& Self::end_moved(before, after, half_edge, false, hits[0].0, processed)
            &&& now == Self::go_out_spec(was, half_edge, hits[0].1)
            &&& marked.processed_half_edges@ == processed.push(half_edge)
            &&& marked.vertices_to_remove@ == marks.vertices_to_remove@
            &&& marked.half_edges_to_remove@ == marks.half_edges_to_remove@
        } else {
            &&& exists|middle: Diagram| #[trigger]
                self.clipped_in(before, &middle, after, half_edge, hits[0], was, processed)
            &&& now == Self::come_in_spec(was, half_edge, hits[0].1)
            &&& marked.processed_half_edges@ == processed.push(half_edge)
            &&& marked.vertices_to_remove@ == marks.vertices_to_remove@.push(origin)
            &&& marked.half_edges_to_remove@ == marks.half_edges_to_remove@
        }
    }

    /// Clips one half edge on the way round a face.
    ///
    /// `inside` and `next_inside` say whether its origin and its destination lie in the
    /// box, and `intersections` are the points at which it crosses the box, each with the
    /// side, in the order in which it meets them. A half edge in the box stays as it is. One outside the box that does not
    /// cross it is marked to leave, with its origin. Of one that crosses the box, the
    /// ends outside are moved to the crossings and an origin outside is marked to leave;
    /// where it comes into the box that is noted as `come_in` says, and where it leaves
    /// the box as `go_out` says: see `edge_clipped`. Fails with `GeometryInvariant` where
    /// the number of crossings does not go with where the ends lie, and as `move_end`,
    /// `come_in` and `go_out` do: see `can_clip`.
    pub fn clip_half_edge(
        &self,
        voronoi: &mut Diagram,
        face: FaceKey,
        half_edge: HalfEdgeKey,
        origin: VertexKey,
        inside: bool,
        next_inside: bool,
        intersections: &Vec<(Point, Side)>,
        crossing: &mut Crossing,
        marks: &mut Marks,
    ) -> (r: Result<(), BuildError>)
        requires
            old(voronoi).wf(),
            old(voronoi).faces().contains_key(face),
            old(voronoi).half_edges().contains_key(half_edge),
        ensures
            final(voronoi).grown(old(voronoi)),
            r.is_err() ==> r == Err::<(), BuildError>(BuildError::GeometryInvariant),
            final(marks).vertices_to_remove@ == old(marks).vertices_to_remove@
                || final(marks).vertices_to_remove@ == old(marks).vertices_to_remove@.push(origin),
            inside ==> final(marks).vertices_to_remove@ == old(marks).vertices_to_remove@,
            r.is_ok() == Self::can_clip(
                old(voronoi),
                half_edge,
                inside,
                next_inside,
                intersections@,
                *old(crossing),
                old(marks).processed_half_edges@,
            ),
            inside && next_inside ==> *final(voronoi) == *old(voronoi),
            r.is_ok() ==> self.edge_clipped(
                old(voronoi),
                final(voronoi),
                face,
                half_edge,
                origin,
                inside,
                next_inside,
                intersections@,
                *old(crossing),
                *final(crossing),
                old(marks),
                final(marks),
            ),
    {
        proof {
            old(voronoi).lemma_finite();
        }
        if inside && next_inside {
            return Ok(());
        }
        if !inside && !next_inside {
            if intersections.len() == 0 {
                marks.vertices_to_remove.push(origin);
                let ghost before = *voronoi;
                if Some(half_edge) == voronoi.get_face_outer_component(face) {
                    let next = voronoi.get_half_edge_next(half_edge);
                    voronoi.set_face_outer_component(face, next);
                    proof {
                        assert(voronoi.faces().dom() =~= before.faces().dom());
                    }
                }
                marks.half_edges_to_remove.push(half_edge);
                Ok(())
            } else if intersections.len() == 2 {
                marks.vertices_to_remove.push(origin);
                let ghost before = *voronoi;
                let half_edge_twin = voronoi.get_half_edge_twin(half_edge);
                if half_edge_twin.is_some() && is_listed(
                    &marks.processed_half_edges,
                    half_edge_twin.unwrap(),
                ) {
                    let twin = half_edge_twin.unwrap();
                    if !voronoi.has_half_edge(twin) {
                        return Err(BuildError::GeometryInvariant);
                    }
                    let new_origin = voronoi.get_half_edge_destination(twin);
                    voronoi.set_half_edge_origin(half_edge, new_origin);
                    let new_destination = voronoi.get_half_edge_origin(twin);
                    voronoi.set_half_edge_destination(half_edge, new_destination);
                } else {
                    if voronoi.vertex_count() >= POOL_LIMIT - 1 {
                        return Err(BuildError::GeometryInvariant);
                    }
                    let new_origin = voronoi.add_vertex(intersections[0].0);
                    let new_destination = voronoi.add_vertex(intersections[1].0);
                    voronoi.set_half_edge_origin(half_edge, Some(new_origin));
                    voronoi.set_half_edge_destination(half_edge, Some(new_destination));
                    proof {
                        assert(voronoi.half_edges() =~= before.half_edges().insert(
                            half_edge,
                            HalfEdge {
                                origin: Some(new_origin),
                                destination: Some(new_destination),
                                ..before.half_edges()[half_edge]
                            },
                        ));
                        assert(Self::ends_set(
                            &before,
                            voronoi,
                            half_edge,
                            intersections@[0].0,
                            intersections@[1].0,
                            new_origin,
                            new_destination,
                        ));
                    }
                }
                proof {
                    assert(voronoi.half_edges().dom() =~= before.half_edges().dom());
                    assert(voronoi.grown(&before));
                    voronoi.lemma_finite();
                }
                let ghost middle = *voronoi;
                let entered = self.come_in(voronoi, half_edge, intersections[0].1, crossing);
                proof {
                    voronoi.lemma_grown_trans(&middle, old(voronoi));
                }
                if entered.is_err() {
                    return entered;
                }
                let left = Self::go_out(half_edge, intersections[1].1, crossing);
                if left.is_err() {
                    return left;
                }
                marks.processed_half_edges.push(half_edge);
                proof {
                    assert(self.clipped_through(
                        old(voronoi),
                        &middle,
                        voronoi,
                        half_edge,
                        intersections@,
                        *old(crossing),
                        old(marks).processed_half_edges@,
                    ));
                }
                Ok(())
            } else {
                Err(BuildError::GeometryInvariant)
            }
        } else if inside && !next_inside {
            if intersections.len() == 1 {
                let moved = Self::move_end(
                    voronoi,
                    half_edge,
                    false,
                    intersections[0].0,
                    &marks.processed_half_edges,
                );
                if moved.is_err() {
                    return moved;
                }
                let left = Self::go_out(half_edge, intersections[0].1, crossing);
                if left.is_err() {
                    return left;
                }
                marks.processed_half_edges.push(half_edge);
                Ok(())
            } else {
                Err(BuildError::GeometryInvariant)
            }
        } else {
            if intersections.len() == 1 {
                marks.vertices_to_remove.push(origin);
                let moved = Self::move_end(
                    voronoi,
                    half_edge,
                    true,
                    intersections[0].0,
                    &marks.processed_half_edges,
                );
                if moved.is_err() {
                    return moved;
                }
                let ghost middle = *voronoi;
                proof {
                    middle.lemma_finite();
                }
                let entered = self.come_in(voronoi, half_edge, intersections[0].1, crossing);
                proof {
                    voronoi.lemma_grown_trans(&middle, old(voronoi));
                }
                if entered.is_err() {
                    return entered;
                }
                marks.processed_half_edges.push(half_edge);
                proof {
                    assert(self.clipped_in(
                        old(voronoi),
                        &middle,
                        voronoi,
                        half_edge,
                        intersections@[0],
                        *old(crossing),
                        old(marks).processed_half_edges@,
                    ));
                }
                Ok(())
            } else {
                Err(BuildError::GeometryInvariant)
            }
        }
    }
}

impl BoundingBox {
    /// Every vertex of the list is a vertex of the diagram that lies outside the box.
    pub open spec fn all_outside(self, voronoi: &Diagram, list: Seq<VertexKey>) -> bool {
        forall|i: int|
            0 <= i < list.len() ==> voronoi.vertices().contains_key(#[trigger] list[i])
                && !self.contains_spec(voronoi.vertices()[list[i]].point)
    }

    /// On the way from `from` to `to` the point `first` comes no later than `second`: the
    /// two are compared by their abscissas where those of `from` and `to` differ, and else
    /// by their ordinates.
    pub open spec fn goes_first_spec(from: Point, to: Point, first: Point, second: Point) -> bool {
        if from.x.lt_spec(to.x) {
            first.x.le_spec(second.x)
        } else if to.x.lt_spec(from.x) {
            second.x.le_spec(first.x)
        } else if from.y.lt_spec(to.y) {
            first.y.le_spec(second.y)
        } else {
            second.y.le_spec(first.y)
        }
    }

    /// Whether `first` comes no later than `second` on the way from `from` to `to`.
    pub fn goes_first(from: Point, to: Point, first: Point, second: Point) -> (r: bool)
        ensures
            r == Self::goes_first_spec(from, to, first, second),
    {
        if from.x.lt(&to.x) {
            first.x.le(&second.x)
        } else if to.x.lt(&from.x) {
            second.x.le(&first.x)
        } else if from.y.lt(&to.y) {
            first.y.le(&second.y)
        } else {
            second.y.le(&first.y)
        }
    }

    /// The crossings of a half edge with the box in the order in which the half edge
    /// meets them on its way from `from` to `to`: two crossings are turned round where the
    /// second comes first.
    pub open spec fn crossings_in_order(from: Point, to: Point, hits: Seq<(Point, Side)>) -> Seq<
        (Point, Side),
    > {
        if hits.len() == 2 && !Self::goes_first_spec(from, to, hits[0].0, hits[1].0) {
            seq![hits[1], hits[0]]
        } else {
            hits
        }
    }

    /// Puts the crossings of a half edge in the order in which it meets them: see
    /// `crossings_in_order`.
    pub fn order_crossings(from: Point, to: Point, hits: Vec<(Point, Side)>) -> (r: Vec<(Point, Side)>)
        ensures
            r@ == Self::crossings_in_order(from, to, hits@),
    {
        if hits.len() == 2 && !Self::goes_first(from, to, hits[0].0, hits[1].0) {
            let mut turned: Vec<(Point, Side)> = Vec::new();
            turned.push(hits[1]);
            turned.push(hits[0]);
            assert(turned@ =~= seq![hits@[1], hits@[0]]);
            turned
        } else {
            hits
        }
    }

    /// The two hold the same notes.
    pub open spec fn same_marks(marks: &Marks, marked: &Marks) -> bool {
        &&& marked.processed_half_edges@ == marks.processed_half_edges@
        &&& marked.vertices_to_remove@ == marks.vertices_to_remove@
        &&& marked.half_edges_to_remove@ == marks.half_edges_to_remove@
    }

    /// The crossing at the start of the walk round a face: the border has neither left
    /// the box nor come in.
    pub open spec fn no_crossing() -> Crossing {
        Crossing {
            outgoing_half_edge: None,
            outgoing_side: Side::Nowhere,
            incoming_half_edge: None,
            incoming_side: Side::Nowhere,
        }
    }

    /// One step of the walk round a face: the half edge, which has both its ends at
    /// vertices of the diagram and a `next`, was clipped as `clip_half_edge` does, with
    /// the crossings that `clip` gave for its two ends where one of them lies outside the
    /// box, in the order in which the half edge meets them.
    pub open spec fn step_clipped<S: Fn(BoundingBox, Point, Point) -> Vec<(Point, Side)>>(
        self,
        clip: &S,
        face: FaceKey,
        half_edge: HalfEdgeKey,
        before: &Diagram,
        was: Crossing,
        marks: &Marks,
        after: &Diagram,
        now: Crossing,
        marked: &Marks,
    ) -> bool {
        let own = before.half_edges()[half_edge];
        let from = before.vertices()[own.origin.unwrap()].point;
        let to = before.vertices()[own.destination.unwrap()].point;
        let inside = self.contains_spec(from);
        let next_inside = self.contains_spec(to);
        &&& before.half_edges().contains_key(half_edge)
        &&& own.origin.is_some()
        &&& own.destination.is_some()
        &&& own.next.is_some()
        &&& before.vertices().contains_key(own.origin.unwrap())
        &&& before.vertices().contains_key(own.destination.unwrap())
        &&& exists|hits: Vec<(Point, Side)>|
            (#[trigger] self.edge_clipped(
                before,
                after,
                face,
                half_edge,
                own.origin.unwrap(),
                inside,
                next_inside,
                Self::crossings_in_order(from, to, hits@),
                was,
                now,
                marks,
                marked,
            )) && (if inside && next_inside {
                hits@.len() == 0
            } else {
                call_ensures(*clip, (self, from, to), hits)
            })
    }

    /// A walk round a face, as the diagrams, the crossings, the notes and the half edges
    /// at which it stood one after the other.
    pub open spec fn is_trail(
        trail: Seq<Diagram>,
        crossings: Seq<Crossing>,
        notes: Seq<Marks>,
        edges: Seq<HalfEdgeKey>,
    ) -> bool {
        &&& trail.len() > 0
        &&& crossings.len() == trail.len()
        &&& notes.len() == trail.len()
        &&& edges.len() == trail.len()
    }

    /// Step `i` of a walk round a face: the half edge at which the walk stood was clipped
    /// (see `step_clipped`), and its `next` is where the walk stands after it.
    pub open spec fn step_at<S: Fn(BoundingBox, Point, Point) -> Vec<(Point, Side)>>(
        self,
        clip: &S,
        face: FaceKey,
        trail: Seq<Diagram>,
        crossings: Seq<Crossing>,
        notes: Seq<Marks>,
        edges: Seq<HalfEdgeKey>,
        i: int,
    ) -> bool {
        &&& self.step_clipped(
            clip,
            face,
            edges[i],
            &trail[i],
            crossings[i],
            &notes[i],
            &trail[i + 1],
            crossings[i + 1],
            &notes[i + 1],
        )
        &&& trail[i].half_edges()[edges[i]].next == Some(edges[i + 1])
    }

    /// The walk round a face has set out from `start` with no crossing noted, and each of
    /// its steps has clipped one half edge.
    pub open spec fn face_walked<S: Fn(BoundingBox, Point, Point) -> Vec<(Point, Side)>>(
        self,
        clip: &S,
        face: FaceKey,
        start: HalfEdgeKey,
        trail: Seq<Diagram>,
        crossings: Seq<Crossing>,
        notes: Seq<Marks>,
        edges: Seq<HalfEdgeKey>,
    ) -> bool {
        &&& Self::is_trail(trail, crossings, notes, edges)
        &&& crossings[0] == Self::no_crossing()
        &&& edges[0] == start
        &&& forall|i: int|
            0 <= i < trail.len() - 1 ==> #[trigger] self.step_at(
                clip,
                face,
                trail,
                crossings,
                notes,
                edges,
                i,
            )
    }

    /// A walk with one step more is a walk.
    pub proof fn lemma_walk_on<S: Fn(BoundingBox, Point, Point) -> Vec<(Point, Side)>>(
        self,
        clip: &S,
        face: FaceKey,
        start: HalfEdgeKey,
        trail: Seq<Diagram>,
        crossings: Seq<Crossing>,
        notes: Seq<Marks>,
        edges: Seq<HalfEdgeKey>,
        after: Diagram,
        now: Crossing,
        marked: Marks,
        at: HalfEdgeKey,
    )
        requires
            self.face_walked(clip, face, start, trail, crossings, notes, edges),
            self.step_clipped(
                clip,
                face,
                edges.last(),
                &trail.last(),
                crossings.last(),
                &notes.last(),
                &after,
                now,
                &marked,
            ),
            trail.last().half_edges()[edges.last()].next == Some(at),
        ensures
            self.face_walked(
                clip,
                face,
                start,
                trail.push(after),
                crossings.push(now),
                notes.push(marked),
                edges.push(at),
            ),
    {
        let more = trail.push(after);
        let more_crossings = crossings.push(now);
        let more_notes = notes.push(marked);
        let more_edges = edges.push(at);
        assert forall|i: int| 0 <= i < more.len() - 1 implies #[trigger] self.step_at(
            clip,
            face,
            more,
            more_crossings,
            more_notes,
            more_edges,
            i,
        ) by {
            if i < trail.len() - 1 {
                assert(self.step_at(clip, face, trail, crossings, notes, edges, i));
            }
        }
    }

    /// The walk round a face has come back to where it set out, and where the border had
    /// left the box at the end of it, it was closed along the box up to the half edge on
    /// which it first came in.
    pub open spec fn walk_closed<S: Fn(BoundingBox, Point, Point) -> Vec<(Point, Side)>>(
        self,
        clip: &S,
        face: FaceKey,
        before: &Diagram,
        marks: &Marks,
        trail: Seq<Diagram>,
        crossings: Seq<Crossing>,
        notes: Seq<Marks>,
        edges: Seq<HalfEdgeKey>,
        after: &Diagram,
        marked: &Marks,
    ) -> bool {
        let start = before.faces()[face].outer_component.unwrap();
        let now = crossings.last();
        &&& self.face_walked(clip, face, start, trail, crossings, notes, edges)
        &&& trail.len() > 1
        &&& Self::same_parts(before, &trail[0])
        &&& Self::same_marks(marks, &notes[0])
        &&& edges.last() == start
        &&& Self::same_marks(&notes.last(), marked)
        &&& now.outgoing_half_edge.is_some() == now.incoming_half_edge.is_some()
        &&& if now.outgoing_half_edge.is_some() {
            exists|walls: Seq<HalfEdgeKey>, corners: Seq<VertexKey>| #[trigger]
                self.border_closed(
                    &trail.last(),
                    after,
                    (now.outgoing_half_edge.unwrap(), now.outgoing_side),
                    (now.incoming_half_edge.unwrap(), now.incoming_side),
                    walls,
                    corners,
                )
        } else {
            Self::same_parts(&trail.last(), after)
        }
    }

    /// What `clip_face` leaves where it succeeds: the border of the face was walked once
    /// round from its outer component, each half edge on the way was clipped, and the
    /// border was closed along the box where it was left open.
    pub open spec fn face_clipped<S: Fn(BoundingBox, Point, Point) -> Vec<(Point, Side)>>(
        self,
        clip: &S,
        face: FaceKey,
        before: &Diagram,
        marks: &Marks,
        after: &Diagram,
        marked: &Marks,
    ) -> bool {
        &&& before.faces()[face].outer_component.is_some()
        &&& exists|
            trail: Seq<Diagram>,
            crossings: Seq<Crossing>,
            notes: Seq<Marks>,
            edges: Seq<HalfEdgeKey>,
        | #[trigger]
            self.walk_closed(clip, face, before, marks, trail, crossings, notes, edges, after, marked)
    }

    /// Both ends of the half edge are set, at vertices of the diagram that lie in the box.
    pub open spec fn edge_inside(self, voronoi: &Diagram, half_edge: HalfEdgeKey) -> bool {
        let own = voronoi.half_edges()[half_edge];
        &&& own.origin.is_some()
        &&& own.destination.is_some()
        &&& voronoi.vertices().contains_key(own.origin.unwrap())
        &&& voronoi.vertices().contains_key(own.destination.unwrap())
        &&& self.contains_spec(voronoi.vertices()[own.origin.unwrap()].point)
        &&& self.contains_spec(voronoi.vertices()[own.destination.unwrap()].point)
    }

    /// `round` is the border of the face: the way round from its outer component, which
    /// leads back to where it sets out; and every half edge on it lies in the box.
    pub open spec fn round_inside(self, voronoi: &Diagram, face: FaceKey, round: Seq<HalfEdgeKey>) -> bool {
        let start = voronoi.faces()[face].outer_component.unwrap();
        &&& voronoi.is_round(start, round)
        &&& round.len() <= voronoi.half_edge_total()
        &&& voronoi.walk(start, round.len()) == Some(start)
        &&& forall|i: int| 0 <= i < round.len() ==> self.edge_inside(voronoi, #[trigger] round[i])
    }

    /// The border of the face is closed and lies in the box.
    pub open spec fn border_inside(self, voronoi: &Diagram, face: FaceKey) -> bool {
        &&& voronoi.faces()[face].outer_component.is_some()
        &&& exists|round: Seq<HalfEdgeKey>| #[trigger] self.round_inside(voronoi, face, round)
    }

    /// The walk round a face cannot go on at the half edge `half_edge`, after `steps`
    /// steps: it has made as many steps as the diagram had half edges; or the half edge is
    /// not in the diagram, or lacks an end at a vertex of the diagram, or a `next`; or
    /// `clip` gave crossings with which it cannot be clipped (see `can_clip`).
    pub open spec fn step_refused<S: Fn(BoundingBox, Point, Point) -> Vec<(Point, Side)>>(
        self,
        clip: &S,
        voronoi: &Diagram,
        was: Crossing,
        marks: &Marks,
        half_edge: HalfEdgeKey,
        steps: nat,
        limit: nat,
    ) -> bool {
        let own = voronoi.half_edges()[half_edge];
        let from = voronoi.vertices()[own.origin.unwrap()].point;
        let to = voronoi.vertices()[own.destination.unwrap()].point;
        let inside = self.contains_spec(from);
        let next_inside = self.contains_spec(to);
        ||| steps >= limit
        ||| !voronoi.half_edges().contains_key(half_edge)
        ||| own.origin.is_none()
        ||| own.destination.is_none()
        ||| own.next.is_none()
        ||| !voronoi.vertices().contains_key(own.origin.unwrap())
        ||| !voronoi.vertices().contains_key(own.destination.unwrap())
        ||| exists|hits: Vec<(Point, Side)>|
            (#[trigger] call_ensures(*clip, (self, from, to), hits)) && !(inside && next_inside)
                && !Self::can_clip(
                voronoi,
                half_edge,
                inside,
                next_inside,
                Self::crossings_in_order(from, to, hits@),
                was,
                marks.processed_half_edges@,
            )
    }

    /// The border of a face cannot be closed at the end of the walk round it: it has left
    /// the box without coming in or come in without leaving, or it cannot be closed along
    /// the box (see `can_link`).
    pub open spec fn close_refused(voronoi: &Diagram, now: Crossing) -> bool {
        ||| now.outgoing_half_edge.is_some() != now.incoming_half_edge.is_some()
        ||| now.outgoing_half_edge.is_some() && !Self::can_link(
            voronoi,
            now.outgoing_half_edge.unwrap(),
            now.outgoing_side,
            now.incoming_half_edge.unwrap(),
            now.incoming_side,
        )
    }

    /// The walk round a face came as far as the trail says and was then refused: at the
    /// next half edge (see `step_refused`), or at the end (see `close_refused`).
    pub open spec fn walk_refused<S: Fn(BoundingBox, Point, Point) -> Vec<(Point, Side)>>(
        self,
        clip: &S,
        face: FaceKey,
        before: &Diagram,
        marks: &Marks,
        trail: Seq<Diagram>,
        crossings: Seq<Crossing>,
        notes: Seq<Marks>,
        edges: Seq<HalfEdgeKey>,
    ) -> bool {
        let start = before.faces()[face].outer_component.unwrap();
        &&& self.face_walked(clip, face, start, trail, crossings, notes, edges)
        &&& Self::same_parts(before, &trail[0])
        &&& Self::same_marks(marks, &notes[0])
        &&& if trail.len() > 1 && edges.last() == start {
            Self::close_refused(&trail.last(), crossings.last())
        } else {
            self.step_refused(
                clip,
                &trail.last(),
                crossings.last(),
                &notes.last(),
                edges.last(),
                (trail.len() - 1) as nat,
                before.half_edge_total(),
            )
        }
    }

    /// Why `clip_face` fails: the face has no outer component, or the walk round it was
    /// refused on the way (see `walk_refused`).
    pub open spec fn face_refused<S: Fn(BoundingBox, Point, Point) -> Vec<(Point, Side)>>(
        self,
        clip: &S,
        face: FaceKey,
        before: &Diagram,
        marks: &Marks,
    ) -> bool {
        before.faces()[face].outer_component.is_none() || exists|
            trail: Seq<Diagram>,
            crossings: Seq<Crossing>,
            notes: Seq<Marks>,
            edges: Seq<HalfEdgeKey>,
        | #[trigger] self.walk_refused(clip, face, before, marks, trail, crossings, notes, edges)
    }

    /// Clips the border of one face: walks round it from its outer component and clips
    /// each half edge (see `clip_half_edge`). Where the border has left the box at the
    /// end of the walk, it is closed along the box up to the half edge on which it first
    /// came in: see `face_clipped`. `clip` gives the crossings of a segment with the box.
    /// Fails with `GeometryInvariant` where the face has no outer component, the walk comes to a half
    /// edge that is not in the diagram or lacks an end or a `next`, or does not come back
    /// to where it set out, or where the border has come into the box once more or less
    /// often than it has left it.
    pub fn clip_face<S: Fn(BoundingBox, Point, Point) -> Vec<(Point, Side)>>(
        &self,
        voronoi: &mut Diagram,
        face: FaceKey,
        clip: &S,
        marks: &mut Marks,
    ) -> (r: Result<(), BuildError>)
        requires
            old(voronoi).wf(),
            old(voronoi).faces().contains_key(face),
            self.all_outside(old(voronoi), old(marks).vertices_to_remove@),
            forall|b: BoundingBox, p: Point, q: Point| call_requires(*clip, (b, p, q)),
        ensures
            final(voronoi).grown(old(voronoi)),
            self.all_outside(final(voronoi), final(marks).vertices_to_remove@),
            r.is_err() ==> r == Err::<(), BuildError>(BuildError::GeometryInvariant),
            old(voronoi).faces()[face].outer_component.is_none() ==> r.is_err() && Self::same_parts(
                old(voronoi),
                final(voronoi),
            ) && Self::same_marks(old(marks), final(marks)),
            r.is_ok() ==> self.face_clipped(clip, face, old(voronoi), old(marks), final(voronoi), final(marks)),
            r.is_err() ==> self.face_refused(clip, face, old(voronoi), old(marks)),
            self.border_inside(old(voronoi), face) ==> r.is_ok() && *final(voronoi) == *old(voronoi)
                && Self::same_marks(old(marks), final(marks)),
    {
        let start_half_edge = match voronoi.get_face_outer_component(face) {
            Some(edge) => edge,
            None => {
                return Err(BuildError::GeometryInvariant);
            },
        };
        let mut crossing = Crossing {
            outgoing_half_edge: None,
            outgoing_side: Side::Nowhere,
            incoming_half_edge: None,
            incoming_side: Side::Nowhere,
        };
        let limit = voronoi.half_edge_count();
        let mut half_edge = start_half_edge;
        let mut steps: usize = 0;
        let mut done = false;
        let ghost mut trail: Seq<Diagram> = seq![*voronoi];
        let ghost mut crossings: Seq<Crossing> = seq![crossing];
        let ghost mut notes: Seq<Marks> = seq![*marks];
        let ghost mut edges: Seq<HalfEdgeKey> = seq![start_half_edge];
        let ghost calm = self.border_inside(old(voronoi), face);
        let ghost round = choose|round: Seq<HalfEdgeKey>| #[trigger]
            self.round_inside(old(voronoi), face, round);
        proof {
            old(voronoi).lemma_finite();
        }
        while !done
            invariant
                voronoi.grown(old(voronoi)),
                old(voronoi).faces().contains_key(face),
                self.all_outside(voronoi, marks.vertices_to_remove@),
                steps <= limit,
                self.face_walked(clip, face, start_half_edge, trail, crossings, notes, edges),
                trail[0] == *old(voronoi),
                notes[0] == *old(marks),
                trail.last() == *voronoi,
                crossings.last() == crossing,
                notes.last() == *marks,
                !done ==> edges.last() == half_edge,
                done ==> edges.last() == start_half_edge && trail.len() > 1,
                old(voronoi).faces()[face].outer_component == Some(start_half_edge),
                limit == old(voronoi).half_edge_total(),
                !done ==> steps == trail.len() - 1,
                !done && trail.len() > 1 ==> half_edge != start_half_edge,
                calm == self.border_inside(old(voronoi), face),
                calm ==> self.round_inside(old(voronoi), face, round),
                calm ==> *voronoi == *old(voronoi) && Self::same_marks(old(marks), marks) && crossing
                    == Self::no_crossing(),
                calm && !done ==> steps < round.len() && old(voronoi).walk(start_half_edge, steps as nat)
                    == Some(half_edge),
                forall|b: BoundingBox, p: Point, q: Point| call_requires(*clip, (b, p, q)),
            decreases limit - steps + (if done { 0int } else { 1int }),
        {
            proof {
                if calm {
                    assert(old(voronoi).walk(start_half_edge, steps as nat) == Some(round[steps as int]));
                    assert(self.edge_inside(old(voronoi), round[steps as int]));
                    assert(old(voronoi).walk(start_half_edge, (steps + 1) as nat) == old(voronoi).half_edges()[half_edge].next);
                    if steps + 1 < round.len() {
                        assert(old(voronoi).walk(start_half_edge, (steps + 1) as nat) == Some(
                            round[steps + 1],
                        ));
                    }
                }
            }
            if steps >= limit || !voronoi.has_half_edge(half_edge) {
                proof {
                    assert(self.walk_refused(clip, face, old(voronoi), old(marks), trail, crossings, notes, edges));
                }
                return Err(BuildError::GeometryInvariant);
            }
            let origin = match voronoi.get_half_edge_origin(half_edge) {
                Some(vertex) => vertex,
                None => {
                    proof {
                        assert(self.walk_refused(clip, face, old(voronoi), old(marks), trail, crossings, notes, edges));
                    }
                    return Err(BuildError::GeometryInvariant);
                },
            };
            let destination = match voronoi.get_half_edge_destination(half_edge) {
                Some(vertex) => vertex,
                None => {
                    proof {
                        assert(self.walk_refused(clip, face, old(voronoi), old(marks), trail, crossings, notes, edges));
                    }
                    return Err(BuildError::GeometryInvariant);
                },
            };
            if !voronoi.has_vertex(origin) || !voronoi.has_vertex(destination) {
                proof {
                    assert(self.walk_refused(clip, face, old(voronoi), old(marks), trail, crossings, notes, edges));
                }
                return Err(BuildError::GeometryInvariant);
            }
            let origin_point = voronoi.get_vertex_point(origin);
            let destination_point = voronoi.get_vertex_point(destination);
            let inside = self.contains(&origin_point);
            let next_inside = self.contains(&destination_point);
            let next_half_edge = match voronoi.get_half_edge_next(half_edge) {
                Some(edge) => edge,
                None => {
                    proof {
                        assert(self.walk_refused(clip, face, old(voronoi), old(marks), trail, crossings, notes, edges));
                    }
                    return Err(BuildError::GeometryInvariant);
                },
            };
            let found = if !inside || !next_inside {
                clip(*self, origin_point, destination_point)
            } else {
                Vec::new()
            };
            let ghost raw = found;
            let intersections = Self::order_crossings(origin_point, destination_point, found);
            let ghost before = *voronoi;
            let ghost before_marks = marks.vertices_to_remove@;
            let ghost noted = *marks;
            let ghost was = crossing;
            proof {
                if !(inside && next_inside) {
                    assert(call_ensures(*clip, (*self, origin_point, destination_point), raw));
                }
            }
            let clipped = self.clip_half_edge(
                voronoi,
                face,
                half_edge,
                origin,
                inside,
                next_inside,
                &intersections,
                &mut crossing,
                marks,
            );
            proof {
                voronoi.lemma_grown_trans(&before, old(voronoi));
                assert forall|i: int| 0 <= i < marks.vertices_to_remove@.len() implies voronoi.vertices().contains_key(
                    #[trigger] marks.vertices_to_remove@[i],
                ) && !self.contains_spec(voronoi.vertices()[marks.vertices_to_remove@[i]].point) by {
                    if i < before_marks.len() {
                        assert(before.vertices().contains_key(before_marks[i]));
                    } else {
                        assert(before.vertices().contains_key(origin));
                    }
                }
            }
            if clipped.is_err() {
                proof {
                    assert(self.walk_refused(clip, face, old(voronoi), old(marks), trail, crossings, notes, edges));
                }
                return clipped;
            }
            proof {
                assert(self.edge_clipped(
                    &before,
                    voronoi,
                    face,
                    half_edge,
                    origin,
                    inside,
                    next_inside,
                    Self::crossings_in_order(origin_point, destination_point, raw@),
                    was,
                    crossing,
                    &noted,
                    marks,
                ));
                assert(self.step_clipped(clip, face, half_edge, &before, was, &noted, voronoi, crossing, marks));
                self.lemma_walk_on(
                    clip,
                    face,
                    start_half_edge,
                    trail,
                    crossings,
                    notes,
                    edges,
                    *voronoi,
                    crossing,
                    *marks,
                    next_half_edge,
                );
                trail = trail.push(*voronoi);
                crossings = crossings.push(crossing);
                notes = notes.push(*marks);
                edges = edges.push(next_half_edge);
            }
            if next_half_edge == start_half_edge {
                done = true;
            } else {
                half_edge = next_half_edge;
                steps += 1;
            }
        }
        if crossing.outgoing_half_edge.is_some() != crossing.incoming_half_edge.is_some() {
            proof {
                assert(self.walk_refused(clip, face, old(voronoi), old(marks), trail, crossings, notes, edges));
            }
            return Err(BuildError::GeometryInvariant);
        }
        if crossing.outgoing_half_edge.is_some() {
            let ghost before = *voronoi;
            let linked = self.try_link(
                voronoi,
                crossing.outgoing_half_edge.unwrap(),
                crossing.outgoing_side,
                crossing.incoming_half_edge.unwrap(),
                crossing.incoming_side,
            );
            proof {
                voronoi.lemma_grown_trans(&before, old(voronoi));
            }
            if linked.is_err() {
                proof {
                    assert(self.walk_refused(clip, face, old(voronoi), old(marks), trail, crossings, notes, edges));
                }
                return linked;
            }
        }
        proof {
            assert(self.walk_closed(
                clip,
                face,
                old(voronoi),
                old(marks),
                trail,
                crossings,
                notes,
                edges,
                voronoi,
                marks,
            ));
        }
        Ok(())
    }

    /// Stage `i` of a clipping pass: the border of the face at place `i` was clipped.
    pub open spec fn stage_clipped<S: Fn(BoundingBox, Point, Point) -> Vec<(Point, Side)>>(
        self,
        clip: &S,
        order: Seq<FaceKey>,
        stages: Seq<Diagram>,
        notes: Seq<Marks>,
        i: int,
    ) -> bool {
        self.face_clipped(clip, order[i], &stages[i], &notes[i], &stages[i + 1], &notes[i + 1])
    }

    /// The borders of the first `done` faces of `before` were clipped one after the
    /// other, from a diagram like `before` with nothing noted.
    pub open spec fn faces_clipped<S: Fn(BoundingBox, Point, Point) -> Vec<(Point, Side)>>(
        self,
        clip: &S,
        before: &Diagram,
        stages: Seq<Diagram>,
        notes: Seq<Marks>,
        done: int,
    ) -> bool {
        &&& stages.len() == done + 1
        &&& notes.len() == done + 1
        &&& 0 <= done <= before.face_order().len()
        &&& Self::same_parts(before, &stages[0])
        &&& notes[0].processed_half_edges@.len() == 0
        &&& notes[0].vertices_to_remove@.len() == 0
        &&& notes[0].half_edges_to_remove@.len() == 0
        &&& forall|i: int|
            0 <= i < done ==> #[trigger] self.stage_clipped(clip, before.face_order(), stages, notes, i)
    }

    /// `after` is `grown` without the half edges that were marked, and without those of
    /// the marked vertices from which no half edge that is left sets out and at which none
    /// ends.
    pub open spec fn marked_gone(grown: &Diagram, marks: &Marks, after: &Diagram) -> bool {
        &&& after.faces() == grown.faces()
        &&& after.face_order() == grown.face_order()
        &&& forall|k: HalfEdgeKey| #[trigger]
            after.half_edges().contains_key(k) <==> grown.half_edges().contains_key(k)
                && !marks.half_edges_to_remove@.contains(k)
        &&& forall|k: HalfEdgeKey| #[trigger]
            after.half_edges().contains_key(k) ==> after.half_edges()[k] == grown.half_edges()[k]
        &&& forall|w: VertexKey| #[trigger]
            after.vertices().contains_key(w) <==> grown.vertices().contains_key(w) && !(
            marks.vertices_to_remove@.contains(w) && after.is_loose(w))
        &&& forall|w: VertexKey| #[trigger]
            after.vertices().contains_key(w) ==> after.vertices()[w] == grown.vertices()[w]
    }

    /// What `intersect_diagram` leaves where it succeeds: the border of every face was
    /// clipped, face after face, and then what was marked has left the diagram.
    pub open spec fn diagram_clipped<S: Fn(BoundingBox, Point, Point) -> Vec<(Point, Side)>>(
        self,
        clip: &S,
        before: &Diagram,
        after: &Diagram,
    ) -> bool {
        exists|stages: Seq<Diagram>, notes: Seq<Marks>|
            (#[trigger] self.faces_clipped(
                clip,
                before,
                stages,
                notes,
                before.face_order().len() as int,
            )) && Self::marked_gone(&stages.last(), &notes.last(), after)
    }

    /// The borders of the first faces were clipped as the stages say, and the border of the
    /// face after them was refused (see `face_refused`).
    pub open spec fn stage_refused<S: Fn(BoundingBox, Point, Point) -> Vec<(Point, Side)>>(
        self,
        clip: &S,
        before: &Diagram,
        stages: Seq<Diagram>,
        notes: Seq<Marks>,
    ) -> bool {
        let done = stages.len() - 1;
        &&& self.faces_clipped(clip, before, stages, notes, done)
        &&& done < before.face_order().len()
        &&& self.face_refused(clip, before.face_order()[done], &stages[done], &notes[done])
    }

    /// Why `intersect_diagram` fails: the border of one of the faces was refused, after
    /// those of the faces before it were clipped.
    pub open spec fn diagram_refused<S: Fn(BoundingBox, Point, Point) -> Vec<(Point, Side)>>(
        self,
        clip: &S,
        before: &Diagram,
    ) -> bool {
        exists|stages: Seq<Diagram>, notes: Seq<Marks>| #[trigger]
            self.stage_refused(clip, before, stages, notes)
    }

    /// The border of every face of the diagram is closed and lies in the box.
    pub open spec fn all_inside(self, voronoi: &Diagram) -> bool {
        forall|i: int|
            0 <= i < voronoi.face_order().len() ==> self.border_inside(voronoi, #[trigger] voronoi.face_order()[i])
    }

    /// Clips the diagram to the box.
    ///
    /// The border of every face is clipped (see `clip_face` and `clip_half_edge`); `clip`
    /// gives the crossings of a segment with the box. Then the half edges that were
    /// marked leave the diagram, and of the vertices that were marked those from which
    /// no half edge that is left sets out, and at which none ends: see `diagram_clipped`.
    ///
    /// Fails with `GeometryInvariant` as `clip_face` does (see `diagram_refused`); then
    /// nothing has left the diagram. A diagram whose borders are closed and lie in the box
    /// is left as it is.
    pub fn intersect_diagram<S: Fn(BoundingBox, Point, Point) -> Vec<(Point, Side)>>(
        &self,
        voronoi: &mut Diagram,
        clip: &S,
    ) -> (r: Result<(), BuildError>)
        requires
            old(voronoi).wf(),
            forall|b: BoundingBox, p: Point, q: Point| call_requires(*clip, (b, p, q)),
        ensures
            final(voronoi).wf(),
            final(voronoi).face_order() == old(voronoi).face_order(),
            final(voronoi).faces().dom() == old(voronoi).faces().dom(),
            forall|f: FaceKey| #[trigger]
                old(voronoi).faces().contains_key(f) ==> final(voronoi).faces()[f].point == old(voronoi).faces()[f].point,
            old(voronoi).ends_present() ==> final(voronoi).ends_present(),
            old(voronoi).twins_paired() ==> final(voronoi).twins_agree(),
            forall|v: VertexKey| #[trigger]
                old(voronoi).vertices().contains_key(v) ==> (final(voronoi).vertices().contains_key(v)
                    && final(voronoi).vertices()[v] == old(voronoi).vertices()[v]) || (
                !final(voronoi).vertices().contains_key(v) && !self.contains_spec(
                    old(voronoi).vertices()[v].point,
                ) && final(voronoi).is_loose(v)),
            r.is_err() ==> r == Err::<(), BuildError>(BuildError::GeometryInvariant) && final(voronoi).grown(old(voronoi)),
            old(voronoi).face_total() == 0 ==> r.is_ok() && final(voronoi).vertices() == old(voronoi).vertices()
                && final(voronoi).half_edges() == old(voronoi).half_edges(),
            r.is_ok() ==> self.diagram_clipped(clip, old(voronoi), final(voronoi)),
            r.is_err() ==> self.diagram_refused(clip, old(voronoi)),
            self.all_inside(old(voronoi)) ==> r.is_ok() && Self::same_parts(old(voronoi), final(voronoi)),
            old(voronoi).face_total() > 0 && old(voronoi).faces()[old(voronoi).face_order()[0]].outer_component.is_none()
                ==> r.is_err(),
    {
        let mut marks = Marks {
            processed_half_edges: Vec::new(),
            vertices_to_remove: Vec::new(),
            half_edges_to_remove: Vec::new(),
        };
        let faces = voronoi.get_face_indices();
        let mut f: usize = 0;
        let ghost mut stages: Seq<Diagram> = seq![*voronoi];
        let ghost mut notes: Seq<Marks> = seq![marks];
        while f < faces.len()
            invariant
                voronoi.grown(old(voronoi)),
                f <= faces@.len(),
                faces@ == old(voronoi).face_order(),
                self.faces_clipped(clip, old(voronoi), stages, notes, f as int),
                stages.last() == *voronoi,
                notes.last() == marks,
                f > 0 ==> old(voronoi).faces()[faces@[0]].outer_component.is_some(),
                self.all_inside(old(voronoi)) ==> *voronoi == *old(voronoi)
                    && marks.processed_half_edges@.len() == 0 && marks.vertices_to_remove@.len() == 0
                    && marks.half_edges_to_remove@.len() == 0,
                faces@.len() == old(voronoi).face_total(),
                forall|k: FaceKey| faces@.contains(k) ==> old(voronoi).faces().contains_key(k),
                self.all_outside(voronoi, marks.vertices_to_remove@),
                f == 0 ==> *voronoi == *old(voronoi) && marks.vertices_to_remove@.len() == 0
                    && marks.half_edges_to_remove@.len() == 0,
                forall|b: BoundingBox, p: Point, q: Point| call_requires(*clip, (b, p, q)),
            decreases faces@.len() - f,
        {
            let face = faces[f];
            assert(faces@.contains(face));
            let ghost before = *voronoi;
            let clipped = self.clip_face(voronoi, face, clip, &mut marks);
            proof {
                voronoi.lemma_grown_trans(&before, old(voronoi));
            }
            if clipped.is_err() {
                proof {
                    assert(self.stage_refused(clip, old(voronoi), stages, notes));
                }
                return clipped;
            }
            proof {
                let more = stages.push(*voronoi);
                let more_notes = notes.push(marks);
                assert forall|i: int| 0 <= i < f + 1 implies #[trigger] self.stage_clipped(
                    clip,
                    old(voronoi).face_order(),
                    more,
                    more_notes,
                    i,
                ) by {
                    if i < f {
                        assert(self.stage_clipped(clip, old(voronoi).face_order(), stages, notes, i));
                    }
                }
                stages = more;
                notes = more_notes;
            }
            f += 1;
        }
        let ghost grown = *voronoi;
        proof {
            if old(voronoi).twins_paired() {
                grown.lemma_twins_agree();
            }
        }
        let mut e: usize = 0;
        while e < marks.half_edges_to_remove.len()
            invariant
                voronoi.wf(),
                e <= marks.half_edges_to_remove@.len(),
                voronoi.faces() == grown.faces(),
                voronoi.face_order() == grown.face_order(),
                voronoi.vertices() == grown.vertices(),
                grown.ends_present() ==> voronoi.ends_present(),
                grown.twins_agree() ==> voronoi.twins_agree(),
                marks.half_edges_to_remove@.len() == 0 ==> voronoi.half_edges() == grown.half_edges(),
                forall|k: HalfEdgeKey| #[trigger]
                    voronoi.half_edges().contains_key(k) ==> grown.half_edges().contains_key(k)
                        && voronoi.half_edges()[k] == grown.half_edges()[k],
                forall|j: int|
                    0 <= j < e ==> !voronoi.half_edges().contains_key(
                        #[trigger] marks.half_edges_to_remove@[j],
                    ),
                forall|k: HalfEdgeKey| #[trigger]
                    grown.half_edges().contains_key(k) && !voronoi.half_edges().contains_key(k)
                        ==> marks.half_edges_to_remove@.contains(k),
            decreases marks.half_edges_to_remove@.len() - e,
        {
            voronoi.remove_half_edge(marks.half_edges_to_remove[e]);
            e += 1;
        }
        let keys = voronoi.get_half_edge_indices();
        let ghost thinned = *voronoi;
        let mut v: usize = 0;
        while v < marks.vertices_to_remove.len()
            invariant
                voronoi.wf(),
                v <= marks.vertices_to_remove@.len(),
                voronoi.faces() == grown.faces(),
                voronoi.face_order() == grown.face_order(),
                voronoi.half_edges() == thinned.half_edges(),
                old(voronoi).twins_paired() ==> thinned.twins_agree(),
                forall|k: HalfEdgeKey| keys@.contains(k) <==> voronoi.half_edges().contains_key(k),
                grown.ends_present() ==> voronoi.ends_present(),
                marks.vertices_to_remove@.len() == 0 ==> voronoi.vertices() == grown.vertices(),
                self.all_outside(&grown, marks.vertices_to_remove@),
                forall|w: VertexKey| #[trigger]
                    grown.vertices().contains_key(w) ==> (voronoi.vertices().contains_key(w)
                        && voronoi.vertices()[w] == grown.vertices()[w]) || (
                    !voronoi.vertices().contains_key(w) && !self.contains_spec(
                        grown.vertices()[w].point,
                    ) && voronoi.is_loose(w)),
                forall|w: VertexKey| #[trigger]
                    voronoi.vertices().contains_key(w) ==> grown.vertices().contains_key(w),
                forall|j: int|
                    0 <= j < v && voronoi.is_loose(#[trigger] marks.vertices_to_remove@[j])
                        ==> !voronoi.vertices().contains_key(marks.vertices_to_remove@[j]),
                forall|w: VertexKey| #[trigger]
                    grown.vertices().contains_key(w) && !voronoi.vertices().contains_key(w)
                        ==> marks.vertices_to_remove@.contains(w),
            decreases marks.vertices_to_remove@.len() - v,
        {
            let vertex = marks.vertices_to_remove[v];
            if voronoi.is_loose_among(&keys, vertex) {
                voronoi.remove_vertex(vertex);
            }
            v += 1;
        }
        proof {
            assert forall|w: VertexKey| #[trigger] old(voronoi).vertices().contains_key(w) implies (
            voronoi.vertices().contains_key(w) && voronoi.vertices()[w] == old(voronoi).vertices()[w])
                || (!voronoi.vertices().contains_key(w) && !self.contains_spec(
                old(voronoi).vertices()[w].point,
            ) && voronoi.is_loose(w)) by {
                assert(grown.vertices().contains_key(w));
            }
            assert forall|k: FaceKey| #[trigger] old(voronoi).faces().contains_key(k) implies voronoi.faces()[k].point
                == old(voronoi).faces()[k].point by {}
            assert(Self::marked_gone(&grown, &marks, voronoi));
            assert(self.faces_clipped(
                clip,
                old(voronoi),
                stages,
                notes,
                old(voronoi).face_order().len() as int,
            ));
        }
        Ok(())
    }
}

/// The first `i` steps of a walk do not depend on what is noted behind them.
pub proof fn lemma_walled_extends(
    half_edges: Map<HalfEdgeKey, HalfEdge>,
    start_edge: HalfEdgeKey,
    face: FaceKey,
    walls: Seq<HalfEdgeKey>,
    more_walls: Seq<HalfEdgeKey>,
    corners: Seq<VertexKey>,
    more_corners: Seq<VertexKey>,
    i: nat,
)
    requires
        i <= walls.len() <= more_walls.len(),
        i <= corners.len() <= more_corners.len(),
        forall|j: int| 0 <= j < walls.len() ==> walls[j] == more_walls[j],
        forall|j: int| 0 <= j < corners.len() ==> corners[j] == more_corners[j],
    ensures
        walled(half_edges, start_edge, face, walls, corners, i) == walled(
            half_edges,
            start_edge,
            face,
            more_walls,
            more_corners,
            i,
        ),
    decreases i,
{
    if i > 0 {
        lemma_walled_extends(
            half_edges,
            start_edge,
            face,
            walls,
            more_walls,
            corners,
            more_corners,
            (i - 1) as nat,
        );
    }
}

/// The first `i` corners of a walk do not depend on what is noted behind them.
pub proof fn lemma_cornered_extends(
    vertices: Map<VertexKey, Vertex>,
    bbox: BoundingBox,
    side: Side,
    corners: Seq<VertexKey>,
    more_corners: Seq<VertexKey>,
    i: nat,
)
    requires
        i <= corners.len() <= more_corners.len(),
        forall|j: int| 0 <= j < corners.len() ==> corners[j] == more_corners[j],
    ensures
        cornered(vertices, bbox, side, corners, i) == cornered(vertices, bbox, side, more_corners, i),
    decreases i,
{
    if i > 0 {
        lemma_cornered_extends(vertices, bbox, side, corners, more_corners, (i - 1) as nat);
    }
}

/// A box of numbers, grown to hold a point of numbers, holds it and all it held.
pub proof fn lemma_grown_contains(bbox: BoundingBox, point: Point, other: Point)
    requires
        bbox.left.is_number(),
        bbox.right.is_number(),
        bbox.top.is_number(),
        bbox.bottom.is_number(),
        point.x.is_number(),
        point.y.is_number(),
    ensures
        bbox.grown_spec(point).contains_spec(point),
        bbox.contains_spec(other) ==> bbox.grown_spec(point).contains_spec(other),
        bbox.grown_spec(point).left.is_number(),
        bbox.grown_spec(point).right.is_number(),
        bbox.grown_spec(point).top.is_number(),
        bbox.grown_spec(point).bottom.is_number(),
{
}

} // verus!
