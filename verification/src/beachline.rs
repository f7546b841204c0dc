use vstd::prelude::*;
use crate::boundingbox::{BoundingBox, Side};
use crate::diagram::{Diagram, FaceKey, HalfEdge, HalfEdgeKey, Vertex, VertexKey};
use crate::pool::POOL_LIMIT;
use crate::error::BuildError;
use crate::queue::QueueIndex;
use crate::scalar::{Point, Scalar};
use crate::steady::edges_apart;
use crate::tree::{NodeKey, Tree};

verus! {

/// An arc of the beachline: a stretch of the parabola of one site.
///
/// `left_half_edge` runs along the edge that bounds the arc on the left, `right_half_edge`
/// along the one on the right, each with the face of the arc on its side. `event_index` is
/// the handle of the circle event that is scheduled for the arc, or the null handle.
#[derive(Clone, Copy, Debug)]
pub struct Arc {
    pub face: Option<FaceKey>,
    pub left_half_edge: Option<HalfEdgeKey>,
    pub right_half_edge: Option<HalfEdgeKey>,
    pub event_index: QueueIndex,
}

/// A record of the closing of the edges that a sweep has left open.
///
/// `seams` are the diagrams while the edges between arcs are ended, with `leaving` and
/// `coming`, the half edges that end on the box and set out from it, each with the side.
/// `keys` are the half edges that are looked at for their far side then, `fars` the
/// diagrams on the way and `tops` the half edges that were ended there so far, each with
/// its twin and the side. `links` are the diagrams while those are linked, with `met`, the
/// marks of the twins that were met, and `left`, the half edges that leave the box as they
/// are noted on the way. `chains` are the diagrams while the borders are closed.
pub struct Closing {
    pub seams: Seq<Diagram>,
    pub leaving: Seq<(HalfEdgeKey, Side)>,
    pub coming: Seq<(HalfEdgeKey, Side)>,
    pub keys: Seq<HalfEdgeKey>,
    pub fars: Seq<Diagram>,
    pub tops: Seq<Seq<(HalfEdgeKey, HalfEdgeKey, Side)>>,
    pub links: Seq<Diagram>,
    pub met: Seq<Seq<bool>>,
    pub left: Seq<Seq<(HalfEdgeKey, Side)>>,
    pub chains: Seq<Diagram>,
}

impl Arc {
    /// A new arc of `face`, with no edges and no event.
    pub open spec fn fresh(face: FaceKey) -> Arc {
        Arc {
            face: Some(face),
            left_half_edge: None,
            right_half_edge: None,
            event_index: QueueIndex { id: None },
        }
    }

    pub fn new(face: FaceKey) -> (r: Self)
        ensures
            r == Self::fresh(face),
    {
        Arc {
            face: Some(face),
            left_half_edge: None,
            right_half_edge: None,
            event_index: QueueIndex::new(),
        }
    }
}

/// Where the arc above a point lies, seen from one arc of the beachline.
#[derive(Clone, Copy, PartialEq, Eq, Structural, Debug)]
pub enum Descent {
    /// Further left.
    Left,
    /// Further right.
    Right,
    /// It is this arc.
    Here,
    /// The point is the site of this arc.
    Duplicate,
}

/// Where a new site comes to stand on the beachline.
#[derive(Clone, Copy, PartialEq, Eq, Structural, Debug)]
pub enum Located {
    /// Below the arc `arc`, which it splits.
    Above { arc: NodeKey },
    /// On the sweep line like the site of the arc `arc`, right beside that arc: behind it
    /// if `after` holds, else before it.
    Beside { arc: NodeKey, after: bool },
}

/// The beachline: the arcs from left to right, in a tree.
pub struct Beachline {
    pub tree: Tree<Arc>,
}

impl Beachline {
    /// The nodes of the arcs from left to right.
    #[verifier::inline]
    pub open spec fn order(&self) -> Seq<NodeKey> {
        self.tree.order()
    }

    /// The arcs, each under its node.
    #[verifier::inline]
    pub open spec fn arcs(&self) -> Map<NodeKey, Arc> {
        self.tree.entries()
    }

    /// The tree is in order and in balance, and every arc has a face.
    pub open spec fn wf(&self) -> bool {
        &&& self.tree.wf()
        &&& self.tree.balanced()
        &&& forall|node: NodeKey| #[trigger]
            self.tree.has(node) ==> self.arcs()[node].face.is_some()
    }

    /// Every arc of the beachline is an arc of a face of the diagram.
    pub open spec fn fits(&self, voronoi: &Diagram) -> bool {
        forall|node: NodeKey| #[trigger]
            self.tree.has(node) ==> self.arcs()[node].face.is_some() && voronoi.faces().contains_key(
                self.arcs()[node].face.unwrap(),
            )
    }

    /// The beachline is `before` with `arc` at `node`: the order and the other arcs are the
    /// same, and so is the way in which the tree is linked.
    pub open spec fn changed(&self, before: &Beachline, node: NodeKey, arc: Arc) -> bool {
        &&& self.tree.wf()
        &&& self.same_nodes(before)
        &&& self.order() == before.order()
        &&& self.arcs() == before.arcs().insert(node, arc)
    }

    /// The beachline has the nodes of `before`, linked and ranked in the same way, and is
    /// in balance where `before` is.
    pub open spec fn same_nodes(&self, before: &Beachline) -> bool {
        &&& self.tree.same_shape(&before.tree)
        &&& before.tree.balanced() ==> self.tree.balanced()
        &&& forall|node: NodeKey| #[trigger] self.tree.has(node) == before.tree.has(node)
        &&& forall|node: NodeKey| #[trigger] self.tree.rank(node) == before.tree.rank(node)
    }

    /// The decision at one arc. `level` says that the site of the arc lies on the sweep
    /// line; `left` and `right` are the breakpoints of the arc with its neighbours.
    pub open spec fn decide_spec(x: Scalar, focus: Point, level: bool, left: Scalar, right: Scalar) -> Descent {
        if level {
            if x.lt_spec(focus.x) {
                Descent::Left
            } else if focus.x.lt_spec(x) {
                Descent::Right
            } else {
                Descent::Duplicate
            }
        } else if x.lt_spec(left) {
            Descent::Left
        } else if right.lt_spec(x) {
            Descent::Right
        } else {
            Descent::Here
        }
    }

    /// Decides at one arc where the arc above a point with abscissa `x` lies.
    pub fn decide(x: Scalar, focus: Point, level: bool, left: Scalar, right: Scalar) -> (r: Descent)
        ensures
            r == Self::decide_spec(x, focus, level, left, right),
    {
        if level {
            if x.lt(&focus.x) {
                Descent::Left
            } else if x.gt(&focus.x) {
                Descent::Right
            } else {
                Descent::Duplicate
            }
        } else if x.lt(&left) {
            Descent::Left
        } else if x.gt(&right) {
            Descent::Right
        } else {
            Descent::Here
        }
    }

    pub fn new() -> (r: Self)
        ensures
            r.wf(),
            r.order() == Seq::<NodeKey>::empty(),
            r.arcs() == Map::<NodeKey, Arc>::empty(),
            r.tree.root_key().is_none(),
    {
        let r = Beachline { tree: Tree::new() };
        proof {
            r.tree.lemma_empty();
        }
        r
    }

    /// Makes the first arc of a beachline that has none.
    pub fn create_root(&mut self, face: FaceKey) -> (r: NodeKey)
        requires
            old(self).wf(),
            old(self).tree.order().len() == 0,
        ensures
            final(self).wf(),
            final(self).order() == seq![r],
            final(self).arcs() == Map::<NodeKey, Arc>::empty().insert(r, Arc::fresh(face)),
            final(self).tree.root_key() == Some(r),
            !old(self).arcs().contains_key(r),
    {
        self.tree.create_root(Arc::new(face))
    }

    pub fn get_arc_face(&self, node: NodeKey) -> (r: Option<FaceKey>)
        requires
            self.tree.has(node),
        ensures
            r == self.arcs()[node].face,
    {
        let arc = self.tree.get_contents(node);
        arc.face
    }

    pub fn set_left_half_edge(&mut self, node: NodeKey, left_half_edge: Option<HalfEdgeKey>)
        requires
            old(self).tree.wf(),
            old(self).tree.has(node),
        ensures
            final(self).changed(old(self), node, Arc { left_half_edge, ..old(self).arcs()[node] }),
    {
        let arc = *self.tree.get_contents(node);
        self.tree.set_contents(
            node,
            Arc {
                face: arc.face,
                left_half_edge,
                right_half_edge: arc.right_half_edge,
                event_index: arc.event_index,
            },
        );
        proof {
            self.tree.lemma_same_shape(&old(self).tree);
        }
    }

    pub fn get_left_half_edge(&self, node: NodeKey) -> (r: Option<HalfEdgeKey>)
        requires
            self.tree.has(node),
        ensures
            r == self.arcs()[node].left_half_edge,
    {
        let arc = self.tree.get_contents(node);
        arc.left_half_edge
    }

    pub fn set_right_half_edge(&mut self, node: NodeKey, right_half_edge: Option<HalfEdgeKey>)
        requires
            old(self).tree.wf(),
            old(self).tree.has(node),
        ensures
            final(self).changed(old(self), node, Arc { right_half_edge, ..old(self).arcs()[node] }),
    {
        let arc = *self.tree.get_contents(node);
        self.tree.set_contents(
            node,
            Arc {
                face: arc.face,
                left_half_edge: arc.left_half_edge,
                right_half_edge,
                event_index: arc.event_index,
            },
        );
        proof {
            self.tree.lemma_same_shape(&old(self).tree);
        }
    }

    pub fn get_right_half_edge(&self, node: NodeKey) -> (r: Option<HalfEdgeKey>)
        requires
            self.tree.has(node),
        ensures
            r == self.arcs()[node].right_half_edge,
    {
        let arc = self.tree.get_contents(node);
        arc.right_half_edge
    }

    pub fn set_arc_event(&mut self, node: NodeKey, event: QueueIndex)
        requires
            old(self).tree.wf(),
            old(self).tree.has(node),
        ensures
            final(self).changed(old(self), node, Arc { event_index: event, ..old(self).arcs()[node] }),
    {
        let arc = *self.tree.get_contents(node);
        self.tree.set_contents(
            node,
            Arc {
                face: arc.face,
                left_half_edge: arc.left_half_edge,
                right_half_edge: arc.right_half_edge,
                event_index: event,
            },
        );
        proof {
            self.tree.lemma_same_shape(&old(self).tree);
        }
    }

    pub fn get_arc_event(&self, node: NodeKey) -> (r: QueueIndex)
        requires
            self.tree.has(node),
        ensures
            r == self.arcs()[node].event_index,
    {
        let arc = self.tree.get_contents(node);
        arc.event_index
    }

    /// The site of the face of an arc.
    pub open spec fn focus(&self, node: NodeKey, voronoi: &Diagram) -> Point {
        voronoi.faces()[self.arcs()[node].face.unwrap()].point
    }

    /// `level`, `left` and `right` are what was found at the arc `node` with the sweep line
    /// at `y`: `near` said `level` of the site of the arc and the sweep line; and where it
    /// said no, `breakpoint` gave `left` and `right` for the arc and its neighbours, or
    /// there is no neighbour and the breakpoint lies at infinity.
    pub open spec fn found_at<N: Fn(Scalar, Scalar) -> bool, B: Fn(Point, Point, Scalar) -> Scalar>(
        &self,
        node: NodeKey,
        y: Scalar,
        voronoi: &Diagram,
        near: &N,
        breakpoint: &B,
        level: bool,
        left: Scalar,
        right: Scalar,
    ) -> bool {
        let rank = self.tree.rank(node);
        &&& call_ensures(*near, (self.focus(node, voronoi).y, y), level)
        &&& !level ==> if rank > 0 {
            call_ensures(
                *breakpoint,
                (self.focus(self.tree.order()[rank - 1], voronoi), self.focus(node, voronoi), y),
                left,
            )
        } else {
            left.key == -crate::scalar::INFINITY_KEY
        }
        &&& !level ==> if rank + 1 < self.tree.order().len() {
            call_ensures(
                *breakpoint,
                (self.focus(node, voronoi), self.focus(self.tree.order()[rank + 1], voronoi), y),
                right,
            )
        } else {
            right.key == crate::scalar::INFINITY_KEY
        }
    }

    /// With what `near` and `breakpoint` answered at the arc `node`, where `near` said
    /// `level`, the decision there was `descent`.
    pub open spec fn decided_at<N: Fn(Scalar, Scalar) -> bool, B: Fn(Point, Point, Scalar) -> Scalar>(
        &self,
        node: NodeKey,
        point: Point,
        y: Scalar,
        voronoi: &Diagram,
        near: &N,
        breakpoint: &B,
        level: bool,
        descent: Descent,
    ) -> bool {
        self.tree.has(node) && exists|left: Scalar, right: Scalar| #[trigger]
            self.found_at(node, y, voronoi, near, breakpoint, level, left, right)
                && Self::decide_spec(point.x, self.focus(node, voronoi), level, left, right)
                == descent
    }

    /// At the arc `node`, where `near` said `level`, the decision led to the child `child`:
    /// to the left child on `Left` and to the right child on `Right`.
    pub open spec fn went<N: Fn(Scalar, Scalar) -> bool, B: Fn(Point, Point, Scalar) -> Scalar>(
        &self,
        node: NodeKey,
        child: NodeKey,
        point: Point,
        y: Scalar,
        voronoi: &Diagram,
        near: &N,
        breakpoint: &B,
        level: bool,
    ) -> bool {
        ||| self.decided_at(node, point, y, voronoi, near, breakpoint, level, Descent::Left)
            && self.tree.left_of(node) == Some(child)
        ||| self.decided_at(node, point, y, voronoi, near, breakpoint, level, Descent::Right)
            && self.tree.right_of(node) == Some(child)
    }

    /// Step `i` of a search: the decision at the arc at place `i` of the path led to the
    /// arc behind it.
    pub open spec fn stepped<N: Fn(Scalar, Scalar) -> bool, B: Fn(Point, Point, Scalar) -> Scalar>(
        &self,
        path: Seq<NodeKey>,
        i: int,
        point: Point,
        y: Scalar,
        voronoi: &Diagram,
        near: &N,
        breakpoint: &B,
    ) -> bool {
        exists|level: bool| #[trigger]
            self.went(path[i], path[i + 1], point, y, voronoi, near, breakpoint, level)
    }

    /// The search for the arc above `point` has gone down the tree along `path`: from the
    /// root, and at each arc to the child that the decision there led to.
    pub open spec fn descended<N: Fn(Scalar, Scalar) -> bool, B: Fn(Point, Point, Scalar) -> Scalar>(
        &self,
        path: Seq<NodeKey>,
        point: Point,
        y: Scalar,
        voronoi: &Diagram,
        near: &N,
        breakpoint: &B,
    ) -> bool {
        &&& path.len() > 0
        &&& self.tree.root_key() == Some(path[0])
        &&& forall|i: int|
            0 <= i < path.len() - 1 ==> #[trigger] self.stepped(path, i, point, y, voronoi, near, breakpoint)
    }

    /// The search for the arc above `point` comes to the arc `node`: see `descended`.
    pub open spec fn reached<N: Fn(Scalar, Scalar) -> bool, B: Fn(Point, Point, Scalar) -> Scalar>(
        &self,
        node: NodeKey,
        point: Point,
        y: Scalar,
        voronoi: &Diagram,
        near: &N,
        breakpoint: &B,
    ) -> bool {
        exists|path: Seq<NodeKey>|
            (#[trigger] self.descended(path, point, y, voronoi, near, breakpoint)) && path.last() == node
    }

    /// What `locate_arc_above` found, by what it returns.
    pub open spec fn located<N: Fn(Scalar, Scalar) -> bool, B: Fn(Point, Point, Scalar) -> Scalar>(
        &self,
        point: Point,
        y: Scalar,
        voronoi: &Diagram,
        near: &N,
        breakpoint: &B,
        r: Result<Located, BuildError>,
    ) -> bool {
        match r {
            Ok(Located::Above { arc }) => self.decided_at(
                arc,
                point,
                y,
                voronoi,
                near,
                breakpoint,
                false,
                Descent::Here,
            ) && self.reached(arc, point, y, voronoi, near, breakpoint),
            Ok(Located::Beside { arc, after }) => self.decided_at(
                arc,
                point,
                y,
                voronoi,
                near,
                breakpoint,
                true,
                if after {
                    Descent::Right
                } else {
                    Descent::Left
                },
            ) && (if after {
                self.tree.right_of(arc).is_none()
            } else {
                self.tree.left_of(arc).is_none()
            }) && self.reached(arc, point, y, voronoi, near, breakpoint),
            Err(BuildError::DuplicateSite) => exists|node: NodeKey|
                (#[trigger] self.decided_at(
                    node,
                    point,
                    y,
                    voronoi,
                    near,
                    breakpoint,
                    true,
                    Descent::Duplicate,
                )) && self.reached(node, point, y, voronoi, near, breakpoint),
            Err(BuildError::GeometryInvariant) => self.tree.root_key().is_none() || (exists|
                node: NodeKey,
            |
                (#[trigger] self.decided_at(node, point, y, voronoi, near, breakpoint, false, Descent::Left))
                    && self.tree.left_of(node).is_none() && self.reached(
                    node,
                    point,
                    y,
                    voronoi,
                    near,
                    breakpoint,
                )) || (exists|node: NodeKey|
                (#[trigger] self.decided_at(node, point, y, voronoi, near, breakpoint, false, Descent::Right))
                    && self.tree.right_of(node).is_none() && self.reached(
                    node,
                    point,
                    y,
                    voronoi,
                    near,
                    breakpoint,
                )),
            Err(BuildError::NonFiniteInput) => false,
        }
    }

    /// A search goes on by one step.
    pub proof fn lemma_descended_on<N: Fn(Scalar, Scalar) -> bool, B: Fn(Point, Point, Scalar) -> Scalar>(
        &self,
        path: Seq<NodeKey>,
        child: NodeKey,
        point: Point,
        y: Scalar,
        voronoi: &Diagram,
        near: &N,
        breakpoint: &B,
        level: bool,
    )
        requires
            self.descended(path, point, y, voronoi, near, breakpoint),
            self.went(path.last(), child, point, y, voronoi, near, breakpoint, level),
        ensures
            self.descended(path.push(child), point, y, voronoi, near, breakpoint),
    {
        let more = path.push(child);
        assert forall|i: int| 0 <= i < more.len() - 1 implies #[trigger] self.stepped(
            more,
            i,
            point,
            y,
            voronoi,
            near,
            breakpoint,
        ) by {
            if i < path.len() - 1 {
                assert(self.stepped(path, i, point, y, voronoi, near, breakpoint));
                let was = choose|was: bool| #[trigger]
                    self.went(path[i], path[i + 1], point, y, voronoi, near, breakpoint, was);
                assert(self.went(more[i], more[i + 1], point, y, voronoi, near, breakpoint, was));
            } else {
                assert(self.went(more[i], more[i + 1], point, y, voronoi, near, breakpoint, level));
            }
        }
    }

    /// Finds the arc that lies above a new site `point`, with the sweep line at `y`.
    ///
    /// The search goes down the tree from the root and decides at each arc as `decide`
    /// says, on what `near` and `breakpoint` answer. It ends at the arc for which the
    /// decision is `Here`: the arc lies above the site. Where the decision at an arc
    /// whose own site lies on the sweep line leads to a side on which the tree has
    /// nothing, the place of the site is right beside that arc, on that side. The search
    /// fails with `DuplicateSite` at an arc whose site is `point`, and with
    /// `GeometryInvariant` where the beachline is empty or the decision at an arc whose
    /// site lies off the sweep line leads to a side on which the tree has nothing.
    pub fn locate_arc_above<N: Fn(Scalar, Scalar) -> bool, B: Fn(Point, Point, Scalar) -> Scalar>(
        &self,
        point: Point,
        y: Scalar,
        voronoi: &Diagram,
        near: &N,
        breakpoint: &B,
    ) -> (r: Result<Located, BuildError>)
        requires
            self.wf(),
            self.fits(voronoi),
            voronoi.wf(),
            forall|a: Scalar, b: Scalar| call_requires(*near, (a, b)),
            forall|a: Point, b: Point, c: Scalar| call_requires(*breakpoint, (a, b, c)),
        ensures
            self.located(point, y, voronoi, near, breakpoint, r),
            match r {
                Ok(Located::Above { arc }) => self.tree.has(arc),
                Ok(Located::Beside { arc, .. }) => self.tree.has(arc),
                Err(_) => true,
            },
    {
        let mut current_arc = match self.tree.root() {
            Some(root) => root,
            None => {
                return Err(BuildError::GeometryInvariant);
            },
        };
        proof {
            self.tree.lemma_order();
        }
        let ghost mut path: Seq<NodeKey> = seq![current_arc];
        loop
            invariant
                self.wf(),
                self.fits(voronoi),
                voronoi.wf(),
                self.tree.has(current_arc),
                self.descended(path, point, y, voronoi, near, breakpoint),
                path.last() == current_arc,
                forall|a: Scalar, b: Scalar| call_requires(*near, (a, b)),
                forall|a: Point, b: Point, c: Scalar| call_requires(*breakpoint, (a, b, c)),
            decreases self.tree.end_below(current_arc) - self.tree.first_below(current_arc),
        {
            proof {
                self.tree.lemma_children(current_arc);
                self.tree.lemma_rank(current_arc);
            }
            let face = self.get_arc_face(current_arc).unwrap();
            let current_arc_focus = voronoi.get_face_point(face);
            let level = near(current_arc_focus.y, y);
            let mut breakpoint_left = Scalar::neg_infinity();
            let mut breakpoint_right = Scalar::infinity();
            if !level {
                let prev = self.tree.get_prev(current_arc);
                let next = self.tree.get_next(current_arc);
                match prev {
                    Some(prev) => {
                        proof {
                            self.tree.lemma_rank_at(self.tree.rank(current_arc) - 1, prev);
                        }
                        let prev_face = self.get_arc_face(prev).unwrap();
                        breakpoint_left =
                        breakpoint(voronoi.get_face_point(prev_face), current_arc_focus, y);
                    },
                    None => {},
                }
                match next {
                    Some(next) => {
                        proof {
                            self.tree.lemma_rank_at(self.tree.rank(current_arc) + 1, next);
                        }
                        let next_face = self.get_arc_face(next).unwrap();
                        breakpoint_right =
                        breakpoint(current_arc_focus, voronoi.get_face_point(next_face), y);
                    },
                    None => {},
                }
            }
            let descent = Self::decide(
                point.x,
                current_arc_focus,
                level,
                breakpoint_left,
                breakpoint_right,
            );
            proof {
                assert(self.found_at(
                    current_arc,
                    y,
                    voronoi,
                    near,
                    breakpoint,
                    level,
                    breakpoint_left,
                    breakpoint_right,
                ));
                assert(self.decided_at(
                    current_arc,
                    point,
                    y,
                    voronoi,
                    near,
                    breakpoint,
                    level,
                    descent,
                ));
            }
            match descent {
                Descent::Here => {
                    return Ok(Located::Above { arc: current_arc });
                },
                Descent::Duplicate => {
                    return Err(BuildError::DuplicateSite);
                },
                Descent::Left => {
                    match self.tree.get_left(current_arc) {
                        Some(left) => {
                            proof {
                                self.lemma_descended_on(path, left, point, y, voronoi, near, breakpoint, level);
                                path = path.push(left);
                            }
                            current_arc = left;
                        },
                        None => {
                            if level {
                                return Ok(Located::Beside { arc: current_arc, after: false });
                            }
                            return Err(BuildError::GeometryInvariant);
                        },
                    }
                },
                Descent::Right => {
                    match self.tree.get_right(current_arc) {
                        Some(right) => {
                            proof {
                                self.lemma_descended_on(path, right, point, y, voronoi, near, breakpoint, level);
                                path = path.push(right);
                            }
                            current_arc = right;
                        },
                        None => {
                            if level {
                                return Ok(Located::Beside { arc: current_arc, after: true });
                            }
                            return Err(BuildError::GeometryInvariant);
                        },
                    }
                },
            }
        }
    }

    /// The half edge at the start of the chain of `prev` that ends in `half_edge`, if the
    /// chain has a start within `fuel` half edges.
    pub open spec fn start_of(
        half_edges: Map<HalfEdgeKey, HalfEdge>,
        half_edge: HalfEdgeKey,
        fuel: nat,
    ) -> Option<HalfEdgeKey>
        decreases fuel,
    {
        if fuel == 0 || !half_edges.contains_key(half_edge) {
            None
        } else {
            match half_edges[half_edge].prev {
                None => Some(half_edge),
                Some(prev) => Self::start_of(half_edges, prev, (fuel - 1) as nat),
            }
        }
    }

    /// The half edge at the start of the chain of `prev` that ends in `half_edge`, if the
    /// chain has a start within as many half edges as the diagram has.
    pub fn chain_start(voronoi: &Diagram, half_edge: HalfEdgeKey) -> (r: Option<HalfEdgeKey>)
        requires
            voronoi.wf(),
        ensures
            r == Self::start_of(voronoi.half_edges(), half_edge, voronoi.half_edge_total()),
            r.is_some() ==> voronoi.half_edges().contains_key(r.unwrap())
                && voronoi.half_edges()[r.unwrap()].prev.is_none(),
    {
        let limit = voronoi.half_edge_count();
        let mut current_edge = half_edge;
        let mut steps: usize = 0;
        while steps < limit
            invariant
                voronoi.wf(),
                steps <= limit,
                limit == voronoi.half_edge_total(),
                Self::start_of(voronoi.half_edges(), half_edge, limit as nat) == Self::start_of(
                    voronoi.half_edges(),
                    current_edge,
                    (limit - steps) as nat,
                ),
            decreases limit - steps,
        {
            if !voronoi.has_half_edge(current_edge) {
                return None;
            }
            match voronoi.get_half_edge_prev(current_edge) {
                None => {
                    return Some(current_edge);
                },
                Some(prev) => {
                    current_edge = prev;
                },
            }
            steps += 1;
        }
        None
    }

    /// Whether a half edge of the list is on the face.
    fn has_edge_on(voronoi: &Diagram, list: &Vec<(HalfEdgeKey, HalfEdgeKey, Side)>, second: bool, face: FaceKey) -> (r:
        Option<usize>)
        requires
            voronoi.wf(),
        ensures
            match r {
                Some(found) => found < list@.len() && Self::edge_on(voronoi, list@, second, face, found as int)
                    && forall|j: int| 0 <= j < found ==> !Self::edge_on(voronoi, list@, second, face, j),
                None => forall|j: int| 0 <= j < list@.len() ==> !Self::edge_on(voronoi, list@, second, face, j),
            },
    {
        let mut i: usize = 0;
        while i < list.len()
            invariant
                voronoi.wf(),
                i <= list@.len(),
                forall|j: int| 0 <= j < i ==> !Self::edge_on(voronoi, list@, second, face, j),
            decreases list@.len() - i,
        {
            let edge = if second {
                list[i].1
            } else {
                list[i].0
            };
            if voronoi.has_half_edge(edge) && voronoi.get_half_edge_incident_face(edge) == Some(face) {
                return Some(i);
            }
            i += 1;
        }
        None
    }

    /// The half edge at place `i` of the list, the first of the pair or the second, is in
    /// the diagram and on the face.
    pub open spec fn edge_on(
        voronoi: &Diagram,
        list: Seq<(HalfEdgeKey, HalfEdgeKey, Side)>,
        second: bool,
        face: FaceKey,
        i: int,
    ) -> bool {
        let edge = if second {
            list[i].1
        } else {
            list[i].0
        };
        voronoi.half_edges().contains_key(edge) && voronoi.half_edges()[edge].incident_face == Some(face)
    }

    /// The edge between the arc at place `i` and the arc behind it ends at `vertex`, a new
    /// vertex at the point `met.0`, which is where `exit` has the edge between the sites of
    /// the two arcs leave the box: the right half edge of the one arc sets out from it and
    /// the left half edge of the other ends there.
    pub open spec fn seam_ends_at<R: Fn(BoundingBox, Point, Point) -> (Point, Side)>(
        &self,
        before: &Diagram,
        after: &Diagram,
        bbox: BoundingBox,
        exit: &R,
        i: int,
        vertex: VertexKey,
        met: (Point, Side),
    ) -> bool {
        let left = self.arcs()[self.order()[i]];
        let right = self.arcs()[self.order()[i + 1]];
        &&& call_ensures(
            *exit,
            (bbox, before.faces()[left.face.unwrap()].point, before.faces()[right.face.unwrap()].point),
            met,
        )
        &&& left.right_half_edge.is_some()
        &&& right.left_half_edge.is_some()
        &&& after.half_edges().contains_key(left.right_half_edge.unwrap())
        &&& after.half_edges().contains_key(right.left_half_edge.unwrap())
        &&& after.half_edges()[left.right_half_edge.unwrap()].origin == Some(vertex)
        &&& after.half_edges()[right.left_half_edge.unwrap()].destination == Some(vertex)
        &&& !before.vertices().contains_key(vertex)
        &&& after.vertices().contains_key(vertex)
        &&& after.vertices()[vertex].point == met.0
    }

    /// The edge between the arc at place `i` and the arc behind it has got its end on the
    /// box: see `seam_ends_at`.
    pub open spec fn seam_ended<R: Fn(BoundingBox, Point, Point) -> (Point, Side)>(
        &self,
        before: &Diagram,
        after: &Diagram,
        bbox: BoundingBox,
        exit: &R,
        i: int,
    ) -> bool {
        exists|vertex: VertexKey, met: (Point, Side)| #[trigger]
            self.seam_ends_at(before, after, bbox, exit, i, vertex, met)
    }

    /// What ends at a vertex in `middle` ends there in `after`, where the ends and the
    /// vertices of `middle` are held.
    pub proof fn lemma_seam_held<R: Fn(BoundingBox, Point, Point) -> (Point, Side)>(
        &self,
        before: &Diagram,
        middle: &Diagram,
        after: &Diagram,
        bbox: BoundingBox,
        exit: &R,
        i: int,
        vertex: VertexKey,
        met: (Point, Side),
    )
        requires
            self.seam_ends_at(before, middle, bbox, exit, i, vertex, met),
            after.ends_held(middle),
            after.grown(middle),
        ensures
            self.seam_ends_at(before, after, bbox, exit, i, vertex, met),
    {
        let left = self.arcs()[self.order()[i]];
        let right = self.arcs()[self.order()[i + 1]];
        assert(middle.half_edges().contains_key(left.right_half_edge.unwrap()));
        assert(middle.half_edges().contains_key(right.left_half_edge.unwrap()));
        assert(middle.vertices().contains_key(vertex));
    }

    /// `after` is `before` with a new vertex `vertex` at `point` as the origin of the half
    /// edge `from` and the destination of the half edge `to`.
    pub open spec fn end_put(
        before: &Diagram,
        after: &Diagram,
        from: HalfEdgeKey,
        to: HalfEdgeKey,
        vertex: VertexKey,
        point: Point,
    ) -> bool {
        let first = before.half_edges().insert(
            from,
            HalfEdge { origin: Some(vertex), ..before.half_edges()[from] },
        );
        &&& !before.vertices().contains_key(vertex)
        &&& after.vertices() == before.vertices().insert(vertex, Vertex { point })
        &&& after.faces() == before.faces()
        &&& after.half_edges() == first.insert(to, HalfEdge { destination: Some(vertex), ..first[to] })
    }

    /// The edge between the arc at place `i` and the arc behind it cannot be ended: one of
    /// the two arcs lacks its half edge of it, or that half edge is not in the diagram, or
    /// the pool of vertices is full.
    pub open spec fn seam_refused(&self, i: int, voronoi: &Diagram) -> bool {
        let left = self.arcs()[self.order()[i]];
        let right = self.arcs()[self.order()[i + 1]];
        ||| left.right_half_edge.is_none()
        ||| right.left_half_edge.is_none()
        ||| !voronoi.half_edges().contains_key(left.right_half_edge.unwrap())
        ||| !voronoi.half_edges().contains_key(right.left_half_edge.unwrap())
        ||| voronoi.vertex_total() >= POOL_LIMIT
    }

    /// The edge between the arc at place `i` and the arc behind it was ended where `exit`
    /// has it leave the box: a new vertex there is the origin of the right half edge of the
    /// one arc, noted as `come` with the side of the box, and the destination of the left
    /// half edge of the other, noted as `leave`.
    pub open spec fn seam_step<R: Fn(BoundingBox, Point, Point) -> (Point, Side)>(
        &self,
        bbox: BoundingBox,
        exit: &R,
        i: int,
        before: &Diagram,
        after: &Diagram,
        leave: (HalfEdgeKey, Side),
        come: (HalfEdgeKey, Side),
    ) -> bool {
        let left = self.arcs()[self.order()[i]];
        let right = self.arcs()[self.order()[i + 1]];
        &&& !self.seam_refused(i, before)
        &&& left.right_half_edge == Some(come.0)
        &&& right.left_half_edge == Some(leave.0)
        &&& leave.1 == come.1
        &&& exists|vertex: VertexKey, met: (Point, Side)|
            (#[trigger] Self::end_put(before, after, come.0, leave.0, vertex, met.0)) && met.1 == come.1
                && call_ensures(
                *exit,
                (
                    bbox,
                    before.faces()[left.face.unwrap()].point,
                    before.faces()[right.face.unwrap()].point,
                ),
                met,
            )
    }

    /// The half edge is open on the far side: it has no destination, and its twin, which
    /// is in the diagram, no origin.
    pub open spec fn open_far(voronoi: &Diagram, edge: HalfEdgeKey) -> bool {
        let own = voronoi.half_edges()[edge];
        &&& voronoi.half_edges().contains_key(edge)
        &&& own.destination.is_none()
        &&& own.twin.is_some()
        &&& voronoi.half_edges().contains_key(own.twin.unwrap())
        &&& voronoi.half_edges()[own.twin.unwrap()].origin.is_none()
    }

    /// A half edge that is open on the far side cannot be ended there: it or its twin has
    /// no face of the diagram, or the pool of vertices is full.
    pub open spec fn far_refused(voronoi: &Diagram, edge: HalfEdgeKey) -> bool {
        let own = voronoi.half_edges()[edge];
        let other = voronoi.half_edges()[own.twin.unwrap()];
        &&& Self::open_far(voronoi, edge)
        &&& {
            ||| own.incident_face.is_none()
            ||| other.incident_face.is_none()
            ||| !voronoi.faces().contains_key(own.incident_face.unwrap())
            ||| !voronoi.faces().contains_key(other.incident_face.unwrap())
            ||| voronoi.vertex_total() >= POOL_LIMIT
        }
    }

    /// `after` is `before` with a new vertex `vertex` at `point` as the destination of the
    /// half edge `edge` and the origin of the half edge `twin`.
    pub open spec fn far_put(
        before: &Diagram,
        after: &Diagram,
        edge: HalfEdgeKey,
        twin: HalfEdgeKey,
        vertex: VertexKey,
        point: Point,
    ) -> bool {
        let first = before.half_edges().insert(
            edge,
            HalfEdge { destination: Some(vertex), ..before.half_edges()[edge] },
        );
        &&& !before.vertices().contains_key(vertex)
        &&& after.vertices() == before.vertices().insert(vertex, Vertex { point })
        &&& after.faces() == before.faces()
        &&& after.half_edges() == first.insert(twin, HalfEdge { origin: Some(vertex), ..first[twin] })
    }

    /// One half edge was looked at for its far side: where it is open there (see
    /// `open_far`), it was ended where `exit` has the edge between the site of its twin and
    /// its own leave the box, and noted with its twin and the side of the box; else
    /// nothing was done.
    pub open spec fn far_step<R: Fn(BoundingBox, Point, Point) -> (Point, Side)>(
        bbox: BoundingBox,
        exit: &R,
        edge: HalfEdgeKey,
        before: &Diagram,
        after: &Diagram,
        tops: Seq<(HalfEdgeKey, HalfEdgeKey, Side)>,
        more: Seq<(HalfEdgeKey, HalfEdgeKey, Side)>,
    ) -> bool {
        let own = before.half_edges()[edge];
        let twin = own.twin.unwrap();
        let other = before.half_edges()[twin];
        if !Self::open_far(before, edge) {
            BoundingBox::same_parts(before, after) && more == tops
        } else {
            &&& !Self::far_refused(before, edge)
            &&& exists|vertex: VertexKey, met: (Point, Side)|
                (#[trigger] Self::far_put(before, after, edge, twin, vertex, met.0)) && more == tops.push(
                    (edge, twin, met.1),
                ) && call_ensures(
                    *exit,
                    (
                        bbox,
                        before.faces()[other.incident_face.unwrap()].point,
                        before.faces()[own.incident_face.unwrap()].point,
                    ),
                    met,
                )
        }
    }

    /// The place `other` is the first of the list at which the twin is on the face.
    pub open spec fn first_on(
        voronoi: &Diagram,
        tops: Seq<(HalfEdgeKey, HalfEdgeKey, Side)>,
        face: FaceKey,
        other: int,
    ) -> bool {
        &&& 0 <= other < tops.len()
        &&& Self::edge_on(voronoi, tops, true, face, other)
        &&& forall|j: int| 0 <= j < other ==> !Self::edge_on(voronoi, tops, true, face, j)
    }

    /// The half edge at place `t` of the list, which ends on the box, was linked along the
    /// box to the twin at place `other`, the first that is on its face, which sets out
    /// from the box; and that twin was marked as met.
    pub open spec fn linked_to(
        bbox: BoundingBox,
        tops: Seq<(HalfEdgeKey, HalfEdgeKey, Side)>,
        t: int,
        other: int,
        before: &Diagram,
        after: &Diagram,
        met: Seq<bool>,
        more: Seq<bool>,
    ) -> bool {
        let face = before.half_edges()[tops[t].0].incident_face.unwrap();
        &&& Self::first_on(before, tops, face, other)
        &&& more == met.update(other, true)
        &&& exists|walls: Seq<HalfEdgeKey>, corners: Seq<VertexKey>| #[trigger]
            bbox.border_closed(
                before,
                after,
                (tops[t].0, tops[t].2),
                (tops[other].1, tops[other].2),
                walls,
                corners,
            )
    }

    /// The half edge at place `t` of the list cannot be linked: it is not in the diagram
    /// or has no face, or the border cannot be closed from it to the first twin on its face
    /// (see `BoundingBox::can_link`).
    pub open spec fn link_refused(
        tops: Seq<(HalfEdgeKey, HalfEdgeKey, Side)>,
        t: int,
        voronoi: &Diagram,
    ) -> bool {
        let own = voronoi.half_edges()[tops[t].0];
        ||| !voronoi.half_edges().contains_key(tops[t].0)
        ||| own.incident_face.is_none()
        ||| exists|other: int|
            (#[trigger] Self::first_on(voronoi, tops, own.incident_face.unwrap(), other))
                && !BoundingBox::can_link(voronoi, tops[t].0, tops[t].2, tops[other].1, tops[other].2)
    }

    /// One half edge that was ended on the far side was linked: to the first twin of the
    /// list on its face (see `linked_to`), or, where there is none, it was noted with the
    /// half edges that leave the box.
    pub open spec fn link_step(
        bbox: BoundingBox,
        tops: Seq<(HalfEdgeKey, HalfEdgeKey, Side)>,
        t: int,
        before: &Diagram,
        after: &Diagram,
        met: Seq<bool>,
        more: Seq<bool>,
        left: Seq<(HalfEdgeKey, Side)>,
        more_left: Seq<(HalfEdgeKey, Side)>,
    ) -> bool {
        let own = before.half_edges()[tops[t].0];
        &&& before.half_edges().contains_key(tops[t].0)
        &&& own.incident_face.is_some()
        &&& {
            ||| more_left == left && exists|other: int| #[trigger]
                Self::linked_to(bbox, tops, t, other, before, after, met, more)
            ||| (forall|j: int|
                0 <= j < tops.len() ==> !Self::edge_on(
                    before,
                    tops,
                    true,
                    own.incident_face.unwrap(),
                    j,
                )) && BoundingBox::same_parts(before, after) && more == met && more_left == left.push(
                (tops[t].0, tops[t].2),
            )
        }
    }

    /// The twins among the first `upto` of the list that were not met, each with its side.
    pub open spec fn unmet(tops: Seq<(HalfEdgeKey, HalfEdgeKey, Side)>, met: Seq<bool>, upto: nat) -> Seq<
        (HalfEdgeKey, Side),
    >
        decreases upto,
    {
        if upto == 0 {
            Seq::empty()
        } else {
            let rest = Self::unmet(tops, met, (upto - 1) as nat);
            if !met[upto - 1] {
                rest.push((tops[upto - 1].1, tops[upto - 1].2))
            } else {
                rest
            }
        }
    }

    /// The place `j` is the first of the list that holds the half edge.
    pub open spec fn first_coming(coming: Seq<(HalfEdgeKey, Side)>, edge: HalfEdgeKey, j: int) -> bool {
        &&& 0 <= j < coming.len()
        &&& coming[j].0 == edge
        &&& forall|k: int| 0 <= k < j ==> (#[trigger] coming[k]).0 != edge
    }

    /// The border cannot be closed from the half edge at place `i` of those that leave the
    /// box: its chain of `prev` has no start, or the start is none of the half edges that
    /// set out from the box, or the border cannot be closed along the box from the one to
    /// the other (see `BoundingBox::can_link`).
    pub open spec fn chain_refused(
        leaving: Seq<(HalfEdgeKey, Side)>,
        coming: Seq<(HalfEdgeKey, Side)>,
        i: int,
        voronoi: &Diagram,
    ) -> bool {
        let start = Self::start_of(voronoi.half_edges(), leaving[i].0, voronoi.half_edge_total());
        ||| start.is_none()
        ||| forall|j: int| 0 <= j < coming.len() ==> (#[trigger] coming[j]).0 != start.unwrap()
        ||| exists|j: int|
            (#[trigger] Self::first_coming(coming, start.unwrap(), j)) && !BoundingBox::can_link(
                voronoi,
                leaving[i].0,
                leaving[i].1,
                coming[j].0,
                coming[j].1,
            )
    }

    /// The border of a face was closed along the box from the half edge at place `i` of
    /// those that leave the box to the start of its chain of `prev`, which is found among
    /// the half edges that set out from the box.
    pub open spec fn chain_step(
        bbox: BoundingBox,
        leaving: Seq<(HalfEdgeKey, Side)>,
        coming: Seq<(HalfEdgeKey, Side)>,
        i: int,
        before: &Diagram,
        after: &Diagram,
    ) -> bool {
        let start = Self::start_of(before.half_edges(), leaving[i].0, before.half_edge_total());
        &&& start.is_some()
        &&& exists|j: int|
            (#[trigger] Self::first_coming(coming, start.unwrap(), j)) && exists|
                walls: Seq<HalfEdgeKey>,
                corners: Seq<VertexKey>,
            | #[trigger]
                bbox.border_closed(before, after, leaving[i], coming[j], walls, corners)
    }

    /// The first `done` edges between arcs were ended, one after the other: see
    /// `seam_step`.
    pub open spec fn seams_done<R: Fn(BoundingBox, Point, Point) -> (Point, Side)>(
        &self,
        bbox: BoundingBox,
        exit: &R,
        c: Closing,
        done: int,
    ) -> bool {
        &&& 0 <= done
        &&& c.seams.len() == done + 1
        &&& c.leaving.len() == done
        &&& c.coming.len() == done
        &&& forall|i: int|
            0 <= i < done ==> #[trigger] self.seam_step(
                bbox,
                exit,
                i,
                &c.seams[i],
                &c.seams[i + 1],
                c.leaving[i],
                c.coming[i],
            )
    }

    /// The first `done` half edges of the diagram were looked at for their far side, one
    /// after the other: see `far_step`.
    pub open spec fn fars_done<R: Fn(BoundingBox, Point, Point) -> (Point, Side)>(
        bbox: BoundingBox,
        exit: &R,
        c: Closing,
        done: int,
    ) -> bool {
        &&& 0 <= done <= c.keys.len()
        &&& c.fars.len() == done + 1
        &&& c.tops.len() == done + 1
        &&& c.fars[0] == c.seams.last()
        &&& c.keys == c.seams.last().half_edge_order()
        &&& c.tops[0].len() == 0
        &&& forall|k: int|
            0 <= k < done ==> #[trigger] Self::far_step(
                bbox,
                exit,
                c.keys[k],
                &c.fars[k],
                &c.fars[k + 1],
                c.tops[k],
                c.tops[k + 1],
            )
    }

    /// The first `done` half edges that were ended on the far side were linked, one after
    /// the other: see `link_step`.
    pub open spec fn links_done(bbox: BoundingBox, c: Closing, done: int) -> bool {
        let tops = c.tops.last();
        &&& 0 <= done <= tops.len()
        &&& c.links.len() == done + 1
        &&& c.met.len() == done + 1
        &&& c.left.len() == done + 1
        &&& c.links[0] == c.fars.last()
        &&& c.met[0].len() == tops.len()
        &&& forall|j: int| 0 <= j < tops.len() ==> !(#[trigger] c.met[0][j])
        &&& c.left[0] == c.leaving
        &&& forall|t: int|
            0 <= t < done ==> #[trigger] Self::link_step(
                bbox,
                tops,
                t,
                &c.links[t],
                &c.links[t + 1],
                c.met[t],
                c.met[t + 1],
                c.left[t],
                c.left[t + 1],
            )
    }

    /// The half edges that set out from the box when the borders are closed: those of the
    /// edges between arcs, and the twins that were ended on the far side and not met.
    pub open spec fn all_coming(c: Closing) -> Seq<(HalfEdgeKey, Side)> {
        c.coming + Self::unmet(c.tops.last(), c.met.last(), c.tops.last().len())
    }

    /// The borders were closed from the first `done` half edges that leave the box, one
    /// after the other: see `chain_step`.
    pub open spec fn chains_done(bbox: BoundingBox, c: Closing, done: int) -> bool {
        &&& 0 <= done <= c.left.last().len()
        &&& c.chains.len() == done + 1
        &&& c.chains[0] == c.links.last()
        &&& forall|i: int|
            0 <= i < done ==> #[trigger] Self::chain_step(
                bbox,
                c.left.last(),
                Self::all_coming(c),
                i,
                &c.chains[i],
                &c.chains[i + 1],
            )
    }

    /// The edges were closed as the record says: every edge between two arcs was ended,
    /// every half edge of the diagram was looked at for its far side, every half edge that
    /// was ended there was linked, and the border was closed from every half edge that
    /// leaves the box; `after` is what that left.
    pub open spec fn closed_by<R: Fn(BoundingBox, Point, Point) -> (Point, Side)>(
        &self,
        c: Closing,
        bbox: BoundingBox,
        exit: &R,
        before: &Diagram,
        after: &Diagram,
    ) -> bool {
        &&& c.seams[0] == *before
        &&& self.seams_done(bbox, exit, c, self.order().len() - 1)
        &&& Self::fars_done(bbox, exit, c, c.keys.len() as int)
        &&& Self::links_done(bbox, c, c.tops.last().len() as int)
        &&& Self::chains_done(bbox, c, c.left.last().len() as int)
        &&& c.chains.last() == *after
    }

    /// The closing of the edges came as far as the record says and was refused at the next
    /// step: see `seam_refused`, `far_refused`, `link_refused` and `chain_refused`.
    pub open spec fn refused_by<R: Fn(BoundingBox, Point, Point) -> (Point, Side)>(
        &self,
        c: Closing,
        bbox: BoundingBox,
        exit: &R,
        before: &Diagram,
    ) -> bool {
        let seams = c.seams.len() - 1;
        let fars = c.fars.len() - 1;
        let links = c.links.len() - 1;
        let chains = c.chains.len() - 1;
        &&& c.seams[0] == *before
        &&& self.seams_done(bbox, exit, c, seams)
        &&& {
            ||| seams < self.order().len() - 1 && self.seam_refused(seams, &c.seams.last())
            ||| seams == self.order().len() - 1 && Self::fars_done(bbox, exit, c, fars) && {
                ||| fars < c.keys.len() && Self::far_refused(&c.fars.last(), c.keys[fars])
                ||| fars == c.keys.len() && Self::links_done(bbox, c, links) && {
                    ||| links < c.tops.last().len() && Self::link_refused(
                        c.tops.last(),
                        links,
                        &c.links.last(),
                    )
                    ||| links == c.tops.last().len() && Self::chains_done(bbox, c, chains) && chains
                        < c.left.last().len() && Self::chain_refused(
                        c.left.last(),
                        Self::all_coming(c),
                        chains,
                        &c.chains.last(),
                    )
                }
            }
        }
    }

    /// The ending of the edges between arcs goes on by one step.
    pub proof fn lemma_seams_on<R: Fn(BoundingBox, Point, Point) -> (Point, Side)>(
        &self,
        bbox: BoundingBox,
        exit: &R,
        c: Closing,
        done: int,
        after: Diagram,
        leave: (HalfEdgeKey, Side),
        come: (HalfEdgeKey, Side),
    )
        requires
            self.seams_done(bbox, exit, c, done),
            self.seam_step(bbox, exit, done, &c.seams.last(), &after, leave, come),
        ensures
            self.seams_done(
                bbox,
                exit,
                Closing {
                    seams: c.seams.push(after),
                    leaving: c.leaving.push(leave),
                    coming: c.coming.push(come),
                    ..c
                },
                done + 1,
            ),
    {
        let more = Closing {
            seams: c.seams.push(after),
            leaving: c.leaving.push(leave),
            coming: c.coming.push(come),
            ..c
        };
        assert forall|i: int| 0 <= i < done + 1 implies #[trigger] self.seam_step(
            bbox,
            exit,
            i,
            &more.seams[i],
            &more.seams[i + 1],
            more.leaving[i],
            more.coming[i],
        ) by {
            if i < done {
                assert(self.seam_step(bbox, exit, i, &c.seams[i], &c.seams[i + 1], c.leaving[i], c.coming[i]));
            }
        }
    }

    /// Makes a vertex at `point` the origin of the half edge `from` and the destination of
    /// the half edge `to`: see `end_put`. Returns the vertex.
    pub fn put_end(voronoi: &mut Diagram, from: HalfEdgeKey, to: HalfEdgeKey, point: Point) -> (vertex:
        VertexKey)
        requires
            old(voronoi).wf(),
            old(voronoi).half_edges().contains_key(from),
            old(voronoi).half_edges().contains_key(to),
            old(voronoi).vertex_total() < POOL_LIMIT,
        ensures
            final(voronoi).wf(),
            Self::end_put(old(voronoi), final(voronoi), from, to, vertex, point),
            final(voronoi).grown(old(voronoi)),
            old(voronoi).half_edges()[from].origin.is_none() && old(voronoi).half_edges()[to].destination.is_none()
                ==> final(voronoi).ends_held(old(voronoi)),
            final(voronoi).half_edges().dom() == old(voronoi).half_edges().dom(),
    {
        let vertex = voronoi.add_vertex(point);
        voronoi.set_half_edge_origin(from, Some(vertex));
        voronoi.set_half_edge_destination(to, Some(vertex));
        proof {
            assert(voronoi.half_edges().dom() =~= old(voronoi).half_edges().dom());
            assert(voronoi.faces() == old(voronoi).faces());
        }
        vertex
    }

    /// Makes a vertex at `point` the destination of the half edge `edge` and the origin of
    /// its twin `twin`: see `far_put`. Returns the vertex.
    pub fn put_far(voronoi: &mut Diagram, edge: HalfEdgeKey, twin: HalfEdgeKey, point: Point) -> (vertex:
        VertexKey)
        requires
            old(voronoi).wf(),
            old(voronoi).half_edges().contains_key(edge),
            old(voronoi).half_edges().contains_key(twin),
            old(voronoi).vertex_total() < POOL_LIMIT,
        ensures
            final(voronoi).wf(),
            Self::far_put(old(voronoi), final(voronoi), edge, twin, vertex, point),
            final(voronoi).grown(old(voronoi)),
            old(voronoi).half_edges()[edge].destination.is_none() && old(voronoi).half_edges()[twin].origin.is_none()
                ==> final(voronoi).ends_held(old(voronoi)),
            final(voronoi).half_edges().dom() == old(voronoi).half_edges().dom(),
    {
        let vertex = voronoi.add_vertex(point);
        voronoi.set_half_edge_destination(edge, Some(vertex));
        voronoi.set_half_edge_origin(twin, Some(vertex));
        proof {
            assert(voronoi.half_edges().dom() =~= old(voronoi).half_edges().dom());
            assert(voronoi.faces() == old(voronoi).faces());
        }
        vertex
    }

    /// Ends the edge between two arcs that follow each other where `exit` has it leave the
    /// box: see `seam_step`. Returns the half edge that ends on the box and the one that
    /// sets out from it, each with the side of the box. Fails with `GeometryInvariant`, and
    /// changes nothing, where the edge cannot be ended: see `seam_refused`.
    pub fn end_seam<R: Fn(BoundingBox, Point, Point) -> (Point, Side)>(
        &self,
        left_node: NodeKey,
        right: NodeKey,
        bbox: &BoundingBox,
        voronoi: &mut Diagram,
        exit: &R,
    ) -> (r: Result<((HalfEdgeKey, Side), (HalfEdgeKey, Side)), BuildError>)
        requires
            self.wf(),
            self.fits(old(voronoi)),
            old(voronoi).wf(),
            self.tree.has(left_node),
            self.tree.has(right),
            self.tree.rank(right) == self.tree.rank(left_node) + 1,
            forall|b: BoundingBox, p: Point, q: Point| call_requires(*exit, (b, p, q)),
        ensures
            final(voronoi).grown(old(voronoi)),
            final(voronoi).faces() == old(voronoi).faces(),
            final(voronoi).half_edges().dom() == old(voronoi).half_edges().dom(),
            match r {
                Ok((leave, come)) => self.seam_step(
                    *bbox,
                    exit,
                    self.tree.rank(left_node),
                    old(voronoi),
                    final(voronoi),
                    leave,
                    come,
                ),
                Err(e) => e == BuildError::GeometryInvariant && self.seam_refused(
                    self.tree.rank(left_node),
                    old(voronoi),
                ) && *final(voronoi) == *old(voronoi),
            },
    {
        proof {
            self.tree.lemma_rank(right);
            self.tree.lemma_rank(left_node);
            voronoi.lemma_finite();
        }
        let left_face = self.get_arc_face(left_node).unwrap();
        let right_face = self.get_arc_face(right).unwrap();
        let left_point = voronoi.get_face_point(left_face);
        let right_point = voronoi.get_face_point(right_face);
        let arriving_edge = match self.get_right_half_edge(left_node) {
            Some(edge) => edge,
            None => {
                return Err(BuildError::GeometryInvariant);
            },
        };
        let departing_edge = match self.get_left_half_edge(right) {
            Some(edge) => edge,
            None => {
                return Err(BuildError::GeometryInvariant);
            },
        };
        if !voronoi.has_half_edge(arriving_edge) || !voronoi.has_half_edge(departing_edge)
            || voronoi.vertex_count() >= POOL_LIMIT {
            return Err(BuildError::GeometryInvariant);
        }
        let intersection = exit(*bbox, left_point, right_point);
        let vertex = Self::put_end(voronoi, arriving_edge, departing_edge, intersection.0);
        proof {
            assert(Self::end_put(old(voronoi), voronoi, arriving_edge, departing_edge, vertex, intersection.0));
            assert(self.order()[self.tree.rank(left_node)] == left_node);
            assert(self.order()[self.tree.rank(left_node) + 1] == right);
            assert(call_ensures(*exit, (*bbox, left_point, right_point), intersection));
            assert(!self.seam_refused(self.tree.rank(left_node), old(voronoi)));
        }
        Ok(((departing_edge, intersection.1), (arriving_edge, intersection.1)))
    }

    /// Where the ending of the edges between arcs is refused, the closing of the edges is.
    pub proof fn lemma_seam_refused<R: Fn(BoundingBox, Point, Point) -> (Point, Side)>(
        &self,
        c: Closing,
        bbox: BoundingBox,
        exit: &R,
        before: &Diagram,
    )
        requires
            c.seams.len() > 0,
            c.seams[0] == *before,
            self.seams_done(bbox, exit, c, c.seams.len() - 1),
            c.seams.len() - 1 < self.order().len() - 1,
            self.seam_refused(c.seams.len() - 1, &c.seams.last()),
        ensures
            self.completion_refused(bbox, exit, before),
    {
        assert(self.refused_by(c, bbox, exit, before));
    }

    /// Where no half edge is the left half edge of two arcs, nor the right one of two, the
    /// ends that the edges between arcs were given one after the other are all there when
    /// the last was given.
    pub proof fn lemma_seams_apart<R: Fn(BoundingBox, Point, Point) -> (Point, Side)>(
        &self,
        bbox: BoundingBox,
        exit: &R,
        c: Closing,
        done: int,
    )
        requires
            self.tree.wf(),
            edges_apart(self.arcs()),
            self.seams_done(bbox, exit, c, done),
            done <= self.order().len() - 1,
        ensures
            c.seams[done].faces() == c.seams[0].faces(),
            forall|v: VertexKey| #[trigger]
                c.seams[0].vertices().contains_key(v) ==> c.seams[done].vertices().contains_key(v),
            forall|i: int|
                0 <= i < done ==> #[trigger] self.seam_ended(&c.seams[0], &c.seams[done], bbox, exit, i),
        decreases done,
    {
        if done > 0 {
            let less = Closing {
                seams: c.seams.drop_last(),
                leaving: c.leaving.drop_last(),
                coming: c.coming.drop_last(),
                ..c
            };
            assert forall|i: int| 0 <= i < done - 1 implies #[trigger] self.seam_step(
                bbox,
                exit,
                i,
                &less.seams[i],
                &less.seams[i + 1],
                less.leaving[i],
                less.coming[i],
            ) by {
                assert(self.seam_step(bbox, exit, i, &c.seams[i], &c.seams[i + 1], c.leaving[i], c.coming[i]));
            }
            self.lemma_seams_apart(bbox, exit, less, done - 1);
            self.tree.lemma_order();
            let before = c.seams[done - 1];
            let after = c.seams[done];
            let last = done - 1;
            assert(self.seam_step(bbox, exit, last, &before, &after, c.leaving[last], c.coming[last]));
            let (vertex, met) = choose|vertex: VertexKey, met: (Point, Side)|
                (#[trigger] Self::end_put(&before, &after, c.coming[last].0, c.leaving[last].0, vertex, met.0))
                    && met.1 == c.coming[last].1 && call_ensures(
                    *exit,
                    (
                        bbox,
                        before.faces()[self.arcs()[self.order()[last]].face.unwrap()].point,
                        before.faces()[self.arcs()[self.order()[last + 1]].face.unwrap()].point,
                    ),
                    met,
                );
            assert(less.seams[0] == c.seams[0]);
            assert(less.seams[done - 1] == before);
            assert(self.seam_ends_at(&c.seams[0], &after, bbox, exit, last, vertex, met));
            assert forall|i: int| 0 <= i < done implies #[trigger] self.seam_ended(
                &c.seams[0],
                &after,
                bbox,
                exit,
                i,
            ) by {
                if i < last {
                    assert(self.seam_ended(&c.seams[0], &before, bbox, exit, i));
                    let (v, m) = choose|v: VertexKey, m: (Point, Side)| #[trigger]
                        self.seam_ends_at(&c.seams[0], &before, bbox, exit, i, v, m);
                    assert(self.tree.has(self.order()[i]));
                    assert(self.tree.has(self.order()[i + 1]));
                    assert(self.tree.has(self.order()[last]));
                    assert(self.tree.has(self.order()[last + 1]));
                    assert(self.order()[i] != self.order()[last]);
                    assert(self.order()[i + 1] != self.order()[last + 1]);
                    assert(self.seam_ends_at(&c.seams[0], &after, bbox, exit, i, v, m));
                }
            }
        }
    }

    /// Nothing is left to close: the beachline has one arc at most and the diagram no half
    /// edge.
    pub open spec fn is_quiet(&self, voronoi: &Diagram) -> bool {
        self.order().len() <= 1 && voronoi.half_edge_total() == 0
    }

    /// What `complete_edges` leaves where it succeeds: the diagram has grown, the ends of the
    /// edges between arcs are where they were put, and the steps were those of `closed_by`.
    pub open spec fn edges_completed<R: Fn(BoundingBox, Point, Point) -> (Point, Side)>(
        &self,
        bbox: BoundingBox,
        exit: &R,
        before: &Diagram,
        after: &Diagram,
    ) -> bool {
        &&& after.grown(before)
        &&& self.is_quiet(before) ==> BoundingBox::same_parts(before, after)
        &&& edges_apart(self.arcs()) ==> forall|i: int|
            0 <= i < self.order().len() - 1 ==> #[trigger] self.seam_ended(before, after, bbox, exit, i)
        &&& if self.order().len() == 0 {
            BoundingBox::same_parts(before, after)
        } else {
            exists|c: Closing| #[trigger] self.closed_by(c, bbox, exit, before, after)
        }
    }

    /// Why `complete_edges` fails: one of its steps was refused (see `refused_by`).
    pub open spec fn completion_refused<R: Fn(BoundingBox, Point, Point) -> (Point, Side)>(
        &self,
        bbox: BoundingBox,
        exit: &R,
        before: &Diagram,
    ) -> bool {
        self.order().len() > 0 && exists|c: Closing| #[trigger] self.refused_by(c, bbox, exit, before)
    }

    /// Closes the edges that are left open when the sweep has ended.
    ///
    /// Between every two arcs that follow each other an edge runs on to the box. `exit`
    /// gives, for the box and the sites of the two arcs, the point at which the edge meets
    /// the box and the side on which it does. A vertex is made there; it becomes the
    /// origin of the right half edge of the arc on the left and the destination of the
    /// left half edge of the arc on the right.
    ///
    /// An edge between two sites that the sweep line met at the same time, before any
    /// other, has no end on the far side either: a half edge without destination whose
    /// twin has no origin. It gets a vertex where `exit` says that the edge meets the box
    /// on that side. Where a face has such an edge on its left and on its right, its
    /// border is closed between them along the box.
    ///
    /// Then for every half edge that ends on the box, the border of its face is closed
    /// along the box up to the half edge of that face that sets out from the box (see
    /// `BoundingBox::link_vertices`).
    ///
    /// Where no half edge is the left half edge of two arcs, nor the right one of two, each
    /// of the vertices of the first step is still where it was put when all is done: see
    /// `seam_ended`. What is left is the outcome of these steps, one after the other: see
    /// `edges_completed`; and where a step is refused, `completion_refused` says which.
    ///
    /// Fails with `GeometryInvariant` where an arc lacks one of these half edges, where a
    /// half edge is not in the diagram or has no face, where `exit` names no side, where
    /// no half edge of the face sets out from the box, or where the pools are full. What
    /// was done up to there stays.
    #[verifier::rlimit(100)]
    pub fn complete_edges<R: Fn(BoundingBox, Point, Point) -> (Point, Side)>(
        &self,
        bbox: &BoundingBox,
        voronoi: &mut Diagram,
        exit: &R,
    ) -> (r: Result<(), BuildError>)
        requires
            self.wf(),
            self.fits(old(voronoi)),
            old(voronoi).wf(),
            forall|b: BoundingBox, p: Point, q: Point| call_requires(*exit, (b, p, q)),
        ensures
            final(voronoi).grown(old(voronoi)),
            self.order().len() <= 1 && old(voronoi).half_edge_total() == 0 ==> r.is_ok() && final(voronoi).vertices()
                == old(voronoi).vertices() && final(voronoi).half_edges() == old(voronoi).half_edges()
                && final(voronoi).faces() == old(voronoi).faces(),
            r.is_err() ==> r == Err::<(), BuildError>(BuildError::GeometryInvariant),
            r.is_ok() && edges_apart(self.arcs()) ==> forall|i: int|
                0 <= i < self.order().len() - 1 ==> #[trigger] self.seam_ended(
                    old(voronoi),
                    final(voronoi),
                    *bbox,
                    exit,
                    i,
                ),
            r.is_ok() ==> self.edges_completed(*bbox, exit, old(voronoi), final(voronoi)),
            r.is_err() ==> self.completion_refused(*bbox, exit, old(voronoi)),
    {
        let mut departing_edges: Vec<(HalfEdgeKey, Side)> = Vec::new();
        let mut arriving_edges: Vec<(HalfEdgeKey, Side)> = Vec::new();
        let ghost total = self.order().len();
        let ghost quiet = self.order().len() <= 1 && old(voronoi).half_edge_total() == 0;
        proof {
            self.tree.lemma_order();
            old(voronoi).lemma_finite();
            assert(old(voronoi).half_edge_total() == 0 ==> forall|e: HalfEdgeKey|
                !old(voronoi).half_edges().contains_key(e)) by {
                if old(voronoi).half_edge_total() == 0 {
                    assert(old(voronoi).half_edges().dom() =~= Set::<HalfEdgeKey>::empty());
                }
            }
        }
        let mut left_node = match self.tree.get_leftmost_node() {
            Some(node) => node,
            None => {
                return Ok(());
            },
        };
        let mut right_node = self.tree.get_next(left_node);
        let ghost mut pairs: nat = 0;
        let ghost apart = edges_apart(self.arcs());
        let ghost mut c = Closing {
            seams: seq![*voronoi],
            leaving: Seq::empty(),
            coming: Seq::empty(),
            keys: Seq::empty(),
            fars: Seq::empty(),
            tops: Seq::empty(),
            links: Seq::empty(),
            met: Seq::empty(),
            left: Seq::empty(),
            chains: Seq::empty(),
        };
        while right_node.is_some()
            invariant
                self.wf(),
                c.seams[0] == *old(voronoi),
                c.seams.last() == *voronoi,
                c.leaving == departing_edges@,
                c.coming == arriving_edges@,
                self.seams_done(*bbox, exit, c, pairs as int),
                right_node.is_none() ==> pairs + 1 == total,
                self.fits(voronoi),
                voronoi.grown(old(voronoi)),
                quiet == (self.order().len() <= 1 && old(voronoi).half_edge_total() == 0),
                total == self.order().len(),
                self.tree.has(left_node),
                self.tree.rank(left_node) == pairs,
                pairs < total,
                right_node.is_some() ==> self.tree.has(right_node.unwrap()) && self.tree.rank(
                    right_node.unwrap(),
                ) == pairs + 1,
                quiet ==> pairs == 0 && total <= 1,
                departing_edges@.len() == pairs,
                quiet ==> forall|e: HalfEdgeKey| !voronoi.half_edges().contains_key(e),
                quiet ==> voronoi.vertices() == old(voronoi).vertices()
                    && voronoi.half_edges() == old(voronoi).half_edges() && voronoi.faces() == old(voronoi).faces(),
                forall|b: BoundingBox, p: Point, q: Point| call_requires(*exit, (b, p, q)),
            decreases total - pairs,
        {
            let right = right_node.unwrap();
            proof {
                self.tree.lemma_rank(right);
                self.tree.lemma_rank(left_node);
                voronoi.lemma_finite();
                assert(self.order()[pairs as int] == left_node);
                assert(self.order()[pairs as int + 1] == right);
            }
            let ghost before = *voronoi;
            let ended = self.end_seam(left_node, right, bbox, voronoi, exit);
            let ((departing_edge, departing_side), (arriving_edge, arriving_side)) = match ended {
                Ok(pair) => pair,
                Err(_) => {
                    proof {
                        self.lemma_seam_refused(c, *bbox, exit, old(voronoi));
                    }
                    return Err(BuildError::GeometryInvariant);
                },
            };
            proof {
                voronoi.lemma_grown_trans(&before, old(voronoi));
                self.lemma_seams_on(
                    *bbox,
                    exit,
                    c,
                    pairs as int,
                    *voronoi,
                    (departing_edge, departing_side),
                    (arriving_edge, arriving_side),
                );
                c = Closing {
                    seams: c.seams.push(*voronoi),
                    leaving: c.leaving.push((departing_edge, departing_side)),
                    coming: c.coming.push((arriving_edge, arriving_side)),
                    ..c
                };
            }
            departing_edges.push((departing_edge, departing_side));
            arriving_edges.push((arriving_edge, arriving_side));
            left_node = right;
            right_node = self.tree.get_next(left_node);
            proof {
                pairs = pairs + 1;
            }
        }
        let ghost swept = *voronoi;
        proof {
            assert(voronoi.ends_held(&swept));
            assert(voronoi.grown(&swept));
        }

        let keys = voronoi.get_half_edge_indices();
        let mut tops: Vec<(HalfEdgeKey, HalfEdgeKey, Side)> = Vec::new();
        let mut k: usize = 0;
        proof {
            c = Closing { keys: keys@, fars: seq![*voronoi], tops: seq![tops@], ..c };
        }
        while k < keys.len()
            invariant
                k <= keys@.len(),
                total == self.order().len(),
                total > 0,
                c.seams[0] == *old(voronoi),
                self.seams_done(*bbox, exit, c, total - 1),
                c.seams.last() == swept,
                Self::fars_done(*bbox, exit, c, k as int),
                c.fars.last() == *voronoi,
                c.tops.last() == tops@,
                c.keys == keys@,
                c.leaving == departing_edges@,
                c.coming == arriving_edges@,
                voronoi.grown(old(voronoi)),
                voronoi.grown(&swept),
                voronoi.ends_held(&swept),
                quiet == (self.order().len() <= 1 && old(voronoi).half_edge_total() == 0),
                quiet ==> keys@.len() == 0,
                quiet ==> tops@.len() == 0,
                quiet ==> departing_edges@.len() == 0,
                quiet ==> voronoi.vertices() == old(voronoi).vertices()
                    && voronoi.half_edges() == old(voronoi).half_edges() && voronoi.faces() == old(voronoi).faces(),
                forall|b: BoundingBox, p: Point, q: Point| call_requires(*exit, (b, p, q)),
            decreases keys@.len() - k,
        {
            let edge = keys[k];
            k += 1;
            let ghost here = *voronoi;
            if !voronoi.has_half_edge(edge) || voronoi.get_half_edge_destination(edge).is_some() {
                proof {
                    assert(Self::far_step(*bbox, exit, edge, &here, voronoi, tops@, tops@));
                    let more = Closing { fars: c.fars.push(*voronoi), tops: c.tops.push(tops@), ..c };
                    assert forall|n: int| 0 <= n < k implies #[trigger] Self::far_step(
                        *bbox,
                        exit,
                        more.keys[n],
                        &more.fars[n],
                        &more.fars[n + 1],
                        more.tops[n],
                        more.tops[n + 1],
                    ) by {
                        if n < k - 1 {
                            assert(Self::far_step(
                                *bbox,
                                exit,
                                c.keys[n],
                                &c.fars[n],
                                &c.fars[n + 1],
                                c.tops[n],
                                c.tops[n + 1],
                            ));
                        }
                    }
                    c = more;
                }
                continue ;
            }
            let twin = match voronoi.get_half_edge_twin(edge) {
                Some(twin) => twin,
                None => {
                    proof {
                    assert(Self::far_step(*bbox, exit, edge, &here, voronoi, tops@, tops@));
                    let more = Closing { fars: c.fars.push(*voronoi), tops: c.tops.push(tops@), ..c };
                    assert forall|n: int| 0 <= n < k implies #[trigger] Self::far_step(
                        *bbox,
                        exit,
                        more.keys[n],
                        &more.fars[n],
                        &more.fars[n + 1],
                        more.tops[n],
                        more.tops[n + 1],
                    ) by {
                        if n < k - 1 {
                            assert(Self::far_step(
                                *bbox,
                                exit,
                                c.keys[n],
                                &c.fars[n],
                                &c.fars[n + 1],
                                c.tops[n],
                                c.tops[n + 1],
                            ));
                        }
                    }
                    c = more;
                }
                continue ;
                },
            };
            if !voronoi.has_half_edge(twin) || voronoi.get_half_edge_origin(twin).is_some() {
                proof {
                    assert(Self::far_step(*bbox, exit, edge, &here, voronoi, tops@, tops@));
                    let more = Closing { fars: c.fars.push(*voronoi), tops: c.tops.push(tops@), ..c };
                    assert forall|n: int| 0 <= n < k implies #[trigger] Self::far_step(
                        *bbox,
                        exit,
                        more.keys[n],
                        &more.fars[n],
                        &more.fars[n + 1],
                        more.tops[n],
                        more.tops[n + 1],
                    ) by {
                        if n < k - 1 {
                            assert(Self::far_step(
                                *bbox,
                                exit,
                                c.keys[n],
                                &c.fars[n],
                                &c.fars[n + 1],
                                c.tops[n],
                                c.tops[n + 1],
                            ));
                        }
                    }
                    c = more;
                }
                continue ;
            }
            let near_face = match voronoi.get_half_edge_incident_face(edge) {
                Some(face) => face,
                None => {
                    proof {
                    assert(self.refused_by(c, *bbox, exit, old(voronoi)));
                }
                return Err(BuildError::GeometryInvariant);
                },
            };
            let far_face = match voronoi.get_half_edge_incident_face(twin) {
                Some(face) => face,
                None => {
                    proof {
                    assert(self.refused_by(c, *bbox, exit, old(voronoi)));
                }
                return Err(BuildError::GeometryInvariant);
                },
            };
            if !voronoi.has_face(near_face) || !voronoi.has_face(far_face) || voronoi.vertex_count()
                >= POOL_LIMIT {
                proof {
                    assert(self.refused_by(c, *bbox, exit, old(voronoi)));
                }
                return Err(BuildError::GeometryInvariant);
            }
            let intersection = exit(
                *bbox,
                voronoi.get_face_point(far_face),
                voronoi.get_face_point(near_face),
            );
            let ghost before = *voronoi;
            let vertex = Self::put_far(voronoi, edge, twin, intersection.0);
            proof {
                assert(voronoi.half_edges().dom() =~= before.half_edges().dom());
                assert(voronoi.faces() == before.faces());
                assert(voronoi.grown(&before));
                voronoi.lemma_grown_trans(&before, old(voronoi));
                voronoi.lemma_grown_trans(&before, &swept);
                assert(voronoi.ends_held(&before));
                voronoi.lemma_ends_held_trans(&before, &swept);
            }
            let ghost tops_before = tops@;
            tops.push((edge, twin, intersection.1));
            proof {
                assert(Self::far_put(&before, voronoi, edge, twin, vertex, intersection.0));
                assert(Self::far_step(*bbox, exit, edge, &here, voronoi, tops_before, tops@));
                let more = Closing { fars: c.fars.push(*voronoi), tops: c.tops.push(tops@), ..c };
                assert forall|n: int| 0 <= n < k implies #[trigger] Self::far_step(
                    *bbox,
                    exit,
                    more.keys[n],
                    &more.fars[n],
                    &more.fars[n + 1],
                    more.tops[n],
                    more.tops[n + 1],
                ) by {
                    if n < k - 1 {
                        assert(Self::far_step(
                            *bbox,
                            exit,
                            c.keys[n],
                            &c.fars[n],
                            &c.fars[n + 1],
                            c.tops[n],
                            c.tops[n + 1],
                        ));
                    }
                }
                c = more;
            }
        }
        let mut t: usize = 0;
        let mut met: Vec<bool> = Vec::new();
        while met.len() < tops.len()
            invariant
                met@.len() <= tops@.len(),
                forall|n: int| 0 <= n < met@.len() ==> !met@[n],
            decreases tops@.len() - met@.len(),
        {
            met.push(false);
        }
        proof {
            c = Closing { links: seq![*voronoi], met: seq![met@], left: seq![departing_edges@], ..c };
        }
        while t < tops.len()
            invariant
                t <= tops@.len(),
                met@.len() == tops@.len(),
                total == self.order().len(),
                total > 0,
                c.seams[0] == *old(voronoi),
                self.seams_done(*bbox, exit, c, total - 1),
                c.seams.last() == swept,
                Self::fars_done(*bbox, exit, c, c.keys.len() as int),
                Self::links_done(*bbox, c, t as int),
                c.links.last() == *voronoi,
                c.tops.last() == tops@,
                c.met.last() == met@,
                c.left.last() == departing_edges@,
                c.coming == arriving_edges@,
                voronoi.grown(old(voronoi)),
                voronoi.grown(&swept),
                voronoi.ends_held(&swept),
                quiet == (self.order().len() <= 1 && old(voronoi).half_edge_total() == 0),
                quiet ==> tops@.len() == 0,
                quiet ==> departing_edges@.len() == 0,
                quiet ==> voronoi.vertices() == old(voronoi).vertices()
                    && voronoi.half_edges() == old(voronoi).half_edges() && voronoi.faces() == old(voronoi).faces(),
            decreases tops@.len() - t,
        {
            let (edge, _twin, side) = tops[t];
            t += 1;
            let ghost here = *voronoi;
            let ghost met_before = met@;
            let ghost left_before = departing_edges@;
            if !voronoi.has_half_edge(edge) {
                proof {
                    assert(self.refused_by(c, *bbox, exit, old(voronoi)));
                }
                return Err(BuildError::GeometryInvariant);
            }
            let face = match voronoi.get_half_edge_incident_face(edge) {
                Some(face) => face,
                None => {
                    proof {
                    assert(self.refused_by(c, *bbox, exit, old(voronoi)));
                }
                return Err(BuildError::GeometryInvariant);
                },
            };
            match Self::has_edge_on(voronoi, &tops, true, face) {
                Some(other) => {
                    let ghost before = *voronoi;
                    let linked = bbox.try_link(voronoi, edge, side, tops[other].1, tops[other].2);
                    proof {
                        voronoi.lemma_grown_trans(&before, old(voronoi));
                        voronoi.lemma_grown_trans(&before, &swept);
                        voronoi.lemma_ends_held_trans(&before, &swept);
                    }
                    if linked.is_err() {
                        proof {
                            assert(Self::first_on(&here, tops@, face, other as int));
                            assert(Self::link_refused(tops@, t - 1, &here));
                            assert(self.refused_by(c, *bbox, exit, old(voronoi)));
                        }
                        return linked;
                    }
                    met.set(other, true);
                    proof {
                        assert(Self::first_on(&here, tops@, face, other as int));
                        assert(Self::linked_to(*bbox, tops@, t - 1, other as int, &here, voronoi, met_before, met@));
                    }
                },
                None => {
                    departing_edges.push((edge, side));
                },
            }
            proof {
                assert(Self::link_step(
                    *bbox,
                    tops@,
                    t - 1,
                    &here,
                    voronoi,
                    met_before,
                    met@,
                    left_before,
                    departing_edges@,
                ));
                let more = Closing {
                    links: c.links.push(*voronoi),
                    met: c.met.push(met@),
                    left: c.left.push(departing_edges@),
                    ..c
                };
                assert forall|n: int| 0 <= n < t implies #[trigger] Self::link_step(
                    *bbox,
                    more.tops.last(),
                    n,
                    &more.links[n],
                    &more.links[n + 1],
                    more.met[n],
                    more.met[n + 1],
                    more.left[n],
                    more.left[n + 1],
                ) by {
                    if n < t - 1 {
                        assert(Self::link_step(
                            *bbox,
                            c.tops.last(),
                            n,
                            &c.links[n],
                            &c.links[n + 1],
                            c.met[n],
                            c.met[n + 1],
                            c.left[n],
                            c.left[n + 1],
                        ));
                    }
                }
                c = more;
            }
        }
        let mut u: usize = 0;
        while u < tops.len()
            invariant
                u <= tops@.len(),
                met@.len() == tops@.len(),
                arriving_edges@ == c.coming + Self::unmet(tops@, met@, u as nat),
            decreases tops@.len() - u,
        {
            if !met[u] {
                arriving_edges.push((tops[u].1, tops[u].2));
            }
            u += 1;
        }

        let mut i: usize = 0;
        proof {
            c = Closing { chains: seq![*voronoi], ..c };
        }
        while i < departing_edges.len()
            invariant
                total == self.order().len(),
                total > 0,
                c.seams[0] == *old(voronoi),
                self.seams_done(*bbox, exit, c, total - 1),
                c.seams.last() == swept,
                Self::fars_done(*bbox, exit, c, c.keys.len() as int),
                Self::links_done(*bbox, c, c.tops.last().len() as int),
                Self::chains_done(*bbox, c, i as int),
                c.chains.last() == *voronoi,
                c.left.last() == departing_edges@,
                arriving_edges@ == Self::all_coming(c),
                voronoi.grown(old(voronoi)),
                voronoi.grown(&swept),
                voronoi.ends_held(&swept),
                quiet == (self.order().len() <= 1 && old(voronoi).half_edge_total() == 0),
                i <= departing_edges@.len(),
                quiet ==> departing_edges@.len() == 0,
                quiet ==> voronoi.vertices() == old(voronoi).vertices()
                    && voronoi.half_edges() == old(voronoi).half_edges() && voronoi.faces() == old(voronoi).faces(),
            decreases departing_edges@.len() - i,
        {
            let (departing_edge, departing_side) = departing_edges[i];
            let ghost here = *voronoi;
            let current_edge = match Self::chain_start(voronoi, departing_edge) {
                Some(edge) => edge,
                None => {
                    proof {
                        assert(Self::chain_refused(departing_edges@, arriving_edges@, i as int, &here));
                        assert(self.refused_by(c, *bbox, exit, old(voronoi)));
                    }
                    return Err(BuildError::GeometryInvariant);
                },
            };
            let mut found: Option<(HalfEdgeKey, Side)> = None;
            let mut j: usize = 0;
            while j < arriving_edges.len() && found.is_none()
                invariant
                    j <= arriving_edges@.len(),
                    forall|n: int| 0 <= n < j ==> (#[trigger] arriving_edges@[n]).0 != current_edge,
                    found.is_some() ==> j < arriving_edges@.len() && found == Some(arriving_edges@[j as int])
                        && arriving_edges@[j as int].0 == current_edge,
                decreases arriving_edges@.len() - j + (if found.is_none() { 1int } else { 0int }),
            {
                if arriving_edges[j].0 == current_edge {
                    found = Some(arriving_edges[j]);
                } else {
                    j += 1;
                }
            }
            let (arriving_edge, arriving_side) = match found {
                Some(pair) => pair,
                None => {
                    proof {
                        assert(Self::chain_refused(departing_edges@, arriving_edges@, i as int, &here));
                        assert(self.refused_by(c, *bbox, exit, old(voronoi)));
                    }
                    return Err(BuildError::GeometryInvariant);
                },
            };
            proof {
                assert(Self::first_coming(arriving_edges@, current_edge, j as int));
            }
            let ghost before = *voronoi;
            let linked = bbox.try_link(
                voronoi,
                departing_edge,
                departing_side,
                arriving_edge,
                arriving_side,
            );
            proof {
                voronoi.lemma_grown_trans(&before, old(voronoi));
                voronoi.lemma_grown_trans(&before, &swept);
                voronoi.lemma_ends_held_trans(&before, &swept);
            }
            if linked.is_err() {
                proof {
                    assert(Self::chain_refused(departing_edges@, arriving_edges@, i as int, &here));
                    assert(self.refused_by(c, *bbox, exit, old(voronoi)));
                }
                return linked;
            }
            proof {
                assert(Self::chain_step(*bbox, departing_edges@, arriving_edges@, i as int, &here, voronoi));
                let more = Closing { chains: c.chains.push(*voronoi), ..c };
                assert forall|n: int| 0 <= n < i + 1 implies #[trigger] Self::chain_step(
                    *bbox,
                    more.left.last(),
                    Self::all_coming(more),
                    n,
                    &more.chains[n],
                    &more.chains[n + 1],
                ) by {
                    if n < i {
                        assert(Self::chain_step(
                            *bbox,
                            c.left.last(),
                            Self::all_coming(c),
                            n,
                            &c.chains[n],
                            &c.chains[n + 1],
                        ));
                    }
                }
                c = more;
            }
            i += 1;
        }
        proof {
            if apart {
                self.lemma_seams_apart(*bbox, exit, c, total - 1);
                assert forall|i: int| 0 <= i < self.order().len() - 1 implies #[trigger] self.seam_ended(
                    old(voronoi),
                    voronoi,
                    *bbox,
                    exit,
                    i,
                ) by {
                    assert(c.seams[total - 1] == swept);
                    assert(self.seam_ended(&c.seams[0], &c.seams[total - 1], *bbox, exit, i));
                    let (vertex, met) = choose|vertex: VertexKey, met: (Point, Side)| #[trigger]
                        self.seam_ends_at(old(voronoi), &swept, *bbox, exit, i, vertex, met);
                    self.lemma_seam_held(old(voronoi), &swept, voronoi, *bbox, exit, i, vertex, met);
                }
            }
        }
        proof {
            assert(self.closed_by(c, *bbox, exit, old(voronoi), voronoi));
        }
        Ok(())
    }

    /// The arcs after the arc at `node` was broken in three for the site of `new_face`: the
    /// node holds a new arc of that face, and the nodes `sides` hold arcs of the face that
    /// the arc was of, the first with the left half edge of the old arc and the second
    /// with its right half edge.
    pub open spec fn broken(
        arcs: Map<NodeKey, Arc>,
        node: NodeKey,
        new_face: FaceKey,
        sides: (NodeKey, NodeKey),
    ) -> Map<NodeKey, Arc> {
        arcs.insert(node, Arc::fresh(new_face)).insert(
            sides.0,
            Arc { left_half_edge: arcs[node].left_half_edge, ..Arc::fresh(arcs[node].face.unwrap()) },
        ).insert(
            sides.1,
            Arc {
                right_half_edge: arcs[node].right_half_edge,
                ..Arc::fresh(arcs[node].face.unwrap())
            },
        )
    }

    /// Breaks the arc at `node` in three for a new site: the node becomes an arc of
    /// `new_face`, and on either side of it stands an arc of the face that it was of. The
    /// arc on the left has the left half edge of the old arc, the one on the right its
    /// right half edge. Returns the nodes of the arcs on the left and on the right.
    pub fn break_arc(&mut self, node: NodeKey, new_face: FaceKey) -> (r: (NodeKey, NodeKey))
        requires
            old(self).wf(),
            old(self).tree.has(node),
        ensures
            final(self).wf(),
            final(self).order() == old(self).order().insert(old(self).tree.rank(node), r.0).insert(
                old(self).tree.rank(node) + 2,
                r.1,
            ),
            final(self).tree.rank(r.0) == old(self).tree.rank(node),
            final(self).tree.rank(node) == old(self).tree.rank(node) + 1,
            final(self).tree.rank(r.1) == old(self).tree.rank(node) + 2,
            r.0 != r.1,
            !old(self).arcs().contains_key(r.0),
            !old(self).arcs().contains_key(r.1),
            final(self).arcs() == Self::broken(old(self).arcs(), node, new_face, r),
    {
        proof {
            self.tree.lemma_rank(node);
        }
        let left_half_edge = self.get_left_half_edge(node);
        let right_half_edge = self.get_right_half_edge(node);
        let arc_face = self.get_arc_face(node).unwrap();
        self.tree.set_contents(node, Arc::new(new_face));
        proof {
            self.tree.lemma_same_shape(&old(self).tree);
        }
        let ghost rank = old(self).tree.rank(node);
        let ghost first = *self;
        let left_arc = self.tree.insert_before(node, Arc::new(arc_face));
        let ghost second = *self;
        self.set_left_half_edge(left_arc, left_half_edge);
        let ghost third = *self;
        proof {
            third.tree.lemma_rank_at(rank + 1, node);
        }
        let right_arc = self.tree.insert_after(node, Arc::new(arc_face));
        let ghost fourth = *self;
        self.set_right_half_edge(right_arc, right_half_edge);
        proof {
            assert(self.arcs() =~= Self::broken(
                old(self).arcs(),
                node,
                new_face,
                (left_arc, right_arc),
            ));
            let rank = old(self).tree.rank(node);
            self.tree.lemma_rank_at(rank, left_arc);
            self.tree.lemma_rank_at(rank + 1, node);
            self.tree.lemma_rank_at(rank + 2, right_arc);
        }
        (left_arc, right_arc)
    }
}

} // verus!
