//! Bounded Voronoi diagrams of point sites in the plane, by Fortune's sweep.
//!
//! The diagram is a doubly connected edge list: faces, vertices and half edges held in
//! pools and named by stable keys. This crate holds the combinatorial side of the
//! construction: the edge list, the beachline tree, the event queue with cancellable slots,
//! the handlers of site and circle events, and the passes that close and clip the diagram
//! against a box. Coordinates are IEEE-754 doubles held as the integers that order them
//! (see [`scalar::Scalar`]); whatever needs floating-point arithmetic (circumcentres,
//! breakpoints, intersections with the box) is handed in by the caller as values or as
//! functions.
pub mod scalar;
pub mod typedvector;
pub mod voronoi;
pub mod pool;
pub mod diagram;
pub mod tree;
pub mod event;
pub mod queue;
pub mod error;
pub mod beachline;
pub mod voronoi_builder;
pub mod steady;
pub mod ties;
pub mod boundingbox;
pub mod delauney;
