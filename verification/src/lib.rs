//! The intersection-resolution step of a sweep-line algorithm for boolean
//! operations on planar polygons.
//!
//! A sweep keeps the edges of two polygons, the subject and the clip, as
//! pairs of events, one for each endpoint. Whenever two edges become
//! neighbours on the sweep line, [`possible_intersection::possible_intersection`]
//! resolves how they meet: it cuts edges that cross, at the crossing point,
//! and edges that overlap, at each other's endpoints, and it types
//! overlapping edges that start at one point. Cutting is the work of
//! [`divide_segment::divide_segment`].
//!
//! How two edges meet is found by a geometric predicate outside this crate
//! and handed in as a [`intersection::LineIntersection`]. The crate itself
//! never computes with coordinates. It compares points, and so takes each
//! coordinate as an ordinate: an integer that is equal for equal
//! coordinates and smaller for a smaller coordinate.
//!
//! The events live in an [`queue::EventQueue`], which gives each a stable id
//! and lists those that wait to be processed. In which order waiting events
//! are taken out is the business of the sweep.
//!
//! Every function has a contract over the mathematical content of the
//! queue, a [`queue::QueueModel`]. The modules `outcomes` and `invariants`
//! prove what a resolution leaves behind and what it keeps.

pub mod divide_segment;
pub mod event;
pub mod intersection;
pub mod invariants;
pub mod outcomes;
pub mod point;
pub mod possible_intersection;
pub mod queue;
