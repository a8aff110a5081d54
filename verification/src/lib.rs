//! Packing of axis-aligned rectangles into one bounding rectangle.
//!
//! [`PackSolver`] takes the sizes of a set of rectangles and gives each of
//! them a place, so that no two overlap: the layout of a texture atlas. The
//! layout is a function of the sizes, [`layout::layout`], and the solver is
//! proved to compute it.
//!
//! What holds of every layout is proved beside it: every rectangle is placed
//! once ([`consistency`]), no two rectangles overlap and the dimensions are
//! those of the smallest box around them ([`separation`]), the layout is no
//! larger than the sizes added up ([`limits`]), it scales with the
//! rectangles ([`scaling`]) and does not depend on their arrangement as long
//! as equal sizes keep their order ([`rearranging`]).

pub mod consistency;
pub mod geometry;
pub mod growth;
pub mod job;
pub mod layout;
pub mod limits;
pub mod order;
pub mod rearranging;
pub mod rows;
pub mod scaling;
pub mod selection;
pub mod separation;
pub mod solver;

pub use crate::geometry::{Point2, Vector2};
pub use crate::solver::{Pack, PackSolver};
