//! Neighbourhood-based clustering of a set of points.
//!
//! Each point has the `k` nearest of the other points as its near
//! neighbours, together with all that tie with the `k`-th of them. A point is
//! dense if at least as many points have it as a near neighbour as it has
//! near neighbours itself. Clusters are seeded at dense points and spread
//! through dense points to their near neighbours; what no cluster reaches
//! stays unclassified.
//!
//! The library works on whole numbers only. The distances between the
//! points come in as a [`distance::DistanceTable`] of unsigned numbers that
//! are ordered as the distances are, and a density factor goes out as the
//! two counts whose quotient it is.

pub mod distance;
pub mod drawer;
pub mod evaluation;
pub mod nbc;
pub mod neighbourhood;
pub mod ranking;
pub mod records;
pub mod settings;
