//! Closest pair of points in the plane.
//!
//! Two algorithms over a sequence of integer-coordinate points: an
//! exhaustive quadratic scan and a divide-and-conquer method with a
//! strip-based combine step. Distances are compared through exact squared
//! Euclidean distances, so results carry no rounding error.

pub mod brute_force;
pub mod divide_and_conquer;
pub mod geometry;
pub mod sorting;
pub mod strip;
