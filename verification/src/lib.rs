//! Exact-arithmetic core for triangulated solids of revolution.
//!
//! Geometry is modelled in fixed-point: a point stores integer numerators
//! and a mesh carries one common positive denominator, so every centroid,
//! volume and recentering step is computed exactly and its value is pinned
//! by a contract.  Floating-point front ends quantise their input into this
//! lattice, call the verified core, and convert the results back.

pub mod aggregate;
pub mod engine;
pub mod invariance;
pub mod profile;
pub mod recenter;
pub mod revolution;
pub mod scalar;
pub mod vector;

pub use aggregate::Rat2;
pub use aggregate::Rat3;
pub use aggregate::avg_f2;
pub use aggregate::avg_f3;
pub use aggregate::center_indexed;
pub use aggregate::center_indexed_uv;
pub use aggregate::divide_ext;
pub use aggregate::divide_int;
pub use aggregate::prec_eq;
pub use aggregate::round_prec;
pub use aggregate::sum_f2;
pub use aggregate::sum_f3;
pub use engine::CgVol;
pub use engine::Tri;
pub use engine::calc_cg;
pub use engine::calc_cg_f3;
pub use engine::calc_cg_o;
pub use profile::calc_cg_f2_x;
pub use recenter::recenter;
pub use recenter::recenter_with_volume;
pub use revolution::Frac;
pub use revolution::Polyhedron;
pub use revolution::Revolution;
pub use scalar::Rat;
pub use scalar::isqrt;
pub use scalar::sol;
pub use scalar::solve;
pub use scalar::solve2;
pub use vector::V2;
pub use vector::V3;
