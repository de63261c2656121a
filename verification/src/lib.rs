//! Numerical wind tunnel: the discrete, exactly checkable part of a finite-volume
//! tracer-transport code on an unstructured mesh.
//!
//! Data flow: ASCII mask ─▶ [mask] ─▶ [mesh] topology ─▶ (floating-point geometry and
//! solver, outside this crate) ; [decomposition] splits a mask into vertical bands.

pub mod design;
pub mod error;
pub mod mesh;
pub mod topology;
pub mod text;
pub mod steps;
pub mod mask;
pub mod decomposition;
pub mod surface;
pub mod stopping;
pub mod vtk;
pub mod rows;
