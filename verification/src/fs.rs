//! On-disk filesystem structures. The drivers that move sectors are
//! outside the kernel model; the geometry arithmetic they depend on is
//! here.

pub mod fat16;
