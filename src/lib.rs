//! Bookkeeping of a stochastic planetary accretion model: the table of dust
//! bands that are left in the disk, the ordered index of the bodies that have
//! formed, the collision decisions taken against it, and the control of the
//! accretion loop.
//!
//! Distances and masses are carried as order-preserving `u64` keys: for a
//! non-negative finite `f64` its IEEE-754 bit pattern is such a key, so the
//! floating-point formulas can run outside this crate while every decision
//! that depends only on the order of those values is made, and proved, here.
pub mod accretion;
pub mod dust;
pub mod orbits;
