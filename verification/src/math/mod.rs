//! Numeric kernels: which numbers they bring together, and which GPU kernel and
//! buffer they run on. The arithmetic on the numbers is the caller's.

pub mod gpu;
pub mod kernels;
pub mod ops;
pub mod quant;
pub mod rope;
pub mod steady;
