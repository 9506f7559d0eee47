//! What the operations are for: laws on their inputs and results, stated over
//! bytes, characters, numbers and the calls of the arithmetic, without the
//! functions that the contracts are written in.

pub mod blocks;
pub mod cache;
pub mod drawing;
pub mod faults;
pub mod files;
pub mod forward;
pub mod layout;
pub mod merging;
pub mod numbers;
pub mod options;
pub mod parts;
pub mod products;
pub mod reals;
pub mod refusals;
pub mod runs;
pub mod steps;
pub mod texts;
