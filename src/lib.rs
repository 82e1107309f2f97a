//! Random-access sequences over combinatorial spaces (products, series,
//! subsets and multisets) and a pseudorandom bijective reordering of their
//! positions, computed per position by a linear feedback shift register.

pub mod indexing;
pub mod rng;
pub mod shuffle;
pub mod spaces;
pub mod subsets;

pub use indexing::{dyn_iter, Indexing, IndexingIter, IndexingMap, Memorable, OpsRef};
pub use shuffle::{light_shuffle, Shuffled};
pub use spaces::{Cross, IndexVec, Once, Series, Truncate};
pub use subsets::{KSubmultisets, KSubsets};
