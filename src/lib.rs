pub mod infinite_set;
pub mod laws;
pub mod sets;

pub use infinite_set::{intersect, union, InfiniteIntersection, InfiniteSet, InfiniteUnion};
pub use sets::{InfiniteEvens, InfiniteOdds, InfinitePositiveInts, InfinitePrimes, InfiniteTwoPowers};
