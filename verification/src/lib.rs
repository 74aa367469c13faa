//! Selection of the k-th smallest element of a slice, in place, by the
//! adaptive quickselect that samples its pivots as medians of ninthers.
//!
//! [`nth_element`] rearranges a slice so that the element of a given rank
//! stands at its place, with nothing greater before it and nothing smaller
//! after it. The order is that of a comparison function. The contract of
//! each function is proved: the slice keeps its elements, no index leaves
//! the slice, no arithmetic overflows, and every recursion ends.

pub mod comparator;
pub mod laws;
pub mod order;
pub mod select;

pub use select::nth_element;
