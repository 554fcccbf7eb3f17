//! A binary max-heap container and an in-place heapsort, both proved to keep
//! the heap order and to preserve the multiset of their elements.
pub mod heap;
pub mod heap_sort;
pub mod order;
