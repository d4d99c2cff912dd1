//! A first-fit free-list allocator for a single, fixed heap region.
//!
//! The allocator is handed one contiguous address range once, at `init`
//! time, and thereafter serves arbitrarily sized and aligned allocation
//! requests and their matching frees. Free memory is tracked as a singly
//! linked list of node records; each record describes the free span it
//! sits at the start of, so the list needs no bookkeeping storage of its
//! own. The engine here follows spans by address: a node is the pair of
//! a span's start address and byte length, and its link is its position
//! in the list.
//!
//! Freed regions are spliced onto the front of the list and are never
//! merged with adjacent free regions; fragmentation is an accepted,
//! documented limitation of the design.

pub mod linked_list;
pub mod math;
