//! A fixed-block-size pool allocator for environments that must supply their
//! own memory provider over a single backing region.
//!
//! The pool owns a byte arena divided into equal-size slots and keeps a free
//! list of the slots not currently handed out.  `alloc` serves a request from
//! the head of the free list (every slot has the same size, so the head always
//! fits), `dealloc` pushes a slot back onto the head, and `free_count` reports
//! how many slots remain.  Slot state is tracked out of band, so a double
//! release is detected soundly and reported as a fatal error value rather
//! than silently corrupting the free list.

pub mod allocator;
