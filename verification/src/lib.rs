//! Lazy grouping of a single-pass source into runs of elements with equal keys,
//! and into chunks of a fixed size.
//!
//! Several groups of one container can be open at the same time and read in any
//! order; the source is still walked exactly once, and elements are buffered
//! only for groups that fall behind the one being read from the source.
//!
//! A container is made by [`new`] or [`new_chunks`]. A cursor ([`Groups`],
//! [`Chunks`]) opens its groups one after the other, and each group is read
//! through a handle ([`Group`], [`Chunk`]). Cursors and handles hold nothing of
//! the container: every call that reads takes the container by exclusive
//! reference.
//!
//! The contracts speak of the source sequence, which is what the source had to
//! give when the container was made, and of the runs into which the keys cut
//! it ([`runs`]). What a container has not pulled yet is the rest of that
//! sequence: callers carry this along as `valid(..)`, from the constructor
//! through every call.

pub mod engine;
pub mod groupbylazy;
pub mod key;
pub mod runs;

pub use crate::groupbylazy::{
    new, new_chunks, Chunk, Chunks, ChunksLazy, Group, GroupByLazy, Groups,
};
