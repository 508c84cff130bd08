//! Core of a transit-stop aggregation pipeline.
//!
//! Regional transit agencies publish their stop data as ZIP archives, each
//! holding a delimited-text member named `stops.txt`.  This library contains
//! the verified logic of a batch job that merges many such feeds: decoding
//! the text rows into normalized stop records, merging per-agency results
//! under an all-or-nothing failure contract, building a static
//! nearest-neighbour index over the stop coordinates, and serializing the
//! records together with the index into one binary artifact.
//!
//! Network and file I/O stay outside this crate; callers hand the library
//! the raw archive bytes of each feed and receive the artifact bytes back.

pub mod aggregate;
pub mod archive;
pub mod codec;
pub mod errors;
pub mod fixed;
pub mod index;
pub mod pipeline;
pub mod registry;
pub mod rows;
pub mod stop;
