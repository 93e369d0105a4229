//! An in-memory store of named document collections, ranked by similarity.
//!
//! Embeddings and similarity scores are single-precision floats. The library
//! holds each of them as its IEEE-754 bit pattern (`u32`), so that storage,
//! ranking and the registry are plain integer logic with exact contracts; the
//! floating-point arithmetic of the similarity itself is left to the caller.
//! Ranking compares scores by their float order; a comparison in which either
//! score is not a number counts as equal, so such entries keep their relative
//! order from before the sort.
pub mod score;
pub mod collection;
pub mod database;
pub mod keyed;
pub mod ranking;
