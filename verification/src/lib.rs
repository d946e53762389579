//! Incremental MPEG-4 box parser and fragment reassembler.
//!
//! A byte stream of well-formed container boxes ("atoms") arrives in
//! arbitrarily sized, arbitrarily aligned chunks.  The library reconstructs
//! complete atoms, caches the initialization atoms (file-type and movie
//! boxes) and the most recent movie-fragment box, aggregates per-chunk timing
//! metadata for the media-data payload, and emits one self-contained
//! fragment (file-type + movie + movie-fragment + media-data, concatenated)
//! whenever a media-data atom completes.

pub mod atom;
pub mod laws;
pub mod meta;
pub mod parser;
pub mod state;
