pub mod k;
pub mod rounding;
pub mod va;
pub mod parallel;
pub mod shape;
pub mod search;
pub mod grade;
pub mod adverb;
pub mod ffi;
pub mod torrent;
pub mod rag;
pub mod primitives;
pub mod piece;
pub mod rng;
pub mod swarm;
pub mod tfidf;
pub mod command;
pub mod laws;
