//! Pieces of content, each with its hash, embedding and source.

use vstd::prelude::*;
use std::path::PathBuf;
use crate::k::K;

verus! {

/// `std::path::PathBuf`, carried through as an opaque value.
#[verifier::external_type_specification]
#[verifier::external_body]
pub struct ExPathBuf(PathBuf);

/// `PathBuf::clone`, which the derived `Clone` of `Piece` calls; no
/// property of the copy is claimed.
pub assume_specification[ <PathBuf as Clone>::clone ](p: &PathBuf) -> PathBuf;

/// A piece: a chunk of data with its embedding, hash and source.
#[derive(Debug, Clone)]
pub struct Piece {
    /// Index of the piece.
    pub id: usize,
    /// BitTorrent-style hash of the piece (20 bytes).
    pub hash: [u8; 20],
    /// Embedding of the piece's content.
    pub embedding: K,
    /// Path of the file that the piece comes from.
    pub source: PathBuf,
    /// Text content of the piece.
    pub content: String,
}

/// A collection of pieces and the dimension of their embeddings.
#[derive(Debug, Clone)]
pub struct PieceManager {
    pub pieces: Vec<Piece>,
    pub vocab: usize,
}

impl PieceManager {
    /// A manager of `pieces` with embedding dimension `vocab`.
    pub fn new(pieces: Vec<Piece>, vocab: usize) -> (r: Self)
        ensures
            r.pieces == pieces,
            r.vocab == vocab,
    {
        PieceManager { pieces, vocab }
    }

    /// The embedding dimension.
    pub fn vocab_size(&self) -> (r: usize)
        ensures
            r == self.vocab,
    {
        self.vocab
    }
}

} // verus!
