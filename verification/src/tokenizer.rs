//! What a subword tokenizer gives for a text, and what is read from it.
//!
//! The tokenization itself is done by a pretrained model outside this
//! library; this module holds what comes back as plain values.

use vstd::prelude::*;

verus! {

/// One piece of a tokenized text: its spelling and its identifier in the
/// model's vocabulary.
pub struct Piece {
    pub piece: String,
    pub id: u32,
}

/// The identifiers of the pieces, in order.
pub open spec fn identifiers(pieces: Seq<Piece>) -> Seq<u32> {
    Seq::new(pieces.len(), |i: int| pieces[i].id)
}

/// The spellings of the pieces, in order.
pub open spec fn spellings(pieces: Seq<Piece>) -> Seq<Seq<char>> {
    Seq::new(pieces.len(), |i: int| pieces[i].piece@)
}

/// The spellings that a vector of strings holds.
pub open spec fn texts(strings: Seq<String>) -> Seq<Seq<char>> {
    Seq::new(strings.len(), |i: int| strings[i]@)
}

/// What the library knows of a tokenization model: the identifier that
/// marks the beginning of a sequence, if the model has one.
pub struct Tokenizer {
    bos: Option<u32>,
}

impl Tokenizer {
    /// The identifier that marks the beginning of a sequence, if any.
    pub closed spec fn bos_id(&self) -> Option<u32> {
        self.bos
    }

    /// A reader for a model with the given beginning-of-sequence identifier.
    pub fn new(bos: Option<u32>) -> (t: Tokenizer)
        ensures
            t.bos_id() == bos,
    {
        Tokenizer { bos }
    }

    /// Whether `id` marks the beginning of a sequence.
    pub fn is_bos(&self, id: u32) -> (b: bool)
        ensures
            b == (self.bos_id() == Some(id)),
    {
        match self.bos {
            Some(bos) => bos == id,
            None => false,
        }
    }

    /// The spellings of an encoded text.
    pub fn encode(&self, pieces: &Vec<Piece>) -> (out: Vec<String>)
        ensures
            texts(out@) == spellings(pieces@),
    {
        let mut out: Vec<String> = Vec::new();
        let mut i: usize = 0;
        while i < pieces.len()
            invariant
                i <= pieces@.len(),
                out@.len() == i,
                forall|j: int| 0 <= j < i ==> (#[trigger] out@[j])@ == pieces@[j].piece@,
            decreases pieces.len() - i,
        {
            out.push(pieces[i].piece.clone());
            i = i + 1;
        }
        assert(texts(out@) =~= spellings(pieces@));
        out
    }

    /// The identifiers of an encoded text.
    pub fn encode2id(&self, pieces: &Vec<Piece>) -> (out: Vec<u32>)
        ensures
            out@ == identifiers(pieces@),
    {
        let mut out: Vec<u32> = Vec::new();
        let mut i: usize = 0;
        while i < pieces.len()
            invariant
                i <= pieces@.len(),
                out@.len() == i,
                forall|j: int| 0 <= j < i ==> #[trigger] out@[j] == pieces@[j].id,
            decreases pieces.len() - i,
        {
            out.push(pieces[i].id);
            i = i + 1;
        }
        assert(out@ =~= identifiers(pieces@));
        out
    }
}

} // verus!
