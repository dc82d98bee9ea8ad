use vstd::prelude::*;

verus! {

/// The ways in which decoding a compressed stream can fail.
#[derive(Debug, Clone, Copy, PartialEq, Eq, Structural)]
pub enum CodecError {
    /// The input ended before a complete token or record could be read.
    TruncatedStream,
    /// A stream too short to hold its fixed-size length header.
    InvalidHeader,
    /// A back-reference points before the start of the output.
    InvalidDistance,
    /// A back-reference copies from where no output exists yet.
    InvalidMatchLength,
    /// A token starts with a flag byte that names no token kind.
    InvalidFlag,
    /// An escaped literal is not terminated by the escape byte.
    InvalidEscape,
    /// A header whose declared metadata is truncated or inconsistent.
    CorruptHeader,
}

/// The byte sequence held by a codec result, or its error.
pub open spec fn bytes_of(r: Result<Vec<u8>, CodecError>) -> Result<Seq<u8>, CodecError> {
    match r {
        Ok(v) => Ok(v@),
        Err(e) => Err(e),
    }
}

/// `p` placed in front of a successful decode result; an error passes through.
pub open spec fn prepend(p: Seq<u8>, r: Result<Seq<u8>, CodecError>) -> Result<Seq<u8>, CodecError> {
    match r {
        Ok(y) => Ok(p + y),
        Err(e) => Err(e),
    }
}

/// `b` repeated `c` times.
pub open spec fn repeat(b: u8, c: nat) -> Seq<u8> {
    Seq::new(c, |_i: int| b)
}

pub proof fn lemma_prepend_assoc(p: Seq<u8>, q: Seq<u8>, r: Result<Seq<u8>, CodecError>)
    ensures
        prepend(p, prepend(q, r)) == prepend(p + q, r),
{
    if let Ok(y) = r {
        assert(p + (q + y) =~= (p + q) + y);
    }
}

pub proof fn lemma_prepend_empty(r: Result<Seq<u8>, CodecError>)
    ensures
        prepend(seq![], r) == r,
{
    if let Ok(y) = r {
        assert(Seq::<u8>::empty() + y =~= y);
    }
}

} // verus!
