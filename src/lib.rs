use vstd::prelude::*;

pub mod bytes;
pub mod error;
pub mod huffman;
pub mod lz77;
pub mod rle;

use error::{bytes_of, CodecError};
use huffman::{huffman_decode, huffman_encode, lemma_huffman_round_trip, HuffmanCoding};
use lz77::{lemma_lz77_round_trip, lz_decode, lz_encode, LZ77};
use rle::{lemma_rle_round_trip, rle_decode, rle_encode, RunLengthEncoding};

verus! {

/// A lossless byte-stream codec.
pub trait CompressionAlgorithm {
    /// Encodes `data`. Encoding never fails on an in-memory buffer whose
    /// length fits the 32-bit length headers.
    fn compress(&self, data: &[u8]) -> (r: Result<Vec<u8>, CodecError>)
        requires
            data@.len() <= u32::MAX,
        ensures
            r is Ok,
    ;

    /// Decodes a stream produced by `compress`, or reports why it cannot.
    fn decompress(&self, data: &[u8]) -> Result<Vec<u8>, CodecError>;
}

/// The codecs of this library, selected by name at the edge of a program.
#[derive(Debug, Clone, Copy, PartialEq, Eq, Structural)]
pub enum Codec {
    Huffman,
    Lz77,
    Rle,
}

impl Codec {
    /// What `compress` returns for `s`.
    pub open spec fn encoded(self, s: Seq<u8>) -> Seq<u8> {
        match self {
            Codec::Huffman => huffman_encode(s),
            Codec::Lz77 => lz_encode(s),
            Codec::Rle => rle_encode(s),
        }
    }

    /// What `decompress` returns for `s`.
    pub open spec fn decoded(self, s: Seq<u8>) -> Result<Seq<u8>, CodecError> {
        match self {
            Codec::Huffman => huffman_decode(s),
            Codec::Lz77 => lz_decode(s),
            Codec::Rle => rle_decode(s),
        }
    }

    /// Encodes `data` with this codec.
    pub fn compress(&self, data: &[u8]) -> (r: Vec<u8>)
        requires
            data@.len() <= u32::MAX,
        ensures
            r@ == self.encoded(data@),
    {
        let res = match self {
            Codec::Huffman => HuffmanCoding.compress(data),
            Codec::Lz77 => LZ77.compress(data),
            Codec::Rle => RunLengthEncoding.compress(data),
        };
        match res {
            Ok(v) => v,
            Err(_) => Vec::new(),
        }
    }

    /// Decodes `data` with this codec.
    pub fn decompress(&self, data: &[u8]) -> (r: Result<Vec<u8>, CodecError>)
        ensures
            bytes_of(r) == self.decoded(data@),
    {
        match self {
            Codec::Huffman => HuffmanCoding.decompress(data),
            Codec::Lz77 => LZ77.decompress(data),
            Codec::Rle => RunLengthEncoding.decompress(data),
        }
    }
}

/// Every codec gives back, on decoding, any buffer it encoded.
pub proof fn lemma_round_trip(c: Codec, s: Seq<u8>)
    requires
        s.len() <= u32::MAX,
    ensures
        c.decoded(c.encoded(s)) == Ok::<Seq<u8>, CodecError>(s),
{
    match c {
        Codec::Huffman => lemma_huffman_round_trip(s),
        Codec::Lz77 => lemma_lz77_round_trip(s),
        Codec::Rle => lemma_rle_round_trip(s),
    }
}

/// Every codec encodes the empty buffer as the empty stream and decodes the
/// empty stream as the empty buffer.
pub proof fn lemma_empty_input(c: Codec)
    ensures
        c.encoded(Seq::<u8>::empty()) == Seq::<u8>::empty(),
        c.decoded(Seq::<u8>::empty()) == Ok::<Seq<u8>, CodecError>(Seq::<u8>::empty()),
{
}

} // verus!
