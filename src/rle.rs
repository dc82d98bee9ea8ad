use vstd::prelude::*;

use crate::error::{bytes_of, lemma_prepend_assoc, lemma_prepend_empty, prepend, repeat, CodecError};
use crate::CompressionAlgorithm;

verus! {

/// The reserved byte that introduces run records and escaped literals.
pub const ESCAPE: u8 = 0xFF;

/// The longest run that one record describes.
pub const MAX_RUN: u8 = 255;

/// Run-length codec with an escape byte.
pub struct RunLengthEncoding;

/// Length of the run of `s[0]` at the front of `s`, counting on from `k`,
/// capped at `MAX_RUN`.
pub open spec fn run_from(s: Seq<u8>, k: nat) -> nat
    decreases 255 - k,
{
    if k < s.len() && k < 255 && s[k as int] == s[0] {
        run_from(s, k + 1)
    } else {
        k
    }
}

/// Length of the (capped) run at the front of a non-empty `s`.
pub open spec fn run_length(s: Seq<u8>) -> nat {
    run_from(s, 1)
}

/// The bytes emitted for a run of `c` copies of `b`.
pub open spec fn run_bytes(b: u8, c: nat) -> Seq<u8> {
    if c == 1 && b != ESCAPE {
        seq![b]
    } else if c == 1 {
        seq![ESCAPE, 0u8, ESCAPE]
    } else if c <= 3 && b != ESCAPE {
        repeat(b, c)
    } else {
        seq![ESCAPE, c as u8, b]
    }
}

/// The encoded form of `s`: its maximal capped runs, left to right.
pub open spec fn rle_encode(s: Seq<u8>) -> Seq<u8>
    decreases s.len(),
    via rle_encode_decreases
{
    if s.len() == 0 {
        seq![]
    } else {
        let c = run_length(s);
        run_bytes(s[0], c) + rle_encode(s.skip(c as int))
    }
}

#[via_fn]
proof fn rle_encode_decreases(s: Seq<u8>) {
    if s.len() > 0 {
        lemma_run_from(s, 1);
    }
}

/// The record at the front of a stream: `(byte, count, bytes consumed)`.
pub open spec fn rle_token(s: Seq<u8>) -> Result<(u8, u8, nat), CodecError> {
    if s.len() == 0 {
        Err(CodecError::TruncatedStream)
    } else if s[0] != ESCAPE {
        Ok((s[0], 1u8, 1nat))
    } else if s.len() < 2 {
        Err(CodecError::TruncatedStream)
    } else if s[1] == 0 {
        if s.len() < 3 {
            Err(CodecError::TruncatedStream)
        } else if s[2] != ESCAPE {
            Err(CodecError::InvalidEscape)
        } else {
            Ok((ESCAPE, 1u8, 3nat))
        }
    } else if s.len() < 3 {
        Err(CodecError::TruncatedStream)
    } else {
        Ok((s[2], s[1], 3nat))
    }
}

/// The decoded form of a stream, or the first error met reading it.
pub open spec fn rle_decode(s: Seq<u8>) -> Result<Seq<u8>, CodecError>
    decreases s.len(),
{
    if s.len() == 0 {
        Ok(seq![])
    } else {
        match rle_token(s) {
            Err(e) => Err(e),
            Ok((b, c, k)) => prepend(repeat(b, c as nat), rle_decode(s.skip(k as int))),
        }
    }
}

proof fn lemma_run_from(s: Seq<u8>, k: nat)
    requires
        1 <= k <= s.len(),
        k <= 255,
        forall|j: int| 0 <= j < k ==> #[trigger] s[j] == s[0],
    ensures
        k <= run_from(s, k) <= s.len(),
        run_from(s, k) <= 255,
        forall|j: int| 0 <= j < run_from(s, k) ==> #[trigger] s[j] == s[0],
    decreases 255 - k,
{
    if k < s.len() && k < 255 && s[k as int] == s[0] {
        lemma_run_from(s, k + 1);
    }
}

proof fn lemma_decode_concat(a: Seq<u8>, b: Seq<u8>)
    requires
        rle_decode(a) is Ok,
    ensures
        rle_decode(a + b) == prepend(rle_decode(a)->Ok_0, rle_decode(b)),
    decreases a.len(),
{
    if a.len() == 0 {
        assert(a + b =~= b);
        lemma_prepend_empty(rle_decode(b));
    } else {
        let (x, c, k) = rle_token(a)->Ok_0;
        assert(rle_token(a + b) == rle_token(a));
        assert((a + b).skip(k as int) =~= a.skip(k as int) + b);
        lemma_decode_concat(a.skip(k as int), b);
        lemma_prepend_assoc(repeat(x, c as nat), rle_decode(a.skip(k as int))->Ok_0, rle_decode(b));
    }
}

proof fn lemma_decode_run(b: u8, c: nat)
    requires
        1 <= c <= 255,
    ensures
        rle_decode(run_bytes(b, c)) == Ok::<Seq<u8>, CodecError>(repeat(b, c)),
{
    let one = seq![b];
    if b != ESCAPE {
        assert(rle_decode(one.skip(1)) == Ok::<Seq<u8>, CodecError>(seq![]));
        assert(repeat(b, 1) + seq![] =~= repeat(b, 1));
        assert(rle_decode(one) == Ok::<Seq<u8>, CodecError>(repeat(b, 1)));
    }
    if c == 1 && b != ESCAPE {
    } else if c == 1 {
        let s = run_bytes(b, c);
        assert(s.skip(3) =~= seq![]);
        assert(rle_decode(s.skip(3)) == Ok::<Seq<u8>, CodecError>(seq![]));
        assert(rle_token(s) == Ok::<(u8, u8, nat), CodecError>((ESCAPE, 1u8, 3nat)));
        assert(repeat(ESCAPE, 1) + seq![] =~= repeat(b, 1));
    } else if c <= 3 && b != ESCAPE {
        if c == 2 {
            lemma_decode_concat(one, one);
            assert(one + one =~= run_bytes(b, c));
            assert(repeat(b, 1) + repeat(b, 1) =~= repeat(b, 2));
        } else {
            lemma_decode_concat(one, one);
            lemma_decode_concat(one + one, one);
            assert(one + one + one =~= run_bytes(b, c));
            assert(repeat(b, 1) + repeat(b, 1) =~= repeat(b, 2));
            assert(repeat(b, 2) + repeat(b, 1) =~= repeat(b, 3));
        }
    } else {
        let s = run_bytes(b, c);
        assert(s.skip(3) =~= seq![]);
        assert(rle_decode(s.skip(3)) == Ok::<Seq<u8>, CodecError>(seq![]));
        assert(rle_token(s) == Ok::<(u8, u8, nat), CodecError>((b, c as u8, 3nat)));
        assert(repeat(b, c) + seq![] =~= repeat(b, c));
    }
}

/// Decoding the encoding of any buffer gives the buffer back.
pub proof fn lemma_rle_round_trip(s: Seq<u8>)
    ensures
        rle_decode(rle_encode(s)) == Ok::<Seq<u8>, CodecError>(s),
    decreases s.len(),
{
    if s.len() == 0 {
        assert(rle_encode(s) =~= seq![]);
        assert(s =~= seq![]);
    } else {
        lemma_run_from(s, 1);
        let c = run_length(s);
        let rest = s.skip(c as int);
        lemma_decode_run(s[0], c);
        lemma_rle_round_trip(rest);
        lemma_decode_concat(run_bytes(s[0], c), rle_encode(rest));
        assert(repeat(s[0], c) + rest =~= s);
    }
}

/// A well-formed stream followed by a cut-off record fails with
/// `TruncatedStream`; one followed by a malformed escaped literal fails with
/// `InvalidEscape`.
pub proof fn lemma_rle_damaged_tail(a: Seq<u8>, c: u8, x: u8)
    requires
        rle_decode(a) is Ok,
    ensures
        rle_decode(a + seq![ESCAPE]) == Err::<Seq<u8>, CodecError>(CodecError::TruncatedStream),
        rle_decode(a + seq![ESCAPE, c]) == Err::<Seq<u8>, CodecError>(CodecError::TruncatedStream),
        x != ESCAPE ==> rle_decode(a + seq![ESCAPE, 0u8, x]) == Err::<Seq<u8>, CodecError>(
            CodecError::InvalidEscape,
        ),
{
    lemma_decode_concat(a, seq![ESCAPE]);
    lemma_decode_concat(a, seq![ESCAPE, c]);
    lemma_decode_concat(a, seq![ESCAPE, 0u8, x]);
}

impl RunLengthEncoding {
    /// Appends the encoding of a run of `count` copies of `byte`.
    fn encode_run(output: &mut Vec<u8>, byte: u8, count: u8)
        requires
            count >= 1,
        ensures
            final(output)@ == old(output)@ + run_bytes(byte, count as nat),
    {
        if count == 1 {
            if byte == ESCAPE {
                output.push(ESCAPE);
                output.push(0x00);
                output.push(ESCAPE);
            } else {
                output.push(byte);
            }
        } else if count <= 3 && byte != ESCAPE {
            let mut k: u8 = 0;
            while k < count
                invariant
                    k <= count,
                    output@ == old(output)@ + repeat(byte, k as nat),
                decreases count - k,
            {
                output.push(byte);
                k = k + 1;
                assert(old(output)@ + repeat(byte, k as nat) =~= output@);
            }
        } else {
            output.push(ESCAPE);
            output.push(count);
            output.push(byte);
        }
        assert(final(output)@ =~= old(output)@ + run_bytes(byte, count as nat));
    }

    /// Reads the record at `*pos`, returning its byte and count and moving
    /// `*pos` past it.
    fn decode_next(data: &[u8], pos: &mut usize) -> (r: Result<(u8, u8), CodecError>)
        requires
            *old(pos) <= data@.len(),
        ensures
            match rle_token(data@.skip(*old(pos) as int)) {
                Ok((b, c, k)) => r == Ok::<(u8, u8), CodecError>((b, c)) && *final(pos) == *old(pos) + k,
                Err(e) => r == Err::<(u8, u8), CodecError>(e),
            },
    {
        if *pos >= data.len() {
            return Err(CodecError::TruncatedStream);
        }
        let first = data[*pos];
        *pos += 1;
        if first != ESCAPE {
            return Ok((first, 1));
        }
        if *pos >= data.len() {
            return Err(CodecError::TruncatedStream);
        }
        let second = data[*pos];
        *pos += 1;
        if *pos >= data.len() {
            return Err(CodecError::TruncatedStream);
        }
        let third = data[*pos];
        *pos += 1;
        if second == 0x00 {
            if third != ESCAPE {
                return Err(CodecError::InvalidEscape);
            }
            Ok((ESCAPE, 1))
        } else {
            Ok((third, second))
        }
    }
}

impl CompressionAlgorithm for RunLengthEncoding {
    fn compress(&self, data: &[u8]) -> (r: Result<Vec<u8>, CodecError>)
        ensures
            r == Ok::<Vec<u8>, CodecError>(r->Ok_0),
            r->Ok_0@ == rle_encode(data@),
    {
        let mut output: Vec<u8> = Vec::new();
        let mut i: usize = 0;
        assert(data@.skip(0) =~= data@);
        while i < data.len()
            invariant
                i <= data@.len(),
                rle_encode(data@) == output@ + rle_encode(data@.skip(i as int)),
            decreases data@.len() - i,
        {
            let ghost s = data@.skip(i as int);
            let current = data[i];
            let mut count: u8 = 1;
            while i + (count as usize) < data.len() && data[i + (count as usize)] == current && count < MAX_RUN
                invariant
                    i < data@.len(),
                    s == data@.skip(i as int),
                    current == s[0],
                    1 <= count <= 255,
                    i + count <= data@.len(),
                    run_from(s, count as nat) == run_length(s),
                decreases 255 - count,
            {
                count = count + 1;
            }
            proof {
                lemma_run_from(s, 1);
            }
            Self::encode_run(&mut output, current, count);
            assert(s.skip(count as int) =~= data@.skip(i + count));
            i = i + count as usize;
            assert(output@ + rle_encode(data@.skip(i as int)) =~= rle_encode(data@));
        }
        assert(data@.skip(i as int) =~= seq![]);
        assert(output@ + seq![] =~= output@);
        Ok(output)
    }

    fn decompress(&self, data: &[u8]) -> (r: Result<Vec<u8>, CodecError>)
        ensures
            bytes_of(r) == rle_decode(data@),
    {
        let mut output: Vec<u8> = Vec::new();
        let mut pos: usize = 0;
        proof {
            assert(data@.skip(0) =~= data@);
            lemma_prepend_empty(rle_decode(data@));
        }
        while pos < data.len()
            invariant
                pos <= data@.len(),
                rle_decode(data@) == prepend(output@, rle_decode(data@.skip(pos as int))),
            decreases data@.len() - pos,
        {
            let ghost s = data@.skip(pos as int);
            let ghost before = output@;
            let (byte, count) = match Self::decode_next(data, &mut pos) {
                Ok(t) => t,
                Err(e) => {
                    return Err(e);
                },
            };
            let mut k: u8 = 0;
            while k < count
                invariant
                    k <= count,
                    output@ == before + repeat(byte, k as nat),
                decreases count - k,
            {
                output.push(byte);
                k = k + 1;
                assert(before + repeat(byte, k as nat) =~= output@);
            }
            proof {
                let kk = rle_token(s)->Ok_0.2;
                assert(s.skip(kk as int) =~= data@.skip(pos as int));
                lemma_prepend_assoc(before, repeat(byte, count as nat), rle_decode(data@.skip(pos as int)));
            }
        }
        assert(data@.skip(pos as int) =~= seq![]);
        assert(output@ + seq![] =~= output@);
        Ok(output)
    }
}

} // verus!
