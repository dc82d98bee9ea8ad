use vstd::prelude::*;

use crate::bytes::{le_u16, le_u32, lemma_u16_le, lemma_u32_le, push_u16_le, push_u32_le, u16_le, u32_le};
use crate::error::{bytes_of, CodecError};
use crate::CompressionAlgorithm;

verus! {

/// How far back, in bytes, a match may start.
pub const WINDOW_SIZE: usize = 4096;

/// The longest match that one token describes.
pub const LOOKAHEAD_SIZE: usize = 18;

/// Matches shorter than this are sent as literals.
pub const MIN_MATCH_LENGTH: usize = 3;

/// Flag byte of a literal token.
pub const LITERAL_FLAG: u8 = 0x00;

/// Flag byte of a match token.
pub const MATCH_FLAG: u8 = 0x01;

/// Sliding-window codec: literals and back-references.
pub struct LZ77;

/// One token: a literal (`length == 0`, the byte in `next_char`) or a match of
/// `length` bytes starting `distance` bytes back, followed by `next_char`.
#[derive(Debug, Clone, Copy, PartialEq, Eq, Structural)]
pub struct Match {
    pub distance: u16,
    pub length: u16,
    pub next_char: u8,
}

/// End of the lookahead region at `p`.
pub open spec fn look_end(s: Seq<u8>, p: nat) -> nat {
    if p + LOOKAHEAD_SIZE < s.len() {
        p + (LOOKAHEAD_SIZE as nat)
    } else {
        s.len()
    }
}

/// The farthest distance a match at `p` may reach back.
pub open spec fn max_distance(p: nat) -> nat {
    if p < WINDOW_SIZE {
        p
    } else {
        WINDOW_SIZE as nat
    }
}

/// Length of the common prefix of the data at `p - d` and at `p`, counting
/// on from `l`: never past the lookahead region nor past `d` bytes.
pub open spec fn common_from(s: Seq<u8>, p: nat, d: nat, l: nat) -> nat
    decreases LOOKAHEAD_SIZE - l,
{
    if l < d && d <= p && p + l < look_end(s, p) && s[p - d + l] == s[(p + l) as int] {
        common_from(s, p, d, l + 1)
    } else {
        l
    }
}

/// Scan of the distances `d..=max_distance(p)` in increasing order, keeping
/// the first candidate of the greatest length that reaches the minimum.
pub open spec fn best_scan(s: Seq<u8>, p: nat, d: nat, bd: nat, bl: nat) -> (nat, nat)
    decreases WINDOW_SIZE + 1 - d,
{
    if d > max_distance(p) || d == 0 {
        (bd, bl)
    } else {
        let l = common_from(s, p, d, 0);
        if l >= MIN_MATCH_LENGTH && l > bl {
            best_scan(s, p, d + 1, d, l)
        } else {
            best_scan(s, p, d + 1, bd, bl)
        }
    }
}

/// The token emitted at position `p < s.len()`: `(distance, length, next byte)`.
pub open spec fn token_at(s: Seq<u8>, p: nat) -> (nat, nat, u8) {
    let (bd, bl) = best_scan(s, p, 1, 0, 0);
    if bl == 0 {
        (0, 0, s[p as int])
    } else {
        (bd, bl, if p + bl < s.len() { s[(p + bl) as int] } else { 0u8 })
    }
}

/// Where the encoder continues after the token at `p`.
pub open spec fn next_pos(s: Seq<u8>, p: nat) -> nat {
    let len = token_at(s, p).1;
    if len == 0 {
        p + 1
    } else if p + len < s.len() {
        p + len + 1
    } else {
        p + len
    }
}

/// Serialized form of a token.
pub open spec fn token_bytes(t: (nat, nat, u8)) -> Seq<u8> {
    if t.1 == 0 {
        seq![LITERAL_FLAG, t.2]
    } else {
        seq![MATCH_FLAG] + u16_le(t.0 as u16) + u16_le(t.1 as u16) + seq![t.2]
    }
}

/// The token stream for `s` from position `p` on.
pub open spec fn lz_tokens(s: Seq<u8>, p: nat) -> Seq<u8>
    decreases s.len() - p,
    via lz_tokens_decreases
{
    if p >= s.len() {
        seq![]
    } else {
        token_bytes(token_at(s, p)) + lz_tokens(s, next_pos(s, p))
    }
}

#[via_fn]
proof fn lz_tokens_decreases(s: Seq<u8>, p: nat) {
    if p < s.len() {
        lemma_token_at(s, p);
    }
}

/// The compressed form of `s`: a length header, then the tokens.
pub open spec fn lz_encode(s: Seq<u8>) -> Seq<u8> {
    if s.len() == 0 {
        seq![]
    } else {
        u32_le(s.len() as u32) + lz_tokens(s, 0)
    }
}

/// The token at the front of a stream: `(distance, length, next byte, bytes consumed)`.
pub open spec fn lz_token(s: Seq<u8>) -> Result<(nat, nat, u8, nat), CodecError> {
    if s.len() == 0 {
        Err(CodecError::TruncatedStream)
    } else if s[0] == LITERAL_FLAG {
        if s.len() < 2 {
            Err(CodecError::TruncatedStream)
        } else {
            Ok((0nat, 0nat, s[1], 2nat))
        }
    } else if s[0] == MATCH_FLAG {
        if s.len() < 6 {
            Err(CodecError::TruncatedStream)
        } else {
            Ok((le_u16(s[1], s[2]) as nat, le_u16(s[3], s[4]) as nat, s[5], 6nat))
        }
    } else {
        Err(CodecError::InvalidFlag)
    }
}

/// `out` extended by `len` bytes, each copied from `dist` bytes before the
/// current end (so the source may overlap what is being written).
pub open spec fn copy_match(out: Seq<u8>, dist: nat, len: nat) -> Seq<u8>
    decreases len,
{
    if len == 0 {
        out
    } else {
        copy_match(out.push(out[out.len() - dist]), dist, (len - 1) as nat)
    }
}

/// Decoding of the tokens from `pos` on, given the output `out` so far and
/// the declared length `target`.
pub open spec fn lz_decode_from(d: Seq<u8>, pos: nat, out: Seq<u8>, target: nat) -> Result<
    Seq<u8>,
    CodecError,
>
    decreases d.len() - pos,
{
    if out.len() >= target {
        Ok(out.take(target as int))
    } else if pos >= d.len() {
        Err(CodecError::TruncatedStream)
    } else {
        match lz_token(d.skip(pos as int)) {
            Err(e) => Err(e),
            Ok((dist, len, next, k)) => {
                if len == 0 {
                    lz_decode_from(d, pos + k, out.push(next), target)
                } else if dist > out.len() {
                    Err(CodecError::InvalidDistance)
                } else if dist == 0 {
                    Err(CodecError::InvalidMatchLength)
                } else {
                    let o2 = copy_match(out, dist, len);
                    let o3 = if o2.len() < target {
                        o2.push(next)
                    } else {
                        o2
                    };
                    lz_decode_from(d, pos + k, o3, target)
                }
            },
        }
    }
}

/// The decoded form of a stream, or the first error met reading it.
pub open spec fn lz_decode(d: Seq<u8>) -> Result<Seq<u8>, CodecError> {
    if d.len() == 0 {
        Ok(seq![])
    } else if d.len() < 4 {
        Err(CodecError::InvalidHeader)
    } else {
        lz_decode_from(d, 4, seq![], le_u32(d[0], d[1], d[2], d[3]) as nat)
    }
}

proof fn lemma_common_from(s: Seq<u8>, p: nat, d: nat, l: nat)
    requires
        l <= d <= p,
        p + l <= look_end(s, p),
        forall|j: int| 0 <= j < l ==> #[trigger] s[p - d + j] == s[p + j],
    ensures
        l <= common_from(s, p, d, l) <= d,
        p + common_from(s, p, d, l) <= look_end(s, p),
        forall|j: int| 0 <= j < common_from(s, p, d, l) ==> #[trigger] s[p - d + j] == s[p + j],
    decreases LOOKAHEAD_SIZE - l,
{
    if l < d && d <= p && p + l < look_end(s, p) && s[p - d + l] == s[(p + l) as int] {
        lemma_common_from(s, p, d, l + 1);
    }
}

/// What every match found at `p` satisfies.
pub open spec fn valid_match(s: Seq<u8>, p: nat, dist: nat, len: nat) -> bool {
    &&& 1 <= dist <= p
    &&& dist <= WINDOW_SIZE
    &&& MIN_MATCH_LENGTH <= len <= dist
    &&& len <= LOOKAHEAD_SIZE
    &&& p + len <= s.len()
    &&& forall|j: int| 0 <= j < len ==> #[trigger] s[p - dist + j] == s[p + j]
}

proof fn lemma_best_scan(s: Seq<u8>, p: nat, d: nat, bd: nat, bl: nat)
    requires
        p < s.len(),
        d >= 1,
        bl == 0 || valid_match(s, p, bd, bl),
    ensures
        best_scan(s, p, d, bd, bl).1 == 0 || valid_match(
            s,
            p,
            best_scan(s, p, d, bd, bl).0,
            best_scan(s, p, d, bd, bl).1,
        ),
    decreases WINDOW_SIZE + 1 - d,
{
    if d > max_distance(p) || d == 0 {
    } else {
        lemma_common_from(s, p, d, 0);
        let l = common_from(s, p, d, 0);
        if l >= MIN_MATCH_LENGTH && l > bl {
            lemma_best_scan(s, p, d + 1, d, l);
        } else {
            lemma_best_scan(s, p, d + 1, bd, bl);
        }
    }
}

proof fn lemma_token_at(s: Seq<u8>, p: nat)
    requires
        p < s.len(),
    ensures
        token_at(s, p).1 == 0 || valid_match(s, p, token_at(s, p).0, token_at(s, p).1),
        token_at(s, p).1 == 0 ==> token_at(s, p).2 == s[p as int],
        token_at(s, p).1 != 0 && p + token_at(s, p).1 < s.len() ==> token_at(s, p).2 == s[(p
            + token_at(s, p).1) as int],
        next_pos(s, p) > p,
        next_pos(s, p) <= s.len(),
{
    lemma_best_scan(s, p, 1, 0, 0);
}

proof fn lemma_copy_match(s: Seq<u8>, p: nat, dist: nat, len: nat)
    requires
        1 <= dist <= p,
        p + len <= s.len(),
        forall|j: int| 0 <= j < len ==> #[trigger] s[p - dist + j] == s[p + j],
    ensures
        copy_match(s.take(p as int), dist, len) == s.take((p + len) as int),
    decreases len,
{
    if len == 0 {
    } else {
        assert(s[p - dist + 0] == s[(p + 0) as int]);
        assert(s.take(p as int).push(s.take(p as int)[p - dist]) =~= s.take((p + 1) as int));
        assert forall|j: int| 0 <= j < len - 1 implies #[trigger] s[(p + 1) - dist + j] == s[(p
            + 1) + j] by {
            assert(s[p - dist + (j + 1)] == s[p + (j + 1)]);
        }
        lemma_copy_match(s, p + 1, dist, (len - 1) as nat);
    }
}

proof fn lemma_token_decode(t: (nat, nat, u8), rest: Seq<u8>)
    requires
        t.0 < 0x10000,
        t.1 < 0x10000,
    ensures
        t.1 == 0 ==> lz_token(token_bytes(t) + rest) == Ok::<(nat, nat, u8, nat), CodecError>(
            (0nat, 0nat, t.2, 2nat),
        ),
        t.1 != 0 ==> lz_token(token_bytes(t) + rest) == Ok::<(nat, nat, u8, nat), CodecError>(
            (t.0, t.1, t.2, 6nat),
        ),
        (token_bytes(t) + rest).skip(token_bytes(t).len() as int) == rest,
        token_bytes(t).len() == if t.1 == 0 {
            2nat
        } else {
            6nat
        },
{
    let b = token_bytes(t);
    assert((b + rest).skip(b.len() as int) =~= rest);
    if t.1 != 0 {
        lemma_u16_le(t.0 as u16);
        lemma_u16_le(t.1 as u16);
        let x = b + rest;
        assert(x[1] == u16_le(t.0 as u16)[0]);
        assert(x[2] == u16_le(t.0 as u16)[1]);
        assert(x[3] == u16_le(t.1 as u16)[0]);
        assert(x[4] == u16_le(t.1 as u16)[1]);
        assert(x[5] == t.2);
    }
}

proof fn lemma_tokens_decode(s: Seq<u8>, p: nat, d: Seq<u8>, pos: nat)
    requires
        p <= s.len(),
        pos <= d.len(),
        d.skip(pos as int) == lz_tokens(s, p),
    ensures
        lz_decode_from(d, pos, s.take(p as int), s.len()) == Ok::<Seq<u8>, CodecError>(s),
    decreases s.len() - p,
{
    let out = s.take(p as int);
    if p >= s.len() {
        assert(out.take(s.len() as int) =~= s);
    } else {
        lemma_token_at(s, p);
        let t = token_at(s, p);
        let rest = lz_tokens(s, next_pos(s, p));
        lemma_token_decode(t, rest);
        let k = token_bytes(t).len();
        assert(d.skip(pos as int) == token_bytes(t) + rest);
        assert(d.skip(pos as int).skip(k as int) =~= d.skip((pos + k) as int));
        if t.1 == 0 {
            assert(out.push(t.2) =~= s.take((p + 1) as int));
        } else {
            lemma_copy_match(s, p, t.0, t.1);
            let o2 = copy_match(out, t.0, t.1);
            if p + t.1 < s.len() {
                assert(o2.push(t.2) =~= s.take((p + t.1 + 1) as int));
            }
        }
        lemma_tokens_decode(s, next_pos(s, p), d, pos + k);
    }
}

/// Decoding the encoding of any buffer whose length fits the header gives
/// the buffer back.
pub proof fn lemma_lz77_round_trip(s: Seq<u8>)
    requires
        s.len() <= u32::MAX,
    ensures
        lz_decode(lz_encode(s)) == Ok::<Seq<u8>, CodecError>(s),
{
    if s.len() == 0 {
        assert(s =~= seq![]);
    } else {
        let d = lz_encode(s);
        let h = u32_le(s.len() as u32);
        lemma_u32_le(s.len() as u32);
        assert(d[0] == h[0] && d[1] == h[1] && d[2] == h[2] && d[3] == h[3]);
        assert(d.skip(4) =~= lz_tokens(s, 0));
        assert(s.take(0) =~= seq![]);
        lemma_tokens_decode(s, 0, d, 4);
    }
}

proof fn lemma_tokens_truncated(s: Seq<u8>, p: nat, d: Seq<u8>, pos: nat)
    requires
        p <= s.len(),
        pos <= d.len(),
        d.len() - pos < lz_tokens(s, p).len(),
        d.skip(pos as int) == lz_tokens(s, p).take(d.len() - pos),
    ensures
        lz_decode_from(d, pos, s.take(p as int), s.len()) == Err::<Seq<u8>, CodecError>(
            CodecError::TruncatedStream,
        ),
    decreases s.len() - p,
{
    let out = s.take(p as int);
    if pos < d.len() {
        lemma_token_at(s, p);
        let t = token_at(s, p);
        let rest = lz_tokens(s, next_pos(s, p));
        lemma_token_decode(t, rest);
        let tb = token_bytes(t);
        let k = tb.len();
        let avail = d.skip(pos as int);
        assert(lz_tokens(s, p) == tb + rest);
        assert(avail[0] == tb[0]);
        if avail.len() >= k {
            let rest2 = avail.skip(k as int);
            assert(avail =~= tb + rest2);
            lemma_token_decode(t, rest2);
            assert(d.skip(pos as int).skip(k as int) =~= d.skip((pos + k) as int));
            assert(rest2 =~= rest.take(rest2.len() as int));
            if t.1 == 0 {
                assert(out.push(t.2) =~= s.take((p + 1) as int));
            } else {
                lemma_copy_match(s, p, t.0, t.1);
                let o2 = copy_match(out, t.0, t.1);
                if p + t.1 < s.len() {
                    assert(o2.push(t.2) =~= s.take((p + t.1 + 1) as int));
                }
            }
            lemma_tokens_truncated(s, next_pos(s, p), d, pos + k);
        }
    }
}

/// Every cut-short encoding of a non-empty buffer is rejected: inside the
/// length header with `InvalidHeader`, after it with `TruncatedStream`.
pub proof fn lemma_lz77_truncated(s: Seq<u8>, k: int)
    requires
        0 < s.len() <= u32::MAX,
        0 < k < lz_encode(s).len(),
    ensures
        lz_decode(lz_encode(s).take(k)) == Err::<Seq<u8>, CodecError>(
            if k < 4 {
                CodecError::InvalidHeader
            } else {
                CodecError::TruncatedStream
            },
        ),
{
    let e = lz_encode(s);
    let d = e.take(k);
    if k >= 4 {
        let h = u32_le(s.len() as u32);
        lemma_u32_le(s.len() as u32);
        assert(d[0] == h[0] && d[1] == h[1] && d[2] == h[2] && d[3] == h[3]);
        assert(d.skip(4) =~= lz_tokens(s, 0).take(k - 4));
        assert(s.take(0) =~= seq![]);
        lemma_tokens_truncated(s, 0, d, 4);
    }
}

impl LZ77 {
    /// The token that the encoder emits at `position`.
    pub fn find_longest_match(data: &[u8], position: usize) -> (m: Match)
        requires
            position < data@.len(),
        ensures
            m.distance as nat == token_at(data@, position as nat).0,
            m.length as nat == token_at(data@, position as nat).1,
            m.next_char == token_at(data@, position as nat).2,
    {
        let ghost s = data@;
        let ghost p = position as nat;
        let n = data.len();
        let lookahead_end: usize = if n - position > LOOKAHEAD_SIZE {
            position + LOOKAHEAD_SIZE
        } else {
            n
        };
        let max_dist: usize = if position < WINDOW_SIZE {
            position
        } else {
            WINDOW_SIZE
        };
        let mut best_distance: usize = 0;
        let mut best_length: usize = 0;
        let mut d: usize = 1;
        proof {
            lemma_best_scan(s, p, 1, 0, 0);
        }
        while d <= max_dist
            invariant
                p == position as nat,
                lookahead_end == look_end(s, p),
                max_dist == max_distance(p),
                1 <= d <= max_dist + 1,
                best_scan(s, p, d as nat, best_distance as nat, best_length as nat) == best_scan(
                    s,
                    p,
                    1,
                    0,
                    0,
                ),
                best_length == 0 || valid_match(s, p, best_distance as nat, best_length as nat),
                position < n == s.len(),
                s == data@,
                max_dist <= WINDOW_SIZE,
                max_dist <= position,
                position < lookahead_end <= s.len(),
            decreases max_dist + 1 - d,
        {
            let mut len: usize = 0;
            while len < d && position + len < lookahead_end && data[position - d + len]
                == data[position + len]
                invariant
                    p == position as nat,
                    1 <= d <= max_dist,
                    max_dist <= position,
                    len <= d,
                    position + len <= lookahead_end,
                    lookahead_end == look_end(s, p),
                    lookahead_end <= s.len(),
                    s == data@,
                    common_from(s, p, d as nat, len as nat) == common_from(s, p, d as nat, 0),
                decreases d - len,
            {
                assert(data@[position - d + len] == s[p - d + len]);
                assert(common_from(s, p, d as nat, len as nat) == common_from(
                    s,
                    p,
                    d as nat,
                    (len + 1) as nat,
                ));
                len = len + 1;
            }
            proof {
                lemma_common_from(s, p, d as nat, 0);
            }
            if len >= MIN_MATCH_LENGTH && len > best_length {
                best_distance = d;
                best_length = len;
            }
            d = d + 1;
        }
        proof {
            lemma_token_at(s, p);
        }
        if best_length == 0 {
            Match { distance: 0, length: 0, next_char: data[position] }
        } else {
            let next_char = if position + best_length < n {
                data[position + best_length]
            } else {
                0
            };
            Match { distance: best_distance as u16, length: best_length as u16, next_char }
        }
    }

    /// Appends the serialized form of `token`.
    pub fn encode_token(output: &mut Vec<u8>, token: &Match)
        ensures
            final(output)@ == old(output)@ + token_bytes(
                (token.distance as nat, token.length as nat, token.next_char),
            ),
    {
        if token.length == 0 {
            output.push(LITERAL_FLAG);
            output.push(token.next_char);
            assert(final(output)@ =~= old(output)@ + seq![LITERAL_FLAG, token.next_char]);
        } else {
            output.push(MATCH_FLAG);
            push_u16_le(output, token.distance);
            push_u16_le(output, token.length);
            output.push(token.next_char);
            assert(final(output)@ =~= old(output)@ + (seq![MATCH_FLAG] + u16_le(token.distance)
                + u16_le(token.length) + seq![token.next_char]));
        }
    }

    /// Reads the token at `*pos`, moving `*pos` past it.
    pub fn decode_token(input: &[u8], pos: &mut usize) -> (r: Result<Match, CodecError>)
        requires
            *old(pos) <= input@.len(),
        ensures
            match lz_token(input@.skip(*old(pos) as int)) {
                Ok((dist, len, next, k)) => r matches Ok(m) && m.distance as nat == dist
                    && m.length as nat == len && m.next_char == next && *final(pos) == *old(pos)
                    + k,
                Err(e) => r == Err::<Match, CodecError>(e),
            },
    {
        let avail = input.len() - *pos;
        if avail == 0 {
            return Err(CodecError::TruncatedStream);
        }
        let flag = input[*pos];
        if flag == LITERAL_FLAG {
            if avail < 2 {
                return Err(CodecError::TruncatedStream);
            }
            let byte = input[*pos + 1];
            *pos += 2;
            Ok(Match { distance: 0, length: 0, next_char: byte })
        } else if flag == MATCH_FLAG {
            if avail < 6 {
                return Err(CodecError::TruncatedStream);
            }
            let p = *pos;
            let distance = (input[p + 1] as u16) | ((input[p + 2] as u16) << 8);
            let length = (input[p + 3] as u16) | ((input[p + 4] as u16) << 8);
            let next_char = input[p + 5];
            *pos += 6;
            Ok(Match { distance, length, next_char })
        } else {
            Err(CodecError::InvalidFlag)
        }
    }
}

impl CompressionAlgorithm for LZ77 {
    fn compress(&self, data: &[u8]) -> (r: Result<Vec<u8>, CodecError>)
        ensures
            r == Ok::<Vec<u8>, CodecError>(r->Ok_0),
            r->Ok_0@ == lz_encode(data@),
    {
        let mut output: Vec<u8> = Vec::new();
        if data.len() == 0 {
            return Ok(output);
        }
        let ghost s = data@;
        push_u32_le(&mut output, data.len() as u32);
        let mut position: usize = 0;
        while position < data.len()
            invariant
                position <= s.len(),
                s == data@,
                s.len() <= u32::MAX,
                s.len() > 0,
                lz_encode(s) == output@ + lz_tokens(s, position as nat),
            decreases s.len() - position,
        {
            proof {
                lemma_token_at(s, position as nat);
            }
            let token = Self::find_longest_match(data, position);
            Self::encode_token(&mut output, &token);
            let ghost old_pos = position as nat;
            if token.length == 0 {
                position += 1;
            } else {
                position += token.length as usize;
                if position < data.len() {
                    position += 1;
                }
            }
            assert(position as nat == next_pos(s, old_pos));
            assert(output@ + lz_tokens(s, position as nat) =~= lz_encode(s));
        }
        assert(output@ + seq![] =~= output@);
        Ok(output)
    }

    fn decompress(&self, data: &[u8]) -> (r: Result<Vec<u8>, CodecError>)
        ensures
            bytes_of(r) == lz_decode(data@),
    {
        let mut output: Vec<u8> = Vec::new();
        if data.len() == 0 {
            return Ok(output);
        }
        if data.len() < 4 {
            return Err(CodecError::InvalidHeader);
        }
        let original_size = ((data[0] as u32) | ((data[1] as u32) << 8) | ((data[2] as u32) << 16)
            | ((data[3] as u32) << 24)) as usize;
        let mut pos: usize = 4;
        while output.len() < original_size
            invariant
                4 <= pos <= data@.len(),
                original_size as nat == le_u32(data@[0], data@[1], data@[2], data@[3]) as nat,
                lz_decode(data@) == lz_decode_from(data@, pos as nat, output@, original_size as nat),
            decreases data@.len() - pos,
        {
            if pos >= data.len() {
                return Err(CodecError::TruncatedStream);
            }
            let ghost old_pos = pos as nat;
            let token = match Self::decode_token(data, &mut pos) {
                Ok(t) => t,
                Err(e) => {
                    return Err(e);
                },
            };
            proof {
                let k = lz_token(data@.skip(old_pos as int))->Ok_0.3;
                assert(pos as nat == old_pos + k);
            }
            if token.length == 0 {
                output.push(token.next_char);
            } else {
                let distance = token.distance as usize;
                if distance > output.len() {
                    return Err(CodecError::InvalidDistance);
                }
                if distance == 0 {
                    return Err(CodecError::InvalidMatchLength);
                }
                let ghost before = output@;
                let length = token.length as usize;
                let mut i: usize = 0;
                while i < length
                    invariant
                        i <= length,
                        1 <= distance <= before.len(),
                        output@.len() == before.len() + i,
                        copy_match(output@, distance as nat, (length - i) as nat) == copy_match(
                            before,
                            distance as nat,
                            length as nat,
                        ),
                    decreases length - i,
                {
                    let byte = output[output.len() - distance];
                    output.push(byte);
                    i = i + 1;
                }
                if output.len() < original_size {
                    output.push(token.next_char);
                }
            }
        }
        output.truncate(original_size);
        Ok(output)
    }
}

} // verus!
