use vstd::prelude::*;

use crate::bytes::{lemma_u32_le, le_u32, push_u32_le, u32_le};
use crate::error::{bytes_of, CodecError};
use crate::CompressionAlgorithm;

verus! {

/// Number of distinct byte values.
pub const SYMBOLS: usize = 256;

/// A node of a Huffman tree: a leaf owns one byte value, an internal node
/// owns its two subtrees.
pub struct HuffmanNode {
    pub frequency: usize,
    pub byte: Option<u8>,
    pub left: Option<Box<HuffmanNode>>,
    pub right: Option<Box<HuffmanNode>>,
}

/// Huffman codec; its streams carry the symbol frequencies in a header.
pub struct HuffmanCoding;

/// A leaf node.
pub open spec fn leaf(byte: u8, frequency: usize) -> HuffmanNode {
    HuffmanNode { frequency, byte: Some(byte), left: None, right: None }
}

/// An internal node.
pub open spec fn internal(frequency: usize, left: HuffmanNode, right: HuffmanNode) -> HuffmanNode {
    HuffmanNode {
        frequency,
        byte: None,
        left: Some(Box::new(left)),
        right: Some(Box::new(right)),
    }
}

/// Well-formed tree: leaves have positive frequency, internal nodes have two
/// children and the sum of their frequencies.
pub open spec fn well_formed(t: HuffmanNode) -> bool
    decreases t,
{
    match t.byte {
        Some(_) => t.frequency > 0 && t.left is None && t.right is None,
        None => match (t.left, t.right) {
            (Some(l), Some(r)) => t.frequency == l.frequency + r.frequency && well_formed(*l)
                && well_formed(*r),
            _ => false,
        },
    }
}

/// Number of occurrences of `b` in `s`.
pub open spec fn count_of(s: Seq<u8>, b: u8) -> nat
    decreases s.len(),
{
    if s.len() == 0 {
        0
    } else {
        count_of(s.drop_last(), b) + if s.last() == b {
            1nat
        } else {
            0nat
        }
    }
}

/// Sum of a sequence of counts.
pub open spec fn seq_sum(t: Seq<usize>) -> nat
    decreases t.len(),
{
    if t.len() == 0 {
        0
    } else {
        seq_sum(t.drop_last()) + t.last() as nat
    }
}

/// Sum of the frequencies of a queue of nodes.
pub open spec fn queue_sum(q: Seq<HuffmanNode>) -> nat
    decreases q.len(),
{
    if q.len() == 0 {
        0
    } else {
        q[0].frequency as nat + queue_sum(q.skip(1))
    }
}

/// The byte values held by the leaves of a tree.
pub open spec fn symbols(t: HuffmanNode) -> Set<u8>
    decreases t,
{
    match t.byte {
        Some(b) => set![b],
        None => {
            let l = match t.left {
                Some(c) => symbols(*c),
                None => Set::empty(),
            };
            let r = match t.right {
                Some(c) => symbols(*c),
                None => Set::empty(),
            };
            l + r
        },
    }
}

/// The byte values held by the leaves of the trees of a queue.
pub open spec fn queue_symbols(q: Seq<HuffmanNode>) -> Set<u8>
    decreases q.len(),
{
    if q.len() == 0 {
        Set::empty()
    } else {
        symbols(q[0]) + queue_symbols(q.skip(1))
    }
}

/// `n` inserted into `q` before the first node of greater frequency (so after
/// every node of equal frequency).
pub open spec fn insert_sorted(q: Seq<HuffmanNode>, n: HuffmanNode) -> Seq<HuffmanNode>
    decreases q.len(),
{
    if q.len() == 0 {
        seq![n]
    } else if q[0].frequency > n.frequency {
        seq![n] + q
    } else {
        seq![q[0]] + insert_sorted(q.skip(1), n)
    }
}

/// The queue seeded with one leaf per byte value below `k` that occurs,
/// in increasing byte order.
pub open spec fn initial_queue(freq: Seq<usize>, k: nat) -> Seq<HuffmanNode>
    decreases k,
{
    if k == 0 {
        seq![]
    } else {
        let q = initial_queue(freq, (k - 1) as nat);
        if freq[k - 1] > 0 {
            insert_sorted(q, leaf((k - 1) as u8, freq[k - 1]))
        } else {
            q
        }
    }
}

/// Repeatedly merges the two front nodes (the second becomes the left child)
/// and reinserts the merged node, until one node remains.
pub open spec fn combine(q: Seq<HuffmanNode>) -> HuffmanNode
    decreases q.len(),
    via combine_decreases
{
    if q.len() <= 1 {
        q[0]
    } else {
        combine(
            insert_sorted(
                q.skip(2),
                internal((q[0].frequency + q[1].frequency) as usize, q[1], q[0]),
            ),
        )
    }
}

#[via_fn]
proof fn combine_decreases(q: Seq<HuffmanNode>) {
    if q.len() > 1 {
        lemma_insert_sorted(
            q.skip(2),
            internal((q[0].frequency + q[1].frequency) as usize, q[1], q[0]),
        );
    }
}

/// The Huffman tree of a frequency table, if any byte value occurs.
pub open spec fn huffman_tree(freq: Seq<usize>) -> Option<HuffmanNode> {
    let q = initial_queue(freq, SYMBOLS as nat);
    if q.len() == 0 {
        None
    } else {
        Some(combine(q))
    }
}

proof fn lemma_insert_sorted(q: Seq<HuffmanNode>, n: HuffmanNode)
    ensures
        insert_sorted(q, n).len() == q.len() + 1,
        queue_sum(insert_sorted(q, n)) == queue_sum(q) + n.frequency,
        queue_symbols(insert_sorted(q, n)) == queue_symbols(q) + symbols(n),
    decreases q.len(),
{
    let r = insert_sorted(q, n);
    if q.len() == 0 {
        assert(r == seq![n]);
        assert(r.skip(1) =~= Seq::<HuffmanNode>::empty());
        assert(queue_sum(r.skip(1)) == 0);
        assert(queue_symbols(r.skip(1)) == Set::<u8>::empty());
        assert(queue_symbols(r) =~= queue_symbols(q) + symbols(n));
    } else if q[0].frequency > n.frequency {
        assert(r == seq![n] + q);
        assert(r.skip(1) =~= q);
        assert(queue_symbols(r) =~= queue_symbols(q) + symbols(n));
    } else {
        let t = q.skip(1);
        lemma_insert_sorted(t, n);
        assert(r == seq![q[0]] + insert_sorted(t, n));
        assert(r.skip(1) =~= insert_sorted(t, n));
        assert(r[0] == q[0]);
        assert(queue_symbols(r) =~= queue_symbols(q) + symbols(n));
    }
}

proof fn lemma_insert_at(q: Seq<HuffmanNode>, n: HuffmanNode, i: int)
    requires
        0 <= i <= q.len(),
        forall|j: int| 0 <= j < i ==> (#[trigger] q[j]).frequency <= n.frequency,
        i == q.len() || q[i].frequency > n.frequency,
    ensures
        q.insert(i, n) == insert_sorted(q, n),
    decreases i,
{
    if i == 0 {
        assert(q.insert(0, n) =~= seq![n] + q);
        if q.len() == 0 {
            assert(seq![n] + q =~= seq![n]);
        }
    } else {
        let t = q.skip(1);
        assert forall|j: int| 0 <= j < i - 1 implies (#[trigger] t[j]).frequency <= n.frequency by {
            assert(t[j] == q[j + 1]);
        }
        lemma_insert_at(t, n, i - 1);
        assert(q[0].frequency <= n.frequency);
        assert(q.insert(i, n) =~= seq![q[0]] + t.insert(i - 1, n));
    }
}

proof fn lemma_sum_update(t: Seq<usize>, k: int, v: usize)
    requires
        0 <= k < t.len(),
    ensures
        seq_sum(t.update(k, v)) + t[k] == seq_sum(t) + v,
    decreases t.len(),
{
    let u = t.update(k, v);
    if k == t.len() - 1 {
        assert(u.drop_last() =~= t.drop_last());
    } else {
        assert(u.drop_last() =~= t.drop_last().update(k, v));
        lemma_sum_update(t.drop_last(), k, v);
    }
}

proof fn lemma_sum_take(t: Seq<usize>, k: int)
    requires
        0 <= k <= t.len(),
    ensures
        seq_sum(t.take(k)) <= seq_sum(t),
    decreases t.len(),
{
    if k == t.len() {
        assert(t.take(k) =~= t);
    } else {
        assert(t.take(k) =~= t.drop_last().take(k));
        lemma_sum_take(t.drop_last(), k);
    }
}

proof fn lemma_initial_queue(freq: Seq<usize>, k: nat)
    requires
        k <= freq.len(),
        k <= SYMBOLS,
    ensures
        queue_sum(initial_queue(freq, k)) == seq_sum(freq.take(k as int)),
        forall|b: u8| #[trigger]
            queue_symbols(initial_queue(freq, k)).contains(b) <==> (b < k && freq[b as int] > 0),
    decreases k,
{
    if k == 0 {
        assert(freq.take(0) =~= seq![]);
    } else {
        let q = initial_queue(freq, (k - 1) as nat);
        lemma_initial_queue(freq, (k - 1) as nat);
        assert(freq.take(k as int).drop_last() =~= freq.take(k - 1));
        if freq[k - 1] > 0 {
            lemma_insert_sorted(q, leaf((k - 1) as u8, freq[k - 1]));
        }
    }
}

proof fn lemma_combine(q: Seq<HuffmanNode>)
    requires
        q.len() >= 1,
    ensures
        symbols(combine(q)) == queue_symbols(q),
        combine(q).frequency == q[0].frequency || q.len() > 1,
    decreases q.len(),
{
    if q.len() == 1 {
        assert(q.skip(1) =~= Seq::<HuffmanNode>::empty());
        assert(queue_symbols(q.skip(1)) == Set::<u8>::empty());
        assert(queue_symbols(q) =~= symbols(q[0]));
    } else {
        let n = internal((q[0].frequency + q[1].frequency) as usize, q[1], q[0]);
        let r = insert_sorted(q.skip(2), n);
        lemma_insert_sorted(q.skip(2), n);
        lemma_combine(r);
        assert(q.skip(1).skip(1) =~= q.skip(2));
        assert(q.skip(1)[0] == q[1]);
        assert(queue_symbols(q.skip(1)) == symbols(q[1]) + queue_symbols(q.skip(2)));
        assert(symbols(n) =~= symbols(q[1]) + symbols(q[0]));
        assert(queue_symbols(r) =~= queue_symbols(q));
    }
}

/// The path from `t` to a leaf holding `b` (false = left, true = right),
/// preferring the right subtree.
pub open spec fn code_in(t: HuffmanNode, b: u8) -> Option<Seq<bool>>
    decreases t,
{
    match t.byte {
        Some(x) => if x == b {
            Some(seq![])
        } else {
            None
        },
        None => {
            let r = match t.right {
                Some(c) => code_in(*c, b),
                None => None,
            };
            let l = match t.left {
                Some(c) => code_in(*c, b),
                None => None,
            };
            match r {
                Some(c) => Some(seq![true] + c),
                None => match l {
                    Some(c) => Some(seq![false] + c),
                    None => None,
                },
            }
        },
    }
}

/// The code of `b` in the tree rooted at `t`; a lone leaf gets the one-bit code `0`.
pub open spec fn code_of(t: HuffmanNode, b: u8) -> Option<Seq<bool>> {
    if t.byte is Some {
        if code_in(t, b) is Some {
            Some(seq![false])
        } else {
            None
        }
    } else {
        code_in(t, b)
    }
}

/// `a` is a prefix of `c`.
pub open spec fn is_prefix(a: Seq<bool>, c: Seq<bool>) -> bool {
    a.len() <= c.len() && c.take(a.len() as int) == a
}

proof fn lemma_code_in_symbols(t: HuffmanNode, b: u8)
    ensures
        code_in(t, b) is Some <==> symbols(t).contains(b),
    decreases t,
{
    if t.byte is None {
        if let Some(c) = t.left {
            lemma_code_in_symbols(*c, b);
        }
        if let Some(c) = t.right {
            lemma_code_in_symbols(*c, b);
        }
    }
}

proof fn lemma_code_in_prefix_free(t: HuffmanNode, a: u8, b: u8)
    requires
        a != b,
        code_in(t, a) is Some,
        code_in(t, b) is Some,
    ensures
        !is_prefix(code_in(t, a)->Some_0, code_in(t, b)->Some_0),
    decreases t,
{
    let ca = code_in(t, a)->Some_0;
    let cb = code_in(t, b)->Some_0;
    if t.byte is None {
        let ra = match t.right { Some(c) => code_in(*c, a), None => None };
        let rb = match t.right { Some(c) => code_in(*c, b), None => None };
        if is_prefix(ca, cb) {
            assert(ca.len() >= 1);
            assert(cb[0] == ca[0]);
            if ra is Some && rb is Some {
                let c = *t.right->Some_0;
                lemma_code_in_prefix_free(c, a, b);
                assert(cb.skip(1).take(ca.skip(1).len() as int) =~= ca.skip(1));
                assert(ca.skip(1) =~= code_in(c, a)->Some_0);
                assert(cb.skip(1) =~= code_in(c, b)->Some_0);
            } else if ra is None && rb is None {
                let c = *t.left->Some_0;
                lemma_code_in_prefix_free(c, a, b);
                assert(cb.skip(1).take(ca.skip(1).len() as int) =~= ca.skip(1));
                assert(ca.skip(1) =~= code_in(c, a)->Some_0);
                assert(cb.skip(1) =~= code_in(c, b)->Some_0);
            }
        }
    }
}

/// No code of a Huffman tree is a prefix of the code of another byte value.
pub proof fn lemma_prefix_free(freq: Seq<usize>, a: u8, b: u8)
    requires
        huffman_tree(freq) is Some,
        a != b,
        code_of(huffman_tree(freq)->Some_0, a) is Some,
        code_of(huffman_tree(freq)->Some_0, b) is Some,
    ensures
        !is_prefix(
            code_of(huffman_tree(freq)->Some_0, a)->Some_0,
            code_of(huffman_tree(freq)->Some_0, b)->Some_0,
        ),
{
    let t = huffman_tree(freq)->Some_0;
    if t.byte is None {
        lemma_code_in_prefix_free(t, a, b);
    }
}

/// The bits of `b`'s code, or none when it has no code.
pub open spec fn code_bits(t: HuffmanNode, b: u8) -> Seq<bool> {
    match code_of(t, b) {
        Some(c) => c,
        None => seq![],
    }
}

/// The codes of the bytes of `d`, concatenated in order.
pub open spec fn bit_stream(t: HuffmanNode, d: Seq<u8>) -> Seq<bool>
    decreases d.len(),
{
    if d.len() == 0 {
        seq![]
    } else {
        bit_stream(t, d.drop_last()) + code_bits(t, d.last())
    }
}

/// The entries of a code table for the bytes of `d`, concatenated in order.
pub open spec fn table_bits(table: Seq<Vec<bool>>, d: Seq<u8>) -> Seq<bool>
    decreases d.len(),
{
    if d.len() == 0 {
        seq![]
    } else {
        table_bits(table, d.drop_last()) + table[d.last() as int]@
    }
}

/// Bit `i` of a bit sequence as 0 or 1; positions past the end are 0.
pub open spec fn bit_val(bits: Seq<bool>, i: int) -> u8 {
    if 0 <= i < bits.len() && bits[i] {
        1
    } else {
        0
    }
}

/// The byte holding bits `base..base + 8`, most significant bit first.
pub open spec fn byte_of(bits: Seq<bool>, base: int) -> u8 {
    (bit_val(bits, base) << 7u8) | (bit_val(bits, base + 1) << 6u8) | (bit_val(bits, base + 2)
        << 5u8) | (bit_val(bits, base + 3) << 4u8) | (bit_val(bits, base + 4) << 3u8) | (bit_val(
        bits,
        base + 5,
    ) << 2u8) | (bit_val(bits, base + 6) << 1u8) | bit_val(bits, base + 7)
}

/// A bit sequence packed eight to a byte, the last byte padded with zeros.
pub open spec fn pack_bits(bits: Seq<bool>) -> Seq<u8> {
    Seq::new(((bits.len() + 7) / 8) as nat, |k: int| byte_of(bits, 8 * k))
}

/// Bit `i` of a packed byte sequence, most significant bit of each byte first.
pub open spec fn bit_at(bytes: Seq<u8>, i: int) -> bool {
    ((bytes[i / 8] >> ((7 - i % 8) as u8)) & 1u8) == 1u8
}

/// The frequency table of `d`.
pub open spec fn freq_table(d: Seq<u8>) -> Seq<usize> {
    Seq::new(SYMBOLS as nat, |b: int| count_of(d, b as u8) as usize)
}

/// The first `k` entries of a frequency table as little-endian 32-bit values.
pub open spec fn freq_bytes(freq: Seq<usize>, k: nat) -> Seq<u8>
    decreases k,
{
    if k == 0 {
        seq![]
    } else {
        freq_bytes(freq, (k - 1) as nat) + u32_le(freq[k - 1] as u32)
    }
}

/// Bytes before the packed payload: the length, then every byte value's count.
pub const HEADER_LEN: usize = 1028;

/// The compressed form of `d`: its length, its frequency table, then the
/// packed codes of its bytes.
pub open spec fn huffman_encode(d: Seq<u8>) -> Seq<u8> {
    if d.len() == 0 {
        seq![]
    } else {
        let freq = freq_table(d);
        u32_le(d.len() as u32) + freq_bytes(freq, SYMBOLS as nat) + pack_bits(
            bit_stream(huffman_tree(freq)->Some_0, d),
        )
    }
}

proof fn lemma_byte_bits(v0: u8, v1: u8, v2: u8, v3: u8, v4: u8, v5: u8, v6: u8, v7: u8)
    requires
        v0 <= 1 && v1 <= 1 && v2 <= 1 && v3 <= 1 && v4 <= 1 && v5 <= 1 && v6 <= 1 && v7 <= 1,
    ensures
        ({
            let x = (v0 << 7u8) | (v1 << 6u8) | (v2 << 5u8) | (v3 << 4u8) | (v4 << 3u8) | (v5
                << 2u8) | (v6 << 1u8) | v7;
            &&& (x >> 7u8) & 1u8 == v0
            &&& (x >> 6u8) & 1u8 == v1
            &&& (x >> 5u8) & 1u8 == v2
            &&& (x >> 4u8) & 1u8 == v3
            &&& (x >> 3u8) & 1u8 == v4
            &&& (x >> 2u8) & 1u8 == v5
            &&& (x >> 1u8) & 1u8 == v6
            &&& (x >> 0u8) & 1u8 == v7
        }),
{
    assert({
        let x = (v0 << 7u8) | (v1 << 6u8) | (v2 << 5u8) | (v3 << 4u8) | (v4 << 3u8) | (v5 << 2u8)
            | (v6 << 1u8) | v7;
        &&& (x >> 7u8) & 1u8 == v0
        &&& (x >> 6u8) & 1u8 == v1
        &&& (x >> 5u8) & 1u8 == v2
        &&& (x >> 4u8) & 1u8 == v3
        &&& (x >> 3u8) & 1u8 == v4
        &&& (x >> 2u8) & 1u8 == v5
        &&& (x >> 1u8) & 1u8 == v6
        &&& (x >> 0u8) & 1u8 == v7
    }) by (bit_vector)
        requires
            v0 <= 1 && v1 <= 1 && v2 <= 1 && v3 <= 1 && v4 <= 1 && v5 <= 1 && v6 <= 1 && v7 <= 1,
    ;
}

proof fn lemma_pack_bit(bits: Seq<bool>, i: int)
    requires
        0 <= i < 8 * pack_bits(bits).len(),
    ensures
        bit_at(pack_bits(bits), i) == (i < bits.len() && bits[i]),
{
    let k = i / 8;
    let j = i % 8;
    let base = 8 * k;
    lemma_byte_bits(
        bit_val(bits, base),
        bit_val(bits, base + 1),
        bit_val(bits, base + 2),
        bit_val(bits, base + 3),
        bit_val(bits, base + 4),
        bit_val(bits, base + 5),
        bit_val(bits, base + 6),
        bit_val(bits, base + 7),
    );
    assert(pack_bits(bits)[k] == byte_of(bits, base));
    assert(i == base + j);
}

proof fn lemma_table_bits(t: HuffmanNode, table: Seq<Vec<bool>>, d: Seq<u8>)
    requires
        table.len() == SYMBOLS,
        forall|b: u8| #[trigger] table[b as int]@ == code_bits(t, b),
    ensures
        table_bits(table, d) == bit_stream(t, d),
    decreases d.len(),
{
    if d.len() > 0 {
        lemma_table_bits(t, table, d.drop_last());
    }
}

proof fn lemma_count_bound(s: Seq<u8>, b: u8)
    ensures
        count_of(s, b) <= s.len(),
    decreases s.len(),
{
    if s.len() > 0 {
        lemma_count_bound(s.drop_last(), b);
    }
}

proof fn lemma_count_pos(s: Seq<u8>, i: int)
    requires
        0 <= i < s.len(),
    ensures
        count_of(s, s[i]) > 0,
    decreases s.len(),
{
    if i < s.len() - 1 {
        lemma_count_pos(s.drop_last(), i);
    }
}

/// Walks from `t` along the payload bits from `pos` down to a leaf:
/// `(its byte, position after the walk)`, or `None` when the bits run out.
pub open spec fn descend(t: HuffmanNode, payload: Seq<u8>, pos: int) -> Option<(u8, int)>
    decreases t,
{
    match t.byte {
        Some(b) => Some((b, pos)),
        None => if pos < 0 || pos >= 8 * payload.len() {
            None
        } else {
            let child = if bit_at(payload, pos) {
                t.right
            } else {
                t.left
            };
            match child {
                Some(c) => descend(*c, payload, pos + 1),
                None => None,
            }
        },
    }
}

/// Reads one symbol at `pos`; a lone leaf root reads one bit per symbol.
pub open spec fn walk(t: HuffmanNode, payload: Seq<u8>, pos: int) -> Option<(u8, int)> {
    match t.byte {
        Some(b) => if 0 <= pos < 8 * payload.len() {
            Some((b, pos + 1))
        } else {
            None
        },
        None => descend(t, payload, pos),
    }
}

/// Reads `remaining` more symbols from `pos` on, after the output `out`.
pub open spec fn decode_symbols(
    t: HuffmanNode,
    payload: Seq<u8>,
    pos: int,
    remaining: nat,
    out: Seq<u8>,
) -> Result<Seq<u8>, CodecError>
    decreases remaining,
{
    if remaining == 0 {
        Ok(out)
    } else {
        match walk(t, payload, pos) {
            None => Err(CodecError::TruncatedStream),
            Some((b, np)) => decode_symbols(t, payload, np, (remaining - 1) as nat, out.push(b)),
        }
    }
}

/// The frequency table stored in a header.
pub open spec fn header_freq(d: Seq<u8>) -> Seq<usize> {
    Seq::new(
        SYMBOLS as nat,
        |b: int| le_u32(d[4 + 4 * b], d[5 + 4 * b], d[6 + 4 * b], d[7 + 4 * b]) as usize,
    )
}

/// The decoded form of a stream, or why it cannot be decoded.
pub open spec fn huffman_decode(d: Seq<u8>) -> Result<Seq<u8>, CodecError> {
    if d.len() == 0 {
        Ok(seq![])
    } else if d.len() < HEADER_LEN {
        Err(CodecError::CorruptHeader)
    } else {
        let n = le_u32(d[0], d[1], d[2], d[3]);
        let freq = header_freq(d);
        if seq_sum(freq) != n {
            Err(CodecError::CorruptHeader)
        } else {
            match huffman_tree(freq) {
                None => Ok(seq![]),
                Some(t) => decode_symbols(t, d.skip(HEADER_LEN as int), 0, n as nat, seq![]),
            }
        }
    }
}

proof fn lemma_descend(t: HuffmanNode, payload: Seq<u8>, pos: int, b: u8)
    requires
        code_in(t, b) is Some,
        0 <= pos,
        pos + code_in(t, b)->Some_0.len() <= 8 * payload.len(),
        forall|j: int|
            0 <= j < code_in(t, b)->Some_0.len() ==> bit_at(payload, pos + j) == #[trigger] code_in(
                t,
                b,
            )->Some_0[j],
    ensures
        descend(t, payload, pos) == Some((b, pos + code_in(t, b)->Some_0.len())),
    decreases t,
{
    let c = code_in(t, b)->Some_0;
    if t.byte is None {
        let r = match t.right { Some(x) => code_in(*x, b), None => None };
        assert(c[0] == (r is Some));
        assert(bit_at(payload, pos + 0) == c[0]);
        if r is Some {
            let child = *t.right->Some_0;
            let cr = code_in(child, b)->Some_0;
            assert forall|j: int| 0 <= j < cr.len() implies bit_at(payload, pos + 1 + j) == #[trigger] cr[j] by {
                assert(c[j + 1] == cr[j]);
                assert(bit_at(payload, pos + (j + 1)) == c[j + 1]);
            }
            lemma_descend(child, payload, pos + 1, b);
        } else {
            let child = *t.left->Some_0;
            let cl = code_in(child, b)->Some_0;
            assert forall|j: int| 0 <= j < cl.len() implies bit_at(payload, pos + 1 + j) == #[trigger] cl[j] by {
                assert(c[j + 1] == cl[j]);
                assert(bit_at(payload, pos + (j + 1)) == c[j + 1]);
            }
            lemma_descend(child, payload, pos + 1, b);
        }
    }
}

proof fn lemma_walk(t: HuffmanNode, payload: Seq<u8>, pos: int, b: u8)
    requires
        code_of(t, b) is Some,
        0 <= pos,
        pos + code_of(t, b)->Some_0.len() <= 8 * payload.len(),
        forall|j: int|
            0 <= j < code_of(t, b)->Some_0.len() ==> bit_at(payload, pos + j) == #[trigger] code_of(
                t,
                b,
            )->Some_0[j],
    ensures
        walk(t, payload, pos) == Some((b, pos + code_of(t, b)->Some_0.len())),
{
    if t.byte is None {
        lemma_descend(t, payload, pos, b);
    }
}

proof fn lemma_stream_prefix(t: HuffmanNode, s: Seq<u8>, i: int)
    requires
        0 <= i <= s.len(),
    ensures
        bit_stream(t, s.take(i)).len() <= bit_stream(t, s).len(),
        forall|j: int|
            0 <= j < bit_stream(t, s.take(i)).len() ==> #[trigger] bit_stream(t, s.take(i))[j]
                == bit_stream(t, s)[j],
    decreases s.len() - i,
{
    if i == s.len() {
        assert(s.take(i) =~= s);
    } else {
        lemma_stream_prefix(t, s, i + 1);
        assert(s.take(i + 1).drop_last() =~= s.take(i));
        let p = bit_stream(t, s.take(i));
        let q = bit_stream(t, s.take(i + 1));
        assert forall|j: int| 0 <= j < p.len() implies #[trigger] p[j] == bit_stream(t, s)[j] by {
            assert(q[j] == p[j]);
        }
    }
}

proof fn lemma_decode_all(t: HuffmanNode, s: Seq<u8>, payload: Seq<u8>, i: int)
    requires
        0 <= i <= s.len(),
        bit_stream(t, s).len() <= 8 * payload.len(),
        forall|j: int|
            0 <= j < bit_stream(t, s).len() ==> bit_at(payload, j) == #[trigger] bit_stream(t, s)[j],
        forall|k: int| 0 <= k < s.len() ==> (#[trigger] code_of(t, s[k])) is Some,
    ensures
        decode_symbols(
            t,
            payload,
            bit_stream(t, s.take(i)).len() as int,
            (s.len() - i) as nat,
            s.take(i),
        ) == Ok::<Seq<u8>, CodecError>(s),
    decreases s.len() - i,
{
    if i == s.len() {
        assert(s.take(i) =~= s);
    } else {
        let p = bit_stream(t, s.take(i));
        let c = code_of(t, s[i])->Some_0;
        assert(code_of(t, s[i]) is Some);
        assert(s.take(i + 1).drop_last() =~= s.take(i));
        assert(bit_stream(t, s.take(i + 1)) == p + c);
        lemma_stream_prefix(t, s, i + 1);
        assert forall|j: int| 0 <= j < c.len() implies bit_at(payload, p.len() + j) == #[trigger] c[j] by {
            assert((p + c)[p.len() + j] == c[j]);
            assert(bit_stream(t, s.take(i + 1))[p.len() + j] == bit_stream(t, s)[p.len() + j]);
        }
        lemma_walk(t, payload, p.len() as int, s[i]);
        assert(s.take(i).push(s[i]) =~= s.take(i + 1));
        lemma_decode_all(t, s, payload, i + 1);
    }
}

proof fn lemma_freq_bytes(freq: Seq<usize>, k: nat, b: int, j: int)
    requires
        k <= freq.len(),
        0 <= b < k,
        0 <= j < 4,
    ensures
        freq_bytes(freq, k)[4 * b + j] == u32_le(freq[b] as u32)[j],
    decreases k,
{
    lemma_freq_bytes_len(freq, (k - 1) as nat);
    if b < k - 1 {
        lemma_freq_bytes(freq, (k - 1) as nat, b, j);
    }
}

proof fn lemma_freq_bytes_len(freq: Seq<usize>, k: nat)
    requires
        k <= freq.len(),
    ensures
        freq_bytes(freq, k).len() == 4 * k,
    decreases k,
{
    if k > 0 {
        lemma_freq_bytes_len(freq, (k - 1) as nat);
    }
}

proof fn lemma_freq_table_sum(s: Seq<u8>)
    requires
        s.len() <= u32::MAX,
    ensures
        seq_sum(freq_table(s)) == s.len(),
    decreases s.len(),
{
    if s.len() == 0 {
        assert(freq_table(s).len() == SYMBOLS);
        lemma_zero_sum(freq_table(s));
    } else {
        let x = s.last();
        let f0 = freq_table(s.drop_last());
        lemma_freq_table_sum(s.drop_last());
        lemma_count_bound(s.drop_last(), x);
        lemma_count_bound(s, x);
        assert(freq_table(s) =~= f0.update(x as int, (f0[x as int] + 1) as usize)) by {
            assert forall|b: int| 0 <= b < SYMBOLS implies freq_table(s)[b] == f0.update(
                x as int,
                (f0[x as int] + 1) as usize,
            )[b] by {
                lemma_count_bound(s, b as u8);
                lemma_count_bound(s.drop_last(), b as u8);
            }
        }
        lemma_sum_update(f0, x as int, (f0[x as int] + 1) as usize);
    }
}

proof fn lemma_zero_sum(t: Seq<usize>)
    requires
        forall|j: int| 0 <= j < t.len() ==> #[trigger] t[j] == 0,
    ensures
        seq_sum(t) == 0,
    decreases t.len(),
{
    if t.len() > 0 {
        lemma_zero_sum(t.drop_last());
    }
}

proof fn lemma_tree_codes(s: Seq<u8>)
    requires
        0 < s.len() <= u32::MAX,
    ensures
        huffman_tree(freq_table(s)) is Some,
        forall|k: int| 0 <= k < s.len() ==> (#[trigger] code_of(huffman_tree(freq_table(s))->Some_0, s[k])) is Some,
{
    let freq = freq_table(s);
    let q = initial_queue(freq, SYMBOLS as nat);
    lemma_initial_queue(freq, SYMBOLS as nat);
    lemma_count_bound(s, s[0]);
    lemma_count_pos(s, 0);
    assert(q.len() > 0) by {
        assert(queue_symbols(q).contains(s[0]));
        if q.len() == 0 {
            assert(queue_symbols(q) == Set::<u8>::empty());
        }
    }
    lemma_combine(q);
    let t = combine(q);
    assert forall|k: int| 0 <= k < s.len() implies (#[trigger] code_of(huffman_tree(freq)->Some_0, s[k])) is Some by {
        lemma_count_pos(s, k);
        lemma_count_bound(s, s[k]);
        assert(queue_symbols(q).contains(s[k]));
        lemma_code_in_symbols(t, s[k]);
    }
}

proof fn lemma_header(n: u32, freq: Seq<usize>, payload: Seq<u8>)
    requires
        freq.len() == SYMBOLS,
        forall|b: int| 0 <= b < SYMBOLS ==> #[trigger] freq[b] <= u32::MAX,
    ensures
        ({
            let e = u32_le(n) + freq_bytes(freq, SYMBOLS as nat) + payload;
            &&& e.len() >= HEADER_LEN
            &&& le_u32(e[0], e[1], e[2], e[3]) == n
            &&& header_freq(e) == freq
            &&& e.skip(HEADER_LEN as int) == payload
        }),
{
    let h = u32_le(n);
    let fb = freq_bytes(freq, SYMBOLS as nat);
    let e = h + fb + payload;
    lemma_freq_bytes_len(freq, SYMBOLS as nat);
    lemma_u32_le(n);
    assert(e[0] == h[0] && e[1] == h[1] && e[2] == h[2] && e[3] == h[3]);
    assert(header_freq(e) =~= freq) by {
        assert forall|b: int| 0 <= b < SYMBOLS implies header_freq(e)[b] == freq[b] by {
            lemma_freq_bytes(freq, SYMBOLS as nat, b, 0);
            lemma_freq_bytes(freq, SYMBOLS as nat, b, 1);
            lemma_freq_bytes(freq, SYMBOLS as nat, b, 2);
            lemma_freq_bytes(freq, SYMBOLS as nat, b, 3);
            lemma_u32_le(freq[b] as u32);
            assert(e[4 + 4 * b] == fb[4 * b + 0]);
            assert(e[5 + 4 * b] == fb[4 * b + 1]);
            assert(e[6 + 4 * b] == fb[4 * b + 2]);
            assert(e[7 + 4 * b] == fb[4 * b + 3]);
        }
    }
    assert(e.skip(HEADER_LEN as int) =~= payload);
}

proof fn lemma_pack_all(bits: Seq<bool>)
    ensures
        bits.len() <= 8 * pack_bits(bits).len(),
        forall|j: int| 0 <= j < bits.len() ==> bit_at(pack_bits(bits), j) == #[trigger] bits[j],
{
    let payload = pack_bits(bits);
    assert(bits.len() <= 8 * payload.len()) by (nonlinear_arith)
        requires
            payload.len() == (bits.len() + 7) / 8,
    ;
    assert forall|j: int| 0 <= j < bits.len() implies bit_at(payload, j) == #[trigger] bits[j] by {
        lemma_pack_bit(bits, j);
    }
}

proof fn lemma_payload_decodes(s: Seq<u8>)
    requires
        0 < s.len() <= u32::MAX,
    ensures
        huffman_tree(freq_table(s)) is Some,
        decode_symbols(
            huffman_tree(freq_table(s))->Some_0,
            pack_bits(bit_stream(huffman_tree(freq_table(s))->Some_0, s)),
            0,
            s.len(),
            seq![],
        ) == Ok::<Seq<u8>, CodecError>(s),
{
    lemma_tree_codes(s);
    let t = huffman_tree(freq_table(s))->Some_0;
    let bits = bit_stream(t, s);
    lemma_pack_all(bits);
    assert(s.take(0) =~= seq![]);
    assert(bit_stream(t, s.take(0)).len() == 0);
    lemma_decode_all(t, s, pack_bits(bits), 0);
}

/// Decoding the encoding of any buffer whose length fits the header gives
/// the buffer back.
pub proof fn lemma_huffman_round_trip(s: Seq<u8>)
    requires
        s.len() <= u32::MAX,
    ensures
        huffman_decode(huffman_encode(s)) == Ok::<Seq<u8>, CodecError>(s),
{
    if s.len() == 0 {
        assert(s =~= seq![]);
    } else {
        let n = s.len() as u32;
        let freq = freq_table(s);
        lemma_payload_decodes(s);
        let payload = pack_bits(bit_stream(huffman_tree(freq)->Some_0, s));
        assert forall|b: int| 0 <= b < SYMBOLS implies #[trigger] freq[b] <= u32::MAX by {
            lemma_count_bound(s, b as u8);
        }
        lemma_header(n, freq, payload);
        lemma_freq_table_sum(s);
    }
}

/// Every tree of a queue is well formed.
pub open spec fn queue_wf(q: Seq<HuffmanNode>) -> bool
    decreases q.len(),
{
    q.len() == 0 || (well_formed(q[0]) && queue_wf(q.skip(1)))
}

proof fn lemma_insert_sorted_wf(q: Seq<HuffmanNode>, n: HuffmanNode)
    requires
        queue_wf(q),
        well_formed(n),
    ensures
        queue_wf(insert_sorted(q, n)),
    decreases q.len(),
{
    let r = insert_sorted(q, n);
    if q.len() == 0 {
        assert(r == seq![n]);
        assert(r.skip(1) =~= Seq::<HuffmanNode>::empty());
        assert(queue_wf(r.skip(1)));
        assert(r[0] == n);
    } else if q[0].frequency > n.frequency {
        assert(r == seq![n] + q);
        assert(r.skip(1) =~= q);
        assert(r[0] == n);
    } else {
        assert(well_formed(q[0]) && queue_wf(q.skip(1)));
        lemma_insert_sorted_wf(q.skip(1), n);
        assert(r == seq![q[0]] + insert_sorted(q.skip(1), n));
        assert(r.skip(1) =~= insert_sorted(q.skip(1), n));
        assert(r[0] == q[0]);
    }
}

proof fn lemma_initial_queue_wf(freq: Seq<usize>, k: nat)
    requires
        k <= freq.len(),
        k <= SYMBOLS,
    ensures
        queue_wf(initial_queue(freq, k)),
    decreases k,
{
    if k > 0 {
        lemma_initial_queue_wf(freq, (k - 1) as nat);
        if freq[k - 1] > 0 {
            lemma_insert_sorted_wf(initial_queue(freq, (k - 1) as nat), leaf((k - 1) as u8, freq[k - 1]));
        }
    }
}

proof fn lemma_combine_wf(q: Seq<HuffmanNode>)
    requires
        q.len() >= 1,
        queue_wf(q),
        queue_sum(q) <= usize::MAX,
    ensures
        well_formed(combine(q)),
    decreases q.len(),
{
    if q.len() > 1 {
        assert(q.skip(1)[0] == q[1]);
        assert(q.skip(1).skip(1) =~= q.skip(2));
        assert(queue_sum(q) == q[0].frequency + queue_sum(q.skip(1)));
        assert(queue_sum(q.skip(1)) == q[1].frequency + queue_sum(q.skip(2)));
        assert(well_formed(q[0]) && queue_wf(q.skip(1)));
        assert(well_formed(q[1]) && queue_wf(q.skip(2)));
        let n = internal((q[0].frequency + q[1].frequency) as usize, q[1], q[0]);
        assert(well_formed(n));
        lemma_insert_sorted(q.skip(2), n);
        lemma_insert_sorted_wf(q.skip(2), n);
        lemma_combine_wf(insert_sorted(q.skip(2), n));
    }
}

proof fn lemma_count_single(s: Seq<u8>, x: u8, b: u8)
    requires
        forall|i: int| 0 <= i < s.len() ==> #[trigger] s[i] == x,
    ensures
        count_of(s, b) == if b == x {
            s.len()
        } else {
            0
        },
    decreases s.len(),
{
    if s.len() > 0 {
        lemma_count_single(s.drop_last(), x, b);
    }
}

proof fn lemma_initial_queue_single(freq: Seq<usize>, x: u8, k: nat)
    requires
        freq.len() == SYMBOLS,
        k <= SYMBOLS,
        forall|b: int| 0 <= b < SYMBOLS && b != x ==> #[trigger] freq[b] == 0,
        freq[x as int] > 0,
    ensures
        initial_queue(freq, k) == if k <= x {
            Seq::<HuffmanNode>::empty()
        } else {
            seq![leaf(x, freq[x as int])]
        },
    decreases k,
{
    if k > 0 {
        lemma_initial_queue_single(freq, x, (k - 1) as nat);
        if k - 1 == x {
            assert(insert_sorted(Seq::<HuffmanNode>::empty(), leaf(x, freq[x as int])) == seq![
                leaf(x, freq[x as int]),
            ]);
        }
    }
}

proof fn lemma_stream_one_bit(t: HuffmanNode, d: Seq<u8>)
    requires
        forall|i: int| 0 <= i < d.len() ==> (#[trigger] code_bits(t, d[i])).len() == 1,
    ensures
        bit_stream(t, d).len() == d.len(),
    decreases d.len(),
{
    if d.len() > 0 {
        assert(code_bits(t, d[d.len() - 1]).len() == 1);
        lemma_stream_one_bit(t, d.drop_last());
    }
}

/// A buffer of one repeated byte value gets a lone leaf as its tree, and
/// each of its bytes is coded by the single bit 0.
pub proof fn lemma_single_symbol(s: Seq<u8>)
    requires
        0 < s.len() <= u32::MAX,
        forall|i: int| 0 <= i < s.len() ==> #[trigger] s[i] == s[0],
    ensures
        huffman_tree(freq_table(s)) == Some(leaf(s[0], s.len() as usize)),
        code_of(leaf(s[0], s.len() as usize), s[0]) == Some(seq![false]),
        bit_stream(leaf(s[0], s.len() as usize), s).len() == s.len(),
{
    let x = s[0];
    let freq = freq_table(s);
    assert forall|b: int| 0 <= b < SYMBOLS implies #[trigger] freq[b] == if b == x {
        s.len() as usize
    } else {
        0
    } by {
        lemma_count_single(s, x, b as u8);
    }
    lemma_initial_queue_single(freq, x, SYMBOLS as nat);
    let t = leaf(x, s.len() as usize);
    assert(code_of(t, x) == Some(seq![false]));
    assert forall|i: int| 0 <= i < s.len() implies (#[trigger] code_bits(t, s[i])).len() == 1 by {
        assert(s[i] == x);
    }
    lemma_stream_one_bit(t, s);
}

proof fn lemma_descend_short(t: HuffmanNode, payload: Seq<u8>, pos: int, b: u8)
    requires
        code_in(t, b) is Some,
        0 <= pos <= 8 * payload.len(),
        pos + code_in(t, b)->Some_0.len() > 8 * payload.len(),
        forall|j: int|
            0 <= j < code_in(t, b)->Some_0.len() && pos + j < 8 * payload.len() ==> bit_at(
                payload,
                pos + j,
            ) == #[trigger] code_in(t, b)->Some_0[j],
    ensures
        descend(t, payload, pos) is None,
    decreases t,
{
    let c = code_in(t, b)->Some_0;
    if t.byte is None && pos < 8 * payload.len() {
        let r = match t.right { Some(x) => code_in(*x, b), None => None };
        assert(bit_at(payload, pos + 0) == c[0]);
        if r is Some {
            let child = *t.right->Some_0;
            let cr = code_in(child, b)->Some_0;
            assert forall|j: int| 0 <= j < cr.len() && pos + 1 + j < 8 * payload.len() implies bit_at(payload, pos + 1 + j) == #[trigger] cr[j] by {
                assert(c[j + 1] == cr[j]);
                assert(bit_at(payload, pos + (j + 1)) == c[j + 1]);
            }
            lemma_descend_short(child, payload, pos + 1, b);
        } else {
            let child = *t.left->Some_0;
            let cl = code_in(child, b)->Some_0;
            assert forall|j: int| 0 <= j < cl.len() && pos + 1 + j < 8 * payload.len() implies bit_at(payload, pos + 1 + j) == #[trigger] cl[j] by {
                assert(c[j + 1] == cl[j]);
                assert(bit_at(payload, pos + (j + 1)) == c[j + 1]);
            }
            lemma_descend_short(child, payload, pos + 1, b);
        }
    }
}

proof fn lemma_decode_short(t: HuffmanNode, s: Seq<u8>, payload: Seq<u8>, i: int)
    requires
        0 <= i <= s.len(),
        8 * payload.len() < bit_stream(t, s).len(),
        bit_stream(t, s.take(i)).len() <= 8 * payload.len(),
        forall|j: int|
            0 <= j < 8 * payload.len() ==> bit_at(payload, j) == #[trigger] bit_stream(t, s)[j],
        forall|k: int| 0 <= k < s.len() ==> (#[trigger] code_of(t, s[k])) is Some,
    ensures
        decode_symbols(
            t,
            payload,
            bit_stream(t, s.take(i)).len() as int,
            (s.len() - i) as nat,
            s.take(i),
        ) == Err::<Seq<u8>, CodecError>(CodecError::TruncatedStream),
    decreases s.len() - i,
{
    if i == s.len() {
        assert(s.take(i) =~= s);
    } else {
        let p = bit_stream(t, s.take(i));
        let c = code_of(t, s[i])->Some_0;
        assert(code_of(t, s[i]) is Some);
        assert(s.take(i + 1).drop_last() =~= s.take(i));
        assert(bit_stream(t, s.take(i + 1)) == p + c);
        lemma_stream_prefix(t, s, i + 1);
        if p.len() + c.len() <= 8 * payload.len() {
            assert forall|j: int| 0 <= j < c.len() implies bit_at(payload, p.len() + j) == #[trigger] c[j] by {
                assert((p + c)[p.len() + j] == c[j]);
                assert(bit_stream(t, s.take(i + 1))[p.len() + j] == bit_stream(t, s)[p.len() + j]);
            }
            lemma_walk(t, payload, p.len() as int, s[i]);
            assert(s.take(i).push(s[i]) =~= s.take(i + 1));
            lemma_decode_short(t, s, payload, i + 1);
        } else if t.byte is None {
            assert forall|j: int| 0 <= j < c.len() && p.len() + j < 8 * payload.len() implies bit_at(payload, p.len() + j) == #[trigger] c[j] by {
                assert((p + c)[p.len() + j] == c[j]);
                assert(bit_stream(t, s.take(i + 1))[p.len() + j] == bit_stream(t, s)[p.len() + j]);
            }
            lemma_descend_short(t, payload, p.len() as int, s[i]);
        }
    }
}

proof fn lemma_code_nonempty(t: HuffmanNode, b: u8)
    requires
        code_of(t, b) is Some,
    ensures
        code_of(t, b)->Some_0.len() >= 1,
{
}

/// Every cut-short encoding of a non-empty buffer is rejected: inside the
/// header with `CorruptHeader`, in the packed codes with `TruncatedStream`.
pub proof fn lemma_huffman_truncated(s: Seq<u8>, k: int)
    requires
        0 < s.len() <= u32::MAX,
        0 < k < huffman_encode(s).len(),
    ensures
        huffman_decode(huffman_encode(s).take(k)) == Err::<Seq<u8>, CodecError>(
            if k < HEADER_LEN {
                CodecError::CorruptHeader
            } else {
                CodecError::TruncatedStream
            },
        ),
{
    if k >= HEADER_LEN {
        let n = s.len() as u32;
        let freq = freq_table(s);
        lemma_tree_codes(s);
        let t = huffman_tree(freq)->Some_0;
        let bits = bit_stream(t, s);
        let payload = pack_bits(bits);
        assert forall|b: int| 0 <= b < SYMBOLS implies #[trigger] freq[b] <= u32::MAX by {
            lemma_count_bound(s, b as u8);
        }
        lemma_header(n, freq, payload);
        lemma_freq_table_sum(s);
        let e = huffman_encode(s);
        let d = e.take(k);
        let short = payload.take(k - HEADER_LEN);
        assert(d.len() >= HEADER_LEN);
        assert(le_u32(d[0], d[1], d[2], d[3]) == le_u32(e[0], e[1], e[2], e[3]));
        assert(header_freq(d) =~= header_freq(e));
        assert(d.skip(HEADER_LEN as int) =~= short);
        lemma_pack_all(bits);
        assert(s.take(s.len() - 1).len() == s.len() - 1);
        assert(s.take(s.len() as int).drop_last() =~= s.take(s.len() - 1));
        assert(s.take(s.len() as int) =~= s);
        lemma_code_nonempty(t, s[s.len() - 1]);
        assert(bits.len() >= 1);
        assert(8 * short.len() < bits.len()) by (nonlinear_arith)
            requires
                short.len() < payload.len(),
                payload.len() == (bits.len() + 7) / 8,
                bits.len() >= 1,
        ;
        assert forall|j: int| 0 <= j < 8 * short.len() implies bit_at(short, j) == #[trigger] bits[j] by {
            assert(short[j / 8] == payload[j / 8]);
        }
        assert(s.take(0) =~= seq![]);
        assert(bit_stream(t, s.take(0)).len() == 0);
        lemma_decode_short(t, s, short, 0);
    }
}

impl HuffmanNode {
    /// A leaf for `byte`.
    pub fn new_leaf(byte: u8, frequency: usize) -> (r: Self)
        ensures
            r == leaf(byte, frequency),
    {
        HuffmanNode { frequency, byte: Some(byte), left: None, right: None }
    }

    /// An internal node over two subtrees.
    pub fn new_internal(frequency: usize, left: HuffmanNode, right: HuffmanNode) -> (r: Self)
        ensures
            r == internal(frequency, left, right),
    {
        HuffmanNode {
            frequency,
            byte: None,
            left: Some(Box::new(left)),
            right: Some(Box::new(right)),
        }
    }
}

impl HuffmanCoding {
    /// Occurrences of each byte value, indexed by the value.
    pub fn build_frequency_table(data: &[u8]) -> (r: Vec<usize>)
        ensures
            r@.len() == SYMBOLS,
            forall|b: u8| #[trigger] r@[b as int] == count_of(data@, b),
            seq_sum(r@) == data@.len(),
    {
        let mut table: Vec<usize> = Vec::new();
        let mut k: usize = 0;
        while k < SYMBOLS
            invariant
                k <= SYMBOLS,
                table@.len() == k,
                forall|j: int| 0 <= j < k ==> #[trigger] table@[j] == 0,
                seq_sum(table@) == 0,
            decreases SYMBOLS - k,
        {
            let ghost before = table@;
            table.push(0);
            k = k + 1;
            assert(table@.drop_last() =~= before);
        }
        assert(data@.take(0) =~= seq![]);
        let mut i: usize = 0;
        while i < data.len()
            invariant
                i <= data@.len(),
                table@.len() == SYMBOLS,
                forall|b: u8| #[trigger] table@[b as int] == count_of(data@.take(i as int), b),
                seq_sum(table@) == i,
            decreases data@.len() - i,
        {
            let x = data[i];
            let ghost before = table@;
            assert(data@.take(i + 1).drop_last() =~= data@.take(i as int));
            assert(forall|b: u8| count_of(data@.take(i + 1), b) == count_of(data@.take(i as int), b) + if b == x { 1nat } else { 0nat });
            proof {
                lemma_sum_update(before, x as int, 0);
                lemma_sum_update(before, x as int, (before[x as int] + 1) as usize);
            }
            table[x as usize] = table[x as usize] + 1;
            i = i + 1;
            assert forall|b: u8| #[trigger] table@[b as int] == count_of(data@.take(i as int), b) by {
                if b != x {
                    assert(table@[b as int] == before[b as int]);
                }
            }
        }
        assert(data@.take(i as int) =~= data@);
        table
    }

    /// Inserts `node` into `queue` after every node of no greater frequency.
    fn insert_by_frequency(queue: &mut Vec<HuffmanNode>, node: HuffmanNode)
        ensures
            final(queue)@ == insert_sorted(old(queue)@, node),
    {
        let mut i: usize = 0;
        while i < queue.len() && queue[i].frequency <= node.frequency
            invariant
                i <= queue@.len(),
                queue@ == old(queue)@,
                forall|j: int| 0 <= j < i ==> (#[trigger] queue@[j]).frequency <= node.frequency,
            decreases queue@.len() - i,
        {
            i = i + 1;
        }
        proof {
            lemma_insert_at(queue@, node, i as int);
        }
        queue.insert(i, node);
    }

    /// The Huffman tree of a frequency table, or `None` when no byte occurs.
    pub fn build_huffman_tree(frequency_table: &Vec<usize>) -> (r: Option<HuffmanNode>)
        requires
            frequency_table@.len() == SYMBOLS,
            seq_sum(frequency_table@) <= usize::MAX,
        ensures
            r == huffman_tree(frequency_table@),
            r matches Some(t) ==> well_formed(t),
    {
        let ghost freq = frequency_table@;
        let mut heap: Vec<HuffmanNode> = Vec::new();
        let mut b: usize = 0;
        while b < SYMBOLS
            invariant
                b <= SYMBOLS,
                freq == frequency_table@,
                freq.len() == SYMBOLS,
                heap@ == initial_queue(freq, b as nat),
            decreases SYMBOLS - b,
        {
            assert(initial_queue(freq, (b + 1) as nat) == if freq[b as int] > 0 {
                insert_sorted(initial_queue(freq, b as nat), leaf(b as u8, freq[b as int]))
            } else {
                initial_queue(freq, b as nat)
            });
            if frequency_table[b] > 0 {
                let leaf_node = HuffmanNode::new_leaf(b as u8, frequency_table[b]);
                Self::insert_by_frequency(&mut heap, leaf_node);
            }
            b = b + 1;
        }
        let ghost start = heap@;
        proof {
            lemma_initial_queue(freq, SYMBOLS as nat);
            lemma_sum_take(freq, SYMBOLS as int);
        }
        if heap.len() == 0 {
            return None;
        }
        proof {
            lemma_initial_queue_wf(freq, SYMBOLS as nat);
            lemma_combine_wf(start);
        }
        while heap.len() > 1
            invariant
                heap@.len() >= 1,
                combine(heap@) == combine(start),
                queue_sum(heap@) <= usize::MAX,
            decreases heap@.len(),
        {
            let ghost q = heap@;
            assert(q.skip(1)[0] == q[1]);
            assert(queue_sum(q) == q[0].frequency + queue_sum(q.skip(1)));
            assert(queue_sum(q.skip(1)) == q[1].frequency + queue_sum(q.skip(1).skip(1)));
            let right = heap.remove(0);
            let left = heap.remove(0);
            assert(heap@ =~= q.skip(2));
            assert(q.skip(1).skip(1) =~= q.skip(2));
            let combined = left.frequency + right.frequency;
            let node = HuffmanNode::new_internal(combined, left, right);
            proof {
                lemma_insert_sorted(q.skip(2), node);
            }
            Self::insert_by_frequency(&mut heap, node);
        }
        Some(heap.remove(0))
    }
}

impl HuffmanCoding {
    /// Appends `bit` to a copy of `code`.
    fn extend_code(code: &Vec<bool>, bit: bool) -> (r: Vec<bool>)
        ensures
            r@ == code@.push(bit),
    {
        let mut r: Vec<bool> = Vec::new();
        let mut i: usize = 0;
        while i < code.len()
            invariant
                i <= code@.len(),
                r@ == code@.take(i as int),
            decreases code@.len() - i,
        {
            r.push(code[i]);
            i = i + 1;
            assert(r@ =~= code@.take(i as int));
        }
        assert(code@.take(i as int) =~= code@);
        r.push(bit);
        r
    }

    /// Records, for every leaf below `node`, `current_code` followed by the
    /// path to that leaf.
    fn generate_codes_recursive(node: &HuffmanNode, current_code: Vec<bool>, codes: &mut Vec<Vec<bool>>)
        requires
            old(codes)@.len() == SYMBOLS,
        ensures
            final(codes)@.len() == SYMBOLS,
            forall|b: u8| #[trigger] final(codes)@[b as int]@ == match code_in(*node, b) {
                Some(c) => current_code@ + c,
                None => old(codes)@[b as int]@,
            },
        decreases node,
    {
        if let Some(byte) = node.byte {
            let ghost prefix = current_code@;
            codes[byte as usize] = current_code;
            assert forall|b: u8| #[trigger] codes@[b as int]@ == match code_in(*node, b) {
                Some(c) => prefix + c,
                None => old(codes)@[b as int]@,
            } by {
                if b == byte {
                    assert(prefix + seq![] =~= prefix);
                }
            }
            return;
        }
        if let Some(left) = &node.left {
            let code = Self::extend_code(&current_code, false);
            Self::generate_codes_recursive(left, code, codes);
        }
        if let Some(right) = &node.right {
            let code = Self::extend_code(&current_code, true);
            Self::generate_codes_recursive(right, code, codes);
        }
        assert forall|b: u8| #[trigger] codes@[b as int]@ == match code_in(*node, b) {
            Some(c) => current_code@ + c,
            None => old(codes)@[b as int]@,
        } by {
            match node.right {
                Some(c) => if code_in(*c, b) is Some {
                    assert(current_code@.push(true) + code_in(*c, b)->Some_0 =~= current_code@ + (seq![true] + code_in(*c, b)->Some_0));
                },
                None => {},
            }
            match node.left {
                Some(c) => if code_in(*c, b) is Some {
                    assert(current_code@.push(false) + code_in(*c, b)->Some_0 =~= current_code@ + (seq![false] + code_in(*c, b)->Some_0));
                },
                None => {},
            }
        }
    }

    /// The code table of a tree, indexed by byte value; empty for byte values
    /// that have no code.
    pub fn generate_codes(root: &HuffmanNode) -> (r: Vec<Vec<bool>>)
        ensures
            r@.len() == SYMBOLS,
            forall|b: u8| #[trigger] r@[b as int]@ == match code_of(*root, b) {
                Some(c) => c,
                None => Seq::<bool>::empty(),
            },
    {
        let mut codes: Vec<Vec<bool>> = Vec::new();
        let mut k: usize = 0;
        while k < SYMBOLS
            invariant
                k <= SYMBOLS,
                codes@.len() == k,
                forall|j: int| 0 <= j < k ==> (#[trigger] codes@[j])@ == Seq::<bool>::empty(),
            decreases SYMBOLS - k,
        {
            codes.push(Vec::new());
            k = k + 1;
        }
        if let Some(byte) = root.byte {
            let mut zero: Vec<bool> = Vec::new();
            zero.push(false);
            codes[byte as usize] = zero;
            return codes;
        }
        Self::generate_codes_recursive(root, Vec::new(), &mut codes);
        assert forall|b: u8| #[trigger] codes@[b as int]@ == match code_of(*root, b) {
            Some(c) => c,
            None => Seq::<bool>::empty(),
        } by {
            if code_in(*root, b) is Some {
                assert(Seq::<bool>::empty() + code_in(*root, b)->Some_0 =~= code_in(*root, b)->Some_0);
            }
        }
        codes
    }
}

impl HuffmanCoding {
    /// Bit `base + j` as 0 or 1.
    fn bit_value(bits: &Vec<bool>, base: usize, j: usize) -> (r: u8)
        requires
            base < bits@.len(),
            j < 8,
        ensures
            r == bit_val(bits@, base + j),
    {
        if bits.len() - base > j && bits[base + j] {
            1
        } else {
            0
        }
    }

    /// Packs bits eight to a byte, most significant bit first, padding the
    /// last byte with zeros.
    pub fn pack_bits_to_bytes(bits: &Vec<bool>) -> (r: Vec<u8>)
        ensures
            r@ == pack_bits(bits@),
    {
        let mut result: Vec<u8> = Vec::new();
        let mut base: usize = 0;
        let ghost target = pack_bits(bits@);
        while base < bits.len()
            invariant
                base <= bits@.len(),
                target == pack_bits(bits@),
                base < bits@.len() ==> base == 8 * result@.len(),
                base == bits@.len() ==> result@.len() == target.len(),
                result@.len() <= target.len(),
                result@ == target.take(result@.len() as int),
            decreases bits@.len() - base,
        {
            let byte = (Self::bit_value(bits, base, 0) << 7u8) | (Self::bit_value(bits, base, 1)
                << 6u8) | (Self::bit_value(bits, base, 2) << 5u8) | (Self::bit_value(bits, base, 3)
                << 4u8) | (Self::bit_value(bits, base, 4) << 3u8) | (Self::bit_value(bits, base, 5)
                << 2u8) | (Self::bit_value(bits, base, 6) << 1u8) | Self::bit_value(bits, base, 7);
            let ghost k = result@.len() as int;
            let ghost n = bits@.len() as int;
            assert(byte == byte_of(bits@, 8 * k));
            assert(k < (n + 7) / 8) by (nonlinear_arith)
                requires
                    8 * k < n,
            ;
            assert(n - 8 * k <= 8 ==> (n + 7) / 8 == k + 1) by (nonlinear_arith)
                requires
                    8 * k < n,
            ;
            assert(target.len() == (n + 7) / 8);
            assert(target[k] == byte);
            result.push(byte);
            assert(result@ =~= target.take(result@.len() as int));
            if bits.len() - base > 8 {
                base = base + 8;
            } else {
                base = bits.len();
            }
        }
        assert(result@ =~= target);
        result
    }

    /// The packed concatenation of the codes of the bytes of `data`.
    pub fn encode_data(data: &[u8], codes: &Vec<Vec<bool>>) -> (r: Vec<u8>)
        requires
            codes@.len() == SYMBOLS,
        ensures
            r@ == pack_bits(table_bits(codes@, data@)),
    {
        let mut bits: Vec<bool> = Vec::new();
        let mut i: usize = 0;
        assert(data@.take(0) =~= seq![]);
        while i < data.len()
            invariant
                i <= data@.len(),
                codes@.len() == SYMBOLS,
                bits@ == table_bits(codes@, data@.take(i as int)),
            decreases data@.len() - i,
        {
            let code = &codes[data[i] as usize];
            let ghost before = bits@;
            let mut j: usize = 0;
            while j < code.len()
                invariant
                    j <= code@.len(),
                    bits@ == before + code@.take(j as int),
                decreases code@.len() - j,
            {
                bits.push(code[j]);
                j = j + 1;
                assert(bits@ =~= before + code@.take(j as int));
            }
            assert(code@.take(j as int) =~= code@);
            assert(data@.take(i + 1).drop_last() =~= data@.take(i as int));
            i = i + 1;
        }
        assert(data@.take(i as int) =~= data@);
        Self::pack_bits_to_bytes(&bits)
    }
}

impl CompressionAlgorithm for HuffmanCoding {
    fn compress(&self, data: &[u8]) -> (r: Result<Vec<u8>, CodecError>)
        ensures
            r == Ok::<Vec<u8>, CodecError>(r->Ok_0),
            r->Ok_0@ == huffman_encode(data@),
    {
        let mut output: Vec<u8> = Vec::new();
        if data.len() == 0 {
            return Ok(output);
        }
        let ghost d = data@;
        let frequency_table = Self::build_frequency_table(data);
        assert(frequency_table@ =~= freq_table(d)) by {
            assert forall|j: int| 0 <= j < SYMBOLS implies frequency_table@[j] == freq_table(d)[j] by {
                assert(frequency_table@[(j as u8) as int] == count_of(d, j as u8));
            }
        }
        proof {
            lemma_initial_queue(frequency_table@, SYMBOLS as nat);
            lemma_count_pos(d, 0);
            assert(queue_symbols(initial_queue(frequency_table@, SYMBOLS as nat)).contains(d[0]));
        }
        let tree = match Self::build_huffman_tree(&frequency_table) {
            Some(t) => t,
            None => {
                return Ok(output);
            },
        };
        push_u32_le(&mut output, data.len() as u32);
        let mut b: usize = 0;
        let ghost head = output@;
        while b < SYMBOLS
            invariant
                b <= SYMBOLS,
                frequency_table@ == freq_table(d),
                d.len() <= u32::MAX,
                output@ == head + freq_bytes(frequency_table@, b as nat),
            decreases SYMBOLS - b,
        {
            proof {
                lemma_count_bound(d, b as u8);
            }
            push_u32_le(&mut output, frequency_table[b] as u32);
            b = b + 1;
            assert(output@ =~= head + freq_bytes(frequency_table@, b as nat));
        }
        let codes = Self::generate_codes(&tree);
        proof {
            assert forall|x: u8| #[trigger] codes@[x as int]@ == code_bits(tree, x) by {}
            lemma_table_bits(tree, codes@, d);
        }
        let payload = Self::encode_data(data, &codes);
        let mut k: usize = 0;
        let ghost mid = output@;
        while k < payload.len()
            invariant
                k <= payload@.len(),
                output@ == mid + payload@.take(k as int),
            decreases payload@.len() - k,
        {
            output.push(payload[k]);
            k = k + 1;
            assert(output@ =~= mid + payload@.take(k as int));
        }
        assert(payload@.take(k as int) =~= payload@);
        Ok(output)
    }

    fn decompress(&self, data: &[u8]) -> (r: Result<Vec<u8>, CodecError>)
        ensures
            bytes_of(r) == huffman_decode(data@),
    {
        let mut output: Vec<u8> = Vec::new();
        if data.len() == 0 {
            return Ok(output);
        }
        if data.len() < HEADER_LEN {
            return Err(CodecError::CorruptHeader);
        }
        let ghost d = data@;
        let n: u32 = (data[0] as u32) | ((data[1] as u32) << 8) | ((data[2] as u32) << 16) | ((
        data[3] as u32) << 24);
        let mut frequency_table: Vec<usize> = Vec::new();
        let mut total: u64 = 0;
        let mut b: usize = 0;
        while b < SYMBOLS
            invariant
                b <= SYMBOLS,
                d == data@,
                d.len() >= HEADER_LEN,
                frequency_table@ == header_freq(d).take(b as int),
                total as nat == seq_sum(frequency_table@),
                total <= b * 0xffff_ffff,
            decreases SYMBOLS - b,
        {
            let i = 4 + 4 * b;
            let f: u32 = (data[i] as u32) | ((data[i + 1] as u32) << 8) | ((data[i + 2] as u32)
                << 16) | ((data[i + 3] as u32) << 24);
            let ghost before = frequency_table@;
            frequency_table.push(f as usize);
            total = total + f as u64;
            assert(frequency_table@.drop_last() == before);
            assert(header_freq(d)[b as int] == f as usize);
            b = b + 1;
            assert(frequency_table@ =~= header_freq(d).take(b as int));
        }
        assert(frequency_table@ =~= header_freq(d));
        if total != n as u64 {
            return Err(CodecError::CorruptHeader);
        }
        let tree = match Self::build_huffman_tree(&frequency_table) {
            Some(t) => t,
            None => {
                return Ok(output);
            },
        };
        let ghost payload = d.skip(HEADER_LEN as int);
        let mut remaining: u32 = n;
        let mut byte_idx: usize = 0;
        let mut bit: usize = 0;
        while remaining > 0
            invariant
                d == data@,
                d.len() >= HEADER_LEN,
                payload == d.skip(HEADER_LEN as int),
                bit < 8,
                decode_symbols(tree, payload, 8 * byte_idx + bit, remaining as nat, output@)
                    == huffman_decode(d),
            decreases remaining,
        {
            match Self::next_symbol(&tree, data, byte_idx, bit) {
                None => {
                    return Err(CodecError::TruncatedStream);
                },
                Some((sym, next_byte, next_bit)) => {
                    output.push(sym);
                    byte_idx = next_byte;
                    bit = next_bit;
                    remaining = remaining - 1;
                },
            }
        }
        Ok(output)
    }
}

impl HuffmanCoding {
    /// Bit `8 * byte_idx + bit` of the payload that follows the header.
    fn read_bit(data: &[u8], byte_idx: usize, bit: usize) -> (r: bool)
        requires
            HEADER_LEN <= data@.len(),
            byte_idx < data@.len() - HEADER_LEN,
            bit < 8,
        ensures
            r == bit_at(data@.skip(HEADER_LEN as int), 8 * byte_idx + bit),
    {
        let _len = data.len();
        let ghost pos = 8 * (byte_idx as int) + bit as int;
        assert(pos / 8 == byte_idx && pos % 8 == bit);
        (data[HEADER_LEN + byte_idx] >> ((7 - bit) as u8)) & 1u8 == 1u8
    }

    /// The payload position one bit further on.
    fn advance(byte_idx: usize, bit: usize) -> (r: (usize, usize))
        requires
            byte_idx < usize::MAX,
            bit < 8,
        ensures
            r.1 < 8,
            8 * r.0 + r.1 == 8 * byte_idx + bit + 1,
    {
        if bit == 7 {
            (byte_idx + 1, 0)
        } else {
            (byte_idx, bit + 1)
        }
    }

    /// Walks from `node` to a leaf along the payload bits from
    /// `8 * byte_idx + bit` on.
    fn descend_from(node: &HuffmanNode, data: &[u8], byte_idx: usize, bit: usize) -> (r: Option<
        (u8, usize, usize),
    >)
        requires
            HEADER_LEN <= data@.len(),
            bit < 8,
        ensures
            match descend(*node, data@.skip(HEADER_LEN as int), 8 * byte_idx + bit) {
                None => r is None,
                Some((b, np)) => r matches Some((rb, bi, bt)) && rb == b && bt < 8 && 8 * bi + bt
                    == np,
            },
        decreases node,
    {
        if let Some(b) = node.byte {
            return Some((b, byte_idx, bit));
        }
        if byte_idx >= data.len() - HEADER_LEN {
            return None;
        }
        let one = Self::read_bit(data, byte_idx, bit);
        let (next_byte, next_bit) = Self::advance(byte_idx, bit);
        if one {
            match &node.right {
                Some(c) => Self::descend_from(c, data, next_byte, next_bit),
                None => None,
            }
        } else {
            match &node.left {
                Some(c) => Self::descend_from(c, data, next_byte, next_bit),
                None => None,
            }
        }
    }

    /// Reads the next symbol of the payload at `8 * byte_idx + bit`.
    fn next_symbol(root: &HuffmanNode, data: &[u8], byte_idx: usize, bit: usize) -> (r: Option<
        (u8, usize, usize),
    >)
        requires
            HEADER_LEN <= data@.len(),
            bit < 8,
        ensures
            match walk(*root, data@.skip(HEADER_LEN as int), 8 * byte_idx + bit) {
                None => r is None,
                Some((b, np)) => r matches Some((rb, bi, bt)) && rb == b && bt < 8 && 8 * bi + bt
                    == np,
            },
    {
        if let Some(b) = root.byte {
            if byte_idx >= data.len() - HEADER_LEN {
                return None;
            }
            let (next_byte, next_bit) = Self::advance(byte_idx, bit);
            return Some((b, next_byte, next_bit));
        }
        Self::descend_from(root, data, byte_idx, bit)
    }
}

} // verus!
