//! Variable-length integer codec for marker payloads.
//!
//! A value is written low seven bits first; the high bit of a byte is set
//! exactly when more bytes follow. The decoder accepts only the canonical
//! form (no trailing zero group) and only values that fit in 128 bits;
//! anything else, including a truncated sequence, is reported as malformed.

use vstd::prelude::*;

verus! {

/// The canonical encoding of `n`.
pub open spec fn varint_encoding(n: u128) -> Seq<u8>
    decreases n,
{
    if n < 128 {
        seq![n as u8]
    } else {
        seq![((n % 128) + 128) as u8] + varint_encoding(n / 128)
    }
}

/// What decoding one value at offset `i` of `s` yields: the value and the
/// number of bytes read, or `None` when no canonical varint starts there.
pub open spec fn spec_decode(s: Seq<u8>, i: int) -> Option<(u128, int)>
    decreases s.len() - i,
{
    if i < 0 || i >= s.len() {
        None
    } else if s[i] < 128 {
        Some((s[i] as u128, 1))
    } else {
        match spec_decode(s, i + 1) {
            None => None,
            Some((hi, l)) => {
                if hi == 0 {
                    None
                } else if hi > (u128::MAX - ((s[i] - 128) as u128)) / 128 {
                    None
                } else {
                    Some(((((s[i] - 128) as u128) + 128 * hi) as u128, l + 1))
                }
            },
        }
    }
}

pub proof fn lemma_spec_decode_len(s: Seq<u8>, i: int)
    ensures
        spec_decode(s, i) matches Some(r) ==> 1 <= r.1 && 0 <= i && i + r.1 <= s.len(),
    decreases s.len() - i,
{
    if 0 <= i && i < s.len() && s[i] >= 128 {
        lemma_spec_decode_len(s, i + 1);
    }
}

/// Decoding what `varint_encoding` wrote recovers the value: one half of the
/// byte-level round trip.
pub proof fn lemma_decode_of_encoding(s: Seq<u8>, i: int, n: u128)
    requires
        0 <= i,
        i + varint_encoding(n).len() <= s.len(),
        s.subrange(i, i + varint_encoding(n).len() as int) == varint_encoding(n),
    ensures
        spec_decode(s, i) == Some((n, varint_encoding(n).len() as int)),
    decreases n,
{
    let e = varint_encoding(n);
    assert(s[i] == e[0]);
    if n < 128 {
        assert(s[i] == n as u8);
    } else {
        let low: u128 = (n % 128) as u128;
        let hi: u128 = (n / 128) as u128;
        assert(s[i] == ((n % 128) + 128) as u8);
        assert(s[i] >= 128);
        let e2 = varint_encoding(n / 128);
        assert forall|k: int| 0 <= k < e2.len() implies s.subrange(
            i + 1,
            i + 1 + e2.len() as int,
        )[k] == e2[k] by {
            assert(e2[k] == e[k + 1]);
            assert(s.subrange(i, i + e.len() as int)[k + 1] == e[k + 1]);
        }
        assert(s.subrange(i + 1, i + 1 + e2.len() as int) =~= e2);
        lemma_decode_of_encoding(s, i + 1, n / 128);
        assert(hi >= 1);
        assert((s[i] - 128) as u128 == low);
        assert(128 * hi + low == n) by (nonlinear_arith)
            requires
                hi == n as int / 128,
                low == n as int % 128,
                n >= 128,
        ;
        assert(hi <= (u128::MAX - low) / 128) by (nonlinear_arith)
            requires
                128 * hi + low == n,
                n <= u128::MAX,
                0 <= low < 128,
                0 <= hi,
        ;
        assert((low + 128 * hi) as u128 == n);
    }
}

/// What a successful decode read is exactly the canonical encoding of the
/// value it returned: the other half of the round trip.
pub proof fn lemma_encoding_of_decode(s: Seq<u8>, i: int, v: u128, l: int)
    requires
        spec_decode(s, i) == Some((v, l)),
    ensures
        1 <= l && 0 <= i && i + l <= s.len(),
        varint_encoding(v).len() == l,
        varint_encoding(v) == s.subrange(i, i + l),
    decreases s.len() - i,
{
    lemma_spec_decode_len(s, i);
    if s[i] < 128 {
        assert(varint_encoding(v) =~= s.subrange(i, i + 1));
    } else {
        let low: u128 = (s[i] - 128) as u128;
        let (hi, l2) = spec_decode(s, i + 1).unwrap();
        lemma_encoding_of_decode(s, i + 1, hi, l2);
        assert(low + 128 * hi <= u128::MAX) by (nonlinear_arith)
            requires
                0 <= low < 128,
                0 <= hi,
                hi <= (u128::MAX - low) / 128,
        ;
        assert(v == low + 128 * hi);
        assert(v % 128 == low && v / 128 == hi) by (nonlinear_arith)
            requires
                v == low + 128 * hi,
                0 <= low < 128,
                0 <= hi,
        ;
        assert(v >= 128) by (nonlinear_arith)
            requires
                v == low + 128 * hi,
                hi >= 1,
                low >= 0,
        ;
        assert(varint_encoding(v).len() == l);
        assert forall|k: int| 0 <= k < l implies varint_encoding(v)[k] == s.subrange(i, i + l)[k] by {
            if k == 0 {
                assert(varint_encoding(v)[0] == ((v % 128) + 128) as u8);
            } else {
                assert(varint_encoding(v)[k] == varint_encoding(hi)[k - 1]);
                assert(s.subrange(i + 1, i + 1 + l2)[k - 1] == s[i + k]);
            }
        }
        assert(varint_encoding(v) =~= s.subrange(i, i + l));
    }
}

/// If every byte from `i` on has its high bit set, no varint starts at `i`.
pub proof fn lemma_all_continuation_none(s: Seq<u8>, i: int)
    requires
        0 <= i <= s.len(),
        forall|m: int| i <= m < s.len() ==> s[m] >= 128,
    ensures
        spec_decode(s, i) is None,
    decreases s.len() - i,
{
    if i < s.len() {
        lemma_all_continuation_none(s, i + 1);
    }
}

/// A failure at `k` propagates back over continuation bytes.
pub proof fn lemma_none_propagates(s: Seq<u8>, i: int, k: int)
    requires
        0 <= i <= k <= s.len(),
        forall|m: int| i <= m < k ==> s[m] >= 128,
        spec_decode(s, k) is None,
    ensures
        spec_decode(s, i) is None,
    decreases k - i,
{
    if i < k {
        lemma_none_propagates(s, i + 1, k);
    }
}

/// Decodes one varint from `bytes` starting at `from`; returns the value and
/// the number of bytes consumed, or `None` when no canonical varint starts
/// there.
pub fn decode_varint(bytes: &Vec<u8>, from: usize) -> (r: Option<(u128, usize)>)
    ensures
        r matches Some(p) ==> spec_decode(bytes@, from as int) == Some((p.0, p.1 as int)),
        r is None ==> spec_decode(bytes@, from as int) is None,
{
    let ghost s = bytes@;
    let len: usize = bytes.len();
    if from >= len {
        return None;
    }
    // Scan forward for the terminating byte (high bit clear).
    let mut j: usize = from;
    while j < len && bytes[j] >= 128
        invariant
            from <= j <= len,
            len == s.len(),
            s == bytes@,
            forall|m: int| from <= m < j ==> s[m] >= 128,
        decreases len - j,
    {
        j = j + 1;
    }
    if j >= len {
        proof {
            lemma_all_continuation_none(s, from as int);
        }
        return None;
    }
    // Accumulate backward from the terminator, mirroring `spec_decode`.
    let mut acc: u128 = bytes[j] as u128;
    let mut k: usize = j;
    while k > from
        invariant
            from <= k <= j < len,
            len == s.len(),
            s == bytes@,
            forall|m: int| from <= m < j ==> s[m] >= 128,
            spec_decode(s, k as int) == Some((acc, (j - k + 1) as int)),
        decreases k,
    {
        k = k - 1;
        let low: u128 = (bytes[k] - 128) as u128;
        if acc == 0 {
            proof {
                lemma_none_propagates(s, from as int, k as int);
            }
            return None;
        }
        if acc > (u128::MAX - low) / 128 {
            proof {
                lemma_none_propagates(s, from as int, k as int);
            }
            return None;
        }
        proof {
            assert(low + 128 * acc <= u128::MAX) by (nonlinear_arith)
                requires
                    0 <= low < 128,
                    1 <= acc,
                    acc <= (u128::MAX - low) / 128,
            ;
        }
        acc = low + 128 * acc;
    }
    Some((acc, j - from + 1))
}

/// Appends the canonical encoding of `n` to `out`.
pub fn encode_varint(n: u128, out: &mut Vec<u8>)
    ensures
        final(out)@ == old(out)@ + varint_encoding(n),
    decreases n,
{
    if n < 128 {
        out.push(n as u8);
        assert(out@ =~= old(out)@ + varint_encoding(n));
    } else {
        out.push(((n % 128) + 128) as u8);
        encode_varint(n / 128, out);
        assert(out@ =~= old(out)@ + varint_encoding(n));
    }
}

/// The concatenation of the canonical encodings of `vals`, in order: the
/// wire form of a whole field stream.
pub open spec fn stream_encoding(vals: Seq<u128>) -> Seq<u8>
    decreases vals.len(),
{
    if vals.len() == 0 {
        Seq::empty()
    } else {
        varint_encoding(vals[0]) + stream_encoding(vals.drop_first())
    }
}

/// What decoding the whole tail of `s` from `i` yields: the sequence of
/// values, or `None` when any varint in it is malformed.
pub open spec fn spec_decode_stream(s: Seq<u8>, i: int) -> Option<Seq<u128>>
    decreases s.len() - i,
    via spec_decode_stream_dec
{
    if i >= s.len() {
        Some(Seq::empty())
    } else {
        match spec_decode(s, i) {
            None => None,
            Some((v, l)) => match spec_decode_stream(s, i + l) {
                None => None,
                Some(rest) => Some(seq![v] + rest),
            },
        }
    }
}

#[via_fn]
proof fn spec_decode_stream_dec(s: Seq<u8>, i: int) {
    lemma_spec_decode_len(s, i);
}

/// Appending one value to a stream appends its encoding to the wire form.
pub proof fn lemma_stream_encoding_snoc(vals: Seq<u128>, v: u128)
    ensures
        stream_encoding(vals.push(v)) == stream_encoding(vals) + varint_encoding(v),
    decreases vals.len(),
{
    if vals.len() == 0 {
        assert(vals.push(v)[0] == v);
        assert(vals.push(v).drop_first() =~= Seq::<u128>::empty());
        assert(stream_encoding(Seq::<u128>::empty()) == Seq::<u8>::empty());
        assert(stream_encoding(vals.push(v)) =~= stream_encoding(vals) + varint_encoding(v));
    } else {
        assert(vals.push(v).drop_first() =~= vals.drop_first().push(v));
        lemma_stream_encoding_snoc(vals.drop_first(), v);
        assert(vals.push(v)[0] == vals[0]);
        assert(stream_encoding(vals.push(v)) == varint_encoding(vals[0]) + (stream_encoding(
            vals.drop_first(),
        ) + varint_encoding(v)));
        assert(stream_encoding(vals.push(v)) =~= stream_encoding(vals) + varint_encoding(v));
    }
}

/// Decoding the wire form of a stream recovers exactly its values: the
/// stream-level round trip, one direction.
pub proof fn lemma_stream_decode_of_encoding(vals: Seq<u128>, s: Seq<u8>, i: int)
    requires
        0 <= i,
        i + stream_encoding(vals).len() == s.len(),
        s.subrange(i, s.len() as int) == stream_encoding(vals),
    ensures
        spec_decode_stream(s, i) == Some(vals),
    decreases vals.len(),
{
    if vals.len() == 0 {
        assert(vals =~= Seq::<u128>::empty());
    } else {
        let e0 = varint_encoding(vals[0]);
        let rest = stream_encoding(vals.drop_first());
        let l = e0.len() as int;
        assert forall|k: int| 0 <= k < l implies s.subrange(i, i + l)[k] == e0[k] by {
            assert(s.subrange(i, s.len() as int)[k] == e0[k]);
        }
        assert(s.subrange(i, i + l) =~= e0);
        lemma_decode_of_encoding(s, i, vals[0]);
        assert forall|k: int| 0 <= k < rest.len() implies s.subrange(i + l, s.len() as int)[k]
            == rest[k] by {
            assert(s.subrange(i, s.len() as int)[k + l] == (e0 + rest)[k + l]);
        }
        assert(s.subrange(i + l, s.len() as int) =~= rest);
        lemma_stream_decode_of_encoding(vals.drop_first(), s, i + l);
        assert(seq![vals[0]] + vals.drop_first() =~= vals);
    }
}

/// What a successful stream decode read re-encodes to the same bytes: the
/// stream-level round trip, the other direction.
pub proof fn lemma_stream_encoding_of_decode(s: Seq<u8>, i: int, vals: Seq<u128>)
    requires
        0 <= i <= s.len(),
        spec_decode_stream(s, i) == Some(vals),
    ensures
        stream_encoding(vals) == s.subrange(i, s.len() as int),
    decreases s.len() - i,
{
    if i >= s.len() {
        assert(stream_encoding(vals) =~= s.subrange(i, s.len() as int));
    } else {
        let (v, l) = spec_decode(s, i).unwrap();
        lemma_encoding_of_decode(s, i, v, l);
        let rest = spec_decode_stream(s, i + l).unwrap();
        lemma_stream_encoding_of_decode(s, i + l, rest);
        assert(vals == seq![v] + rest);
        assert(vals.len() > 0 && vals[0] == v);
        assert(vals.drop_first() =~= rest);
        assert(stream_encoding(vals) =~= s.subrange(i, s.len() as int));
    }
}

/// Decodes a whole payload as a sequence of varints; `None` when any of them
/// is truncated or otherwise malformed.
pub fn decode_integers(payload: &Vec<u8>) -> (r: Option<Vec<u128>>)
    ensures
        r matches Some(vals) ==> spec_decode_stream(payload@, 0) == Some(vals@),
        r is None ==> spec_decode_stream(payload@, 0) is None,
{
    let ghost s = payload@;
    let len: usize = payload.len();
    let mut acc: Vec<u128> = Vec::new();
    let mut i: usize = 0;
    while i < len
        invariant
            i <= len,
            len == s.len(),
            s == payload@,
            (spec_decode_stream(s, i as int) matches Some(rest) ==> spec_decode_stream(s, 0)
                == Some(acc@ + rest)),
            (spec_decode_stream(s, i as int) is None ==> spec_decode_stream(s, 0) is None),
        decreases len - i,
    {
        match decode_varint(payload, i) {
            None => {
                return None;
            },
            Some((v, l)) => {
                proof {
                    lemma_spec_decode_len(s, i as int);
                    let r2 = spec_decode_stream(s, (i + l) as int);
                    if r2 is Some {
                        let rest2 = r2.unwrap();
                        assert(spec_decode_stream(s, i as int) == Some(seq![v] + rest2));
                        assert(acc@ + (seq![v] + rest2) =~= acc@.push(v) + rest2);
                    }
                }
                acc.push(v);
                i = i + l;
            },
        }
    }
    proof {
        assert(spec_decode_stream(s, i as int) == Some(Seq::<u128>::empty()));
        assert(acc@ + Seq::<u128>::empty() =~= acc@);
    }
    Some(acc)
}

/// Encodes a sequence of values as the concatenation of their canonical
/// varint encodings.
pub fn encode_integers(vals: &Vec<u128>) -> (r: Vec<u8>)
    ensures
        r@ == stream_encoding(vals@),
{
    let mut out: Vec<u8> = Vec::new();
    let mut i: usize = 0;
    while i < vals.len()
        invariant
            i <= vals@.len(),
            out@ == stream_encoding(vals@.take(i as int)),
        decreases vals@.len() - i,
    {
        proof {
            lemma_stream_encoding_snoc(vals@.take(i as int), vals@[i as int]);
            assert(vals@.take(i as int).push(vals@[i as int]) =~= vals@.take(i + 1));
        }
        encode_varint(vals[i], &mut out);
        i = i + 1;
    }
    proof {
        assert(vals@.take(vals@.len() as int) =~= vals@);
    }
    out
}

} // verus!
