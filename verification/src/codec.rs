//! The binary encoding of stored values.
//!
//! Every encoding is deterministic and self-delimiting. Integers are written
//! little-endian in eight bytes. A byte string is written as its length, as
//! an integer, followed by its bytes. A list of integers is written as its
//! length followed by the integers. Decoding accepts exactly the encodings:
//! an input that ends too early or carries bytes past the value is refused.

use vstd::bytes::{
    lemma_auto_spec_u32_to_from_le_bytes, lemma_auto_spec_u64_to_from_le_bytes,
    spec_u32_from_le_bytes, spec_u32_to_le_bytes, spec_u64_from_le_bytes, spec_u64_to_le_bytes,
    u32_from_le_bytes, u32_to_le_bytes, u64_from_le_bytes, u64_to_le_bytes,
};
use vstd::prelude::*;
use vstd::slice::slice_subrange;

verus! {

/// Why a value could not be decoded.
#[derive(Clone, Copy, Debug, PartialEq, Eq, Structural)]
pub enum CodingError {
    /// The input ends before the value is complete.
    UnexpectedEnd,
    /// The input goes on after the value is complete.
    TrailingBytes,
}

/// A point in time: seconds since the Unix epoch, and nanoseconds within the
/// second.
#[derive(Clone, Copy, Debug, PartialEq, Eq, Structural)]
pub struct DateTimeUtc {
    pub secs: i64,
    pub nanos: u32,
}

/// The encoding of an integer.
pub open spec fn encode_u64_spec(x: u64) -> Seq<u8> {
    spec_u64_to_le_bytes(x)
}

/// What decoding an integer from `b` gives.
pub open spec fn decode_u64_spec(b: Seq<u8>) -> Result<u64, CodingError> {
    if b.len() < 8 {
        Err(CodingError::UnexpectedEnd)
    } else if b.len() > 8 {
        Err(CodingError::TrailingBytes)
    } else {
        Ok(spec_u64_from_le_bytes(b))
    }
}

/// The encoding of a byte string.
pub open spec fn encode_bytes_spec(v: Seq<u8>) -> Seq<u8> {
    spec_u64_to_le_bytes(v.len() as u64) + v
}

/// What decoding a byte string from `b` gives.
pub open spec fn decode_bytes_spec(b: Seq<u8>) -> Result<Seq<u8>, CodingError> {
    if b.len() < 8 {
        Err(CodingError::UnexpectedEnd)
    } else {
        let n = spec_u64_from_le_bytes(b.take(8));
        if b.len() - 8 < n {
            Err(CodingError::UnexpectedEnd)
        } else if b.len() - 8 > n {
            Err(CodingError::TrailingBytes)
        } else {
            Ok(b.skip(8))
        }
    }
}

/// The encodings of the integers of `s`, one after the other.
pub open spec fn concat_u64s(s: Seq<u64>) -> Seq<u8>
    decreases s.len(),
{
    if s.len() == 0 {
        Seq::empty()
    } else {
        concat_u64s(s.drop_last()) + spec_u64_to_le_bytes(s.last())
    }
}

/// The encoding of a list of integers.
pub open spec fn encode_u64_list_spec(s: Seq<u64>) -> Seq<u8> {
    spec_u64_to_le_bytes(s.len() as u64) + concat_u64s(s)
}

/// The integers held by `b`, eight bytes each.
pub open spec fn split_u64s(b: Seq<u8>) -> Seq<u64> {
    Seq::new((b.len() / 8) as nat, |i: int| spec_u64_from_le_bytes(b.subrange(8 * i, 8 * i + 8)))
}

/// What decoding a list of integers from `b` gives.
pub open spec fn decode_u64_list_spec(b: Seq<u8>) -> Result<Seq<u64>, CodingError> {
    if b.len() < 8 {
        Err(CodingError::UnexpectedEnd)
    } else {
        let n = spec_u64_from_le_bytes(b.take(8));
        if b.len() - 8 < 8 * n {
            Err(CodingError::UnexpectedEnd)
        } else if b.len() - 8 > 8 * n {
            Err(CodingError::TrailingBytes)
        } else {
            Ok(split_u64s(b.skip(8)))
        }
    }
}

/// The encoding of a point in time.
pub open spec fn encode_time_spec(t: DateTimeUtc) -> Seq<u8> {
    spec_u64_to_le_bytes(t.secs as u64) + spec_u32_to_le_bytes(t.nanos)
}

/// What decoding a point in time from `b` gives.
pub open spec fn decode_time_spec(b: Seq<u8>) -> Result<DateTimeUtc, CodingError> {
    if b.len() < 12 {
        Err(CodingError::UnexpectedEnd)
    } else if b.len() > 12 {
        Err(CodingError::TrailingBytes)
    } else {
        Ok(
            DateTimeUtc {
                secs: spec_u64_from_le_bytes(b.take(8)) as i64,
                nanos: spec_u32_from_le_bytes(b.skip(8)),
            },
        )
    }
}

/// Decoding the encoding of an integer gives the integer.
pub proof fn lemma_u64_round_trip(x: u64)
    ensures
        decode_u64_spec(encode_u64_spec(x)) == Ok::<u64, CodingError>(x),
{
    lemma_auto_spec_u64_to_from_le_bytes();
}

/// Decoding the encoding of a byte string gives the byte string.
pub proof fn lemma_bytes_round_trip(v: Seq<u8>)
    requires
        v.len() <= u64::MAX,
    ensures
        decode_bytes_spec(encode_bytes_spec(v)) == Ok::<Seq<u8>, CodingError>(v),
{
    lemma_auto_spec_u64_to_from_le_bytes();
    let b = encode_bytes_spec(v);
    assert(b.take(8) =~= spec_u64_to_le_bytes(v.len() as u64));
    assert(b.skip(8) =~= v);
}

/// The concatenation holds eight bytes for each integer, in order.
pub proof fn lemma_concat_u64s(s: Seq<u64>)
    ensures
        concat_u64s(s).len() == 8 * s.len(),
        forall|i: int|
            0 <= i < s.len() ==> #[trigger] concat_u64s(s).subrange(8 * i, 8 * i + 8)
                == spec_u64_to_le_bytes(s[i]),
    decreases s.len(),
{
    lemma_auto_spec_u64_to_from_le_bytes();
    if s.len() > 0 {
        let front = s.drop_last();
        lemma_concat_u64s(front);
        let all = concat_u64s(s);
        assert forall|i: int| 0 <= i < s.len() implies #[trigger] all.subrange(8 * i, 8 * i + 8)
            == spec_u64_to_le_bytes(s[i]) by {
            if i < front.len() {
                assert(all.subrange(8 * i, 8 * i + 8) =~= concat_u64s(front).subrange(
                    8 * i,
                    8 * i + 8,
                ));
                assert(front[i] == s[i]);
            } else {
                assert(all.subrange(8 * i, 8 * i + 8) =~= spec_u64_to_le_bytes(s.last()));
            }
        }
    }
}

/// Decoding the encoding of a list of integers gives the list.
pub proof fn lemma_u64_list_round_trip(s: Seq<u64>)
    requires
        s.len() <= u64::MAX,
    ensures
        decode_u64_list_spec(encode_u64_list_spec(s)) == Ok::<Seq<u64>, CodingError>(s),
{
    lemma_auto_spec_u64_to_from_le_bytes();
    lemma_concat_u64s(s);
    let b = encode_u64_list_spec(s);
    assert(b.take(8) =~= spec_u64_to_le_bytes(s.len() as u64));
    assert(b.skip(8) =~= concat_u64s(s));
    assert(split_u64s(concat_u64s(s)) =~= s);
}

/// Decoding the encoding of a point in time gives the point in time.
pub proof fn lemma_time_round_trip(t: DateTimeUtc)
    ensures
        decode_time_spec(encode_time_spec(t)) == Ok::<DateTimeUtc, CodingError>(t),
{
    lemma_auto_spec_u64_to_from_le_bytes();
    lemma_auto_spec_u32_to_from_le_bytes();
    let b = encode_time_spec(t);
    assert(b.take(8) =~= spec_u64_to_le_bytes(t.secs as u64));
    assert(b.skip(8) =~= spec_u32_to_le_bytes(t.nanos));
    let s = t.secs;
    assert((s as u64) as i64 == s) by (bit_vector);
}

/// Encodes an integer.
pub fn encode_u64(x: u64) -> (out: Vec<u8>)
    ensures
        out@ == encode_u64_spec(x),
{
    u64_to_le_bytes(x)
}

/// Decodes an integer.
pub fn decode_u64(b: &[u8]) -> (r: Result<u64, CodingError>)
    ensures
        r == decode_u64_spec(b@),
{
    if b.len() < 8 {
        Err(CodingError::UnexpectedEnd)
    } else if b.len() > 8 {
        Err(CodingError::TrailingBytes)
    } else {
        Ok(u64_from_le_bytes(b))
    }
}

/// Encodes a byte string.
pub fn encode_bytes(v: &[u8]) -> (out: Vec<u8>)
    ensures
        out@ == encode_bytes_spec(v@),
{
    let mut out = u64_to_le_bytes(v.len() as u64);
    out.extend_from_slice(v);
    out
}

/// Decodes a byte string.
pub fn decode_bytes(b: &[u8]) -> (r: Result<Vec<u8>, CodingError>)
    ensures
        match decode_bytes_spec(b@) {
            Ok(v) => r is Ok && r->Ok_0@ == v,
            Err(e) => r == Err::<Vec<u8>, CodingError>(e),
        },
{
    if b.len() < 8 {
        return Err(CodingError::UnexpectedEnd);
    }
    let head = slice_subrange(b, 0, 8);
    assert(head@ =~= b@.take(8));
    let n = u64_from_le_bytes(head);
    let rest = slice_subrange(b, 8, b.len());
    assert(rest@ =~= b@.skip(8));
    if ((rest.len()) as u64) < n {
        Err(CodingError::UnexpectedEnd)
    } else if (rest.len() as u64) > n {
        Err(CodingError::TrailingBytes)
    } else {
        let mut out: Vec<u8> = Vec::new();
        out.extend_from_slice(rest);
        assert(out@ =~= b@.skip(8));
        Ok(out)
    }
}

/// Encodes a list of integers.
pub fn encode_u64_list(v: &Vec<u64>) -> (out: Vec<u8>)
    ensures
        out@ == encode_u64_list_spec(v@),
{
    let mut out = u64_to_le_bytes(v.len() as u64);
    let mut i: usize = 0;
    assert(v@.take(0) =~= Seq::<u64>::empty());
    while i < v.len()
        invariant
            i <= v.len(),
            out@ == spec_u64_to_le_bytes(v@.len() as u64) + concat_u64s(v@.take(i as int)),
        decreases v.len() - i,
    {
        let item = u64_to_le_bytes(v[i]);
        out.extend_from_slice(item.as_slice());
        proof {
            let next = v@.take(i + 1);
            assert(next.drop_last() =~= v@.take(i as int));
            assert(next.last() == v@[i as int]);
            assert(out@ =~= spec_u64_to_le_bytes(v@.len() as u64) + concat_u64s(next));
        }
        i = i + 1;
    }
    assert(v@.take(i as int) =~= v@);
    out
}

/// Decodes a list of integers.
pub fn decode_u64_list(b: &[u8]) -> (r: Result<Vec<u64>, CodingError>)
    ensures
        match decode_u64_list_spec(b@) {
            Ok(v) => r is Ok && r->Ok_0@ == v,
            Err(e) => r == Err::<Vec<u64>, CodingError>(e),
        },
{
    if b.len() < 8 {
        return Err(CodingError::UnexpectedEnd);
    }
    let head = slice_subrange(b, 0, 8);
    assert(head@ =~= b@.take(8));
    let n = u64_from_le_bytes(head);
    let rest = slice_subrange(b, 8, b.len());
    assert(rest@ =~= b@.skip(8));
    let count: usize = rest.len() / 8;
    let extra: usize = rest.len() % 8;
    if (count as u64) < n {
        return Err(CodingError::UnexpectedEnd);
    }
    if (count as u64) > n || extra != 0 {
        return Err(CodingError::TrailingBytes);
    }
    let mut out: Vec<u64> = Vec::new();
    let mut i: usize = 0;
    while i < count
        invariant
            i <= count,
            count == rest@.len() / 8,
            rest@.len() == 8 * count,
            rest@.len() <= usize::MAX,
            out@.len() == i,
            forall|j: int| 0 <= j < i ==> out@[j] == split_u64s(rest@)[j],
        decreases count - i,
    {
        let item = slice_subrange(rest, 8 * i, 8 * i + 8);
        out.push(u64_from_le_bytes(item));
        i = i + 1;
    }
    assert(out@ =~= split_u64s(rest@));
    Ok(out)
}

/// Encodes a point in time.
pub fn encode_time(t: DateTimeUtc) -> (out: Vec<u8>)
    ensures
        out@ == encode_time_spec(t),
{
    let mut out = u64_to_le_bytes(t.secs as u64);
    let nanos = u32_to_le_bytes(t.nanos);
    out.extend_from_slice(nanos.as_slice());
    out
}

/// Decodes a point in time.
pub fn decode_time(b: &[u8]) -> (r: Result<DateTimeUtc, CodingError>)
    ensures
        r == decode_time_spec(b@),
{
    if b.len() < 12 {
        Err(CodingError::UnexpectedEnd)
    } else if b.len() > 12 {
        Err(CodingError::TrailingBytes)
    } else {
        let head = slice_subrange(b, 0, 8);
        assert(head@ =~= b@.take(8));
        let tail = slice_subrange(b, 8, 12);
        assert(tail@ =~= b@.skip(8));
        Ok(DateTimeUtc { secs: u64_from_le_bytes(head) as i64, nanos: u32_from_le_bytes(tail) })
    }
}

} // verus!
