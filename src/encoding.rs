//! Byte forms of values, shared by hashing and the wire codec.
use vstd::prelude::*;
use vstd::utf8::encode_utf8;
use crate::bytes::{int_bytes, le_bytes, put_int, put_uint};
use crate::types::{Scalar, ScalarV};

verus! {

/// The fixed-width little-endian bytes of a value; the UTF-8 bytes of a string.
pub open spec fn scalar_payload(v: ScalarV) -> Seq<u8> {
    match v {
        ScalarV::Int16(x) => int_bytes(x as int, 2),
        ScalarV::Int32(x) => int_bytes(x as int, 4),
        ScalarV::Int64(x) => int_bytes(x as int, 8),
        ScalarV::Bool(b) => seq![if b { 1u8 } else { 0u8 }],
        ScalarV::Decimal(d) => int_bytes(d.mantissa as int, 8) + seq![d.scale],
        ScalarV::Date(d) => int_bytes(d.days as int, 4),
        ScalarV::Time(t) => le_bytes(t.secs as nat, 4) + le_bytes(t.nanos as nat, 4),
        ScalarV::Timestamp(t) => int_bytes(t.secs as int, 8) + le_bytes(t.nsecs as nat, 4),
        ScalarV::Utf8(s) => encode_utf8(s),
    }
}

/// Appends the UTF-8 bytes of `s`.
pub fn put_utf8(out: &mut Vec<u8>, s: &String)
    ensures
        final(out)@ == old(out)@ + encode_utf8(s@),
{
    let b: &[u8] = s.as_str().as_bytes();
    let mut i: usize = 0;
    while i < b.len()
        invariant
            i <= b@.len(),
            b@ == encode_utf8(s@),
            out@ == old(out)@ + b@.take(i as int),
        decreases b@.len() - i,
    {
        out.push(b[i]);
        i = i + 1;
        assert(b@.take(i as int) =~= b@.take(i - 1) + seq![b@[i - 1]]);
    }
    assert(b@.take(i as int) =~= b@);
}

/// Appends the payload bytes of `v`.
pub fn put_scalar_payload(out: &mut Vec<u8>, v: &Scalar)
    ensures
        final(out)@ == old(out)@ + scalar_payload(v@),
{
    proof {
        crate::bytes::lemma_pow256_values();
    }
    match v {
        Scalar::Int16(x) => put_int(out, *x as i64, 2),
        Scalar::Int32(x) => put_int(out, *x as i64, 4),
        Scalar::Int64(x) => put_int(out, *x, 8),
        Scalar::Bool(b) => out.push(if *b { 1u8 } else { 0u8 }),
        Scalar::Decimal(d) => {
            put_int(out, d.mantissa, 8);
            out.push(d.scale);
            assert(out@ =~= old(out)@ + scalar_payload(v@));
        },
        Scalar::Date(d) => put_int(out, d.days as i64, 4),
        Scalar::Time(t) => {
            put_uint(out, t.secs as u64, 4);
            put_uint(out, t.nanos as u64, 4);
            assert(out@ =~= old(out)@ + scalar_payload(v@));
        },
        Scalar::Timestamp(t) => {
            put_int(out, t.secs, 8);
            put_uint(out, t.nsecs as u64, 4);
            assert(out@ =~= old(out)@ + scalar_payload(v@));
        },
        Scalar::Utf8(s) => put_utf8(out, s),
    }
}

} // verus!
