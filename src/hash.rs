//! Row hashing: the CRC-32 of a row's key bytes picks its virtual node.
use vstd::prelude::*;
use vstd::utf8::encode_utf8;
use crate::bytes::{le_bytes, put_uint};
use crate::chunk::{chunk_wf, ChunkV, StreamChunk};
use crate::encoding::{put_scalar_payload, put_utf8, scalar_payload};
use crate::error::StreamError;
use crate::types::{Datum, DatumV, Scalar, ScalarV};

verus! {

/// Number of virtual nodes that rows are hashed onto.
pub const VIRTUAL_NODE_COUNT: usize = 2048;

/// The value hashed in place of a null.
pub const NULL_HASH_VALUE: u32 = 0xffff_fff0;

/// The CRC-32 checksum of a byte sequence.
pub uninterp spec fn crc32_of(bytes: Seq<u8>) -> u32;

/// Relies on `crc32fast::hash`: the CRC-32 (IEEE) checksum of the bytes,
/// which depends on the bytes alone.
#[verifier::external_body]
fn crc32(bytes: &Vec<u8>) -> (r: u32)
    ensures
        r == crc32_of(bytes@),
{
    crc32fast::hash(bytes.as_slice())
}

/// The bytes that stand for one key value in a row's hash.
pub open spec fn datum_hash_bytes(d: DatumV) -> Seq<u8> {
    match d {
        None => le_bytes(NULL_HASH_VALUE as nat, 4),
        Some(ScalarV::Utf8(s)) => encode_utf8(s) + seq![0xffu8],
        Some(v) => scalar_payload(v),
    }
}

/// The hashed bytes of the first `n` key columns of row `i`.
pub open spec fn key_bytes_prefix(c: ChunkV, keys: Seq<usize>, n: nat, i: int) -> Seq<u8>
    decreases n,
{
    if n == 0 {
        Seq::empty()
    } else {
        key_bytes_prefix(c, keys, (n - 1) as nat, i) + datum_hash_bytes(
            c.columns[keys[n - 1] as int].values[i],
        )
    }
}

/// The hashed bytes of row `i`: its key values, in key order.
pub open spec fn row_key_bytes(c: ChunkV, keys: Seq<usize>, i: int) -> Seq<u8> {
    key_bytes_prefix(c, keys, keys.len(), i)
}

/// The virtual node of row `i`.
pub open spec fn vnode_of(c: ChunkV, keys: Seq<usize>, i: int) -> usize {
    ((crc32_of(row_key_bytes(c, keys, i)) as nat) % (VIRTUAL_NODE_COUNT as nat)) as usize
}

/// Every key names a column of the chunk.
pub open spec fn keys_in_range(c: ChunkV, keys: Seq<usize>) -> bool {
    forall|k: int| 0 <= k < keys.len() ==> (#[trigger] keys[k] as int) < c.columns.len()
}

/// Appends the hashed bytes of one key value.
fn put_datum_hash_bytes(out: &mut Vec<u8>, d: &Datum)
    ensures
        final(out)@ == old(out)@ + datum_hash_bytes(crate::types::datum_view(*d)),
{
    match d {
        None => put_uint(out, NULL_HASH_VALUE as u64, 4),
        Some(Scalar::Utf8(s)) => {
            put_utf8(out, s);
            out.push(0xffu8);
            assert(out@ =~= old(out)@ + datum_hash_bytes(crate::types::datum_view(*d)));
        },
        Some(v) => put_scalar_payload(out, v),
    }
}

/// The virtual node of each row of the chunk.
pub fn compute_vnodes(chunk: &StreamChunk, keys: &Vec<usize>) -> (r: Result<Vec<usize>, StreamError>)
    requires
        chunk_wf(chunk@),
    ensures
        r is Ok <==> keys_in_range(chunk@, keys@),
        r matches Ok(v) ==> v@.len() == chunk@.ops.len() && forall|i: int|
            0 <= i < v@.len() ==> #[trigger] v@[i] == vnode_of(chunk@, keys@, i),
{
    let mut k: usize = 0;
    while k < keys.len()
        invariant
            k <= keys@.len(),
            forall|j: int| 0 <= j < k ==> (#[trigger] keys@[j] as int) < chunk@.columns.len(),
        decreases keys@.len() - k,
    {
        if keys[k] >= chunk.columns.len() {
            return Err(StreamError::ColumnOutOfRange { index: keys[k] });
        }
        k = k + 1;
    }
    let n = chunk.ops.len();
    let mut out: Vec<usize> = Vec::new();
    let mut i: usize = 0;
    while i < n
        invariant
            n == chunk@.ops.len(),
            chunk_wf(chunk@),
            keys_in_range(chunk@, keys@),
            i <= n,
            out@.len() == i,
            forall|j: int| 0 <= j < i ==> #[trigger] out@[j] == vnode_of(chunk@, keys@, j),
        decreases n - i,
    {
        let mut bytes: Vec<u8> = Vec::new();
        let mut k: usize = 0;
        while k < keys.len()
            invariant
                k <= keys@.len(),
                i < n,
                n == chunk@.ops.len(),
                chunk_wf(chunk@),
                keys_in_range(chunk@, keys@),
                bytes@ == key_bytes_prefix(chunk@, keys@, k as nat, i as int),
            decreases keys@.len() - k,
        {
            let col = keys[k];
            assert((keys@[k as int] as int) < chunk@.columns.len());
            let arr = chunk.columns[col].array_ref();
            assert(chunk@.columns[col as int] == chunk.columns@[col as int]@);
            assert(arr@.values.len() == n);
            put_datum_hash_bytes(&mut bytes, &arr.values[i]);
            k = k + 1;
        }
        let h = crc32(&bytes);
        out.push((h as usize) % VIRTUAL_NODE_COUNT);
        i = i + 1;
    }
    Ok(out)
}

} // verus!
