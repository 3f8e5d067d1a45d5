//! The wire form of values, rows, columns and chunks, and its decoding.
//!
//! A datum is a presence byte (0 for null, 1 otherwise) and then the value:
//! fixed-width little-endian fields for numbers, dates and times, a byte for
//! a boolean, and an 8-byte length followed by the UTF-8 bytes for a string.
//! A column is its type tag, its length and its datums; a chunk is its row
//! count, one byte per operation, its optional visibility bytes, its column
//! count and its columns.
use vstd::prelude::*;
use vstd::utf8::{
    decode_utf8, decode_utf8_encode_utf8, encode_utf8, encode_utf8_decode_utf8, encode_utf8_valid_utf8,
    valid_utf8,
};
use crate::array::{array_wf, ArrayImpl, ArrayV, Column};
use crate::bytes::{
    from_twos, get_int, get_uint, int_bytes, le_bytes, le_value, lemma_int_round_trip,
    lemma_le_bytes_len, lemma_le_bytes_of_value, lemma_le_round_trip, lemma_pow256_values, pow256,
    put_int, put_uint,
};
use crate::chunk::{chunk_wf, ChunkV, StreamChunk};
use crate::encoding::{put_scalar_payload, put_utf8, scalar_payload};
use crate::types::{
    datum_has_type, datum_view, datums_view, type_of, DataType, Date, Datum, DatumV, Decimal, Op,
    Scalar, ScalarV, Time, Timestamp,
};

verus! {

/// The concatenated encodings of the elements of `s`.
pub open spec fn enc_seq<A>(s: Seq<A>, f: spec_fn(A) -> Seq<u8>) -> Seq<u8>
    decreases s.len(),
{
    if s.len() == 0 {
        Seq::empty()
    } else {
        f(s[0]) + enc_seq(s.drop_first(), f)
    }
}

pub proof fn lemma_enc_seq_concat<A>(a: Seq<A>, b: Seq<A>, f: spec_fn(A) -> Seq<u8>)
    ensures
        enc_seq(a + b, f) == enc_seq(a, f) + enc_seq(b, f),
    decreases a.len(),
{
    if a.len() == 0 {
        assert(a + b =~= b);
    } else {
        lemma_enc_seq_concat(a.drop_first(), b, f);
        assert((a + b).drop_first() =~= a.drop_first() + b);
    }
}

/// The encoding of the first `i + 1` elements extends that of the first `i`.
pub proof fn lemma_enc_seq_step<A>(s: Seq<A>, i: int, f: spec_fn(A) -> Seq<u8>)
    requires
        0 <= i < s.len(),
    ensures
        enc_seq(s.take(i + 1), f) == enc_seq(s.take(i), f) + f(s[i]),
        enc_seq(s.skip(i), f) == f(s[i]) + enc_seq(s.skip(i + 1), f),
        enc_seq(s, f) == enc_seq(s.take(i), f) + enc_seq(s.skip(i), f),
{
    lemma_enc_seq_concat(s.take(i), seq![s[i]], f);
    assert(s.take(i + 1) =~= s.take(i) + seq![s[i]]);
    assert(seq![s[i]].drop_first() =~= Seq::<A>::empty());
    assert(enc_seq(Seq::<A>::empty(), f) =~= Seq::<u8>::empty());
    assert(enc_seq(seq![s[i]], f) =~= f(s[i]));
    assert(s.skip(i).drop_first() =~= s.skip(i + 1));
    lemma_enc_seq_concat(s.take(i), s.skip(i), f);
    assert(s.take(i) + s.skip(i) =~= s);
}

/// The wire form of a value.
pub open spec fn enc_scalar(v: ScalarV) -> Seq<u8> {
    match v {
        ScalarV::Utf8(s) => le_bytes(encode_utf8(s).len(), 8) + encode_utf8(s),
        _ => scalar_payload(v),
    }
}

/// The wire form of a nullable value.
pub open spec fn enc_datum(d: DatumV) -> Seq<u8> {
    match d {
        None => seq![0u8],
        Some(v) => seq![1u8] + enc_scalar(v),
    }
}

/// The wire form of a row.
pub open spec fn enc_row(s: Seq<DatumV>) -> Seq<u8> {
    enc_seq(s, |d: DatumV| enc_datum(d))
}

pub open spec fn type_tag(t: DataType) -> u8 {
    match t {
        DataType::Int16 => 0,
        DataType::Int32 => 1,
        DataType::Int64 => 2,
        DataType::Boolean => 3,
        DataType::Decimal => 4,
        DataType::Date => 5,
        DataType::Time => 6,
        DataType::Timestamp => 7,
        DataType::Varchar => 8,
    }
}

/// The wire form of a column.
pub open spec fn enc_array(a: ArrayV) -> Seq<u8> {
    seq![type_tag(a.data_type)] + le_bytes(a.values.len(), 8) + enc_row(a.values)
}

pub open spec fn op_tag(op: Op) -> u8 {
    match op {
        Op::Insert => 0,
        Op::Delete => 1,
        Op::UpdateDelete => 2,
        Op::UpdateInsert => 3,
    }
}

pub open spec fn enc_ops(s: Seq<Op>) -> Seq<u8> {
    enc_seq(s, |o: Op| seq![op_tag(o)])
}

pub open spec fn enc_bools(s: Seq<bool>) -> Seq<u8> {
    enc_seq(s, |b: bool| seq![if b { 1u8 } else { 0u8 }])
}

pub open spec fn enc_visibility(v: Option<Seq<bool>>) -> Seq<u8> {
    match v {
        None => seq![0u8],
        Some(b) => seq![1u8] + enc_bools(b),
    }
}

pub open spec fn enc_columns(s: Seq<ArrayV>) -> Seq<u8> {
    enc_seq(s, |a: ArrayV| enc_array(a))
}

/// The wire form of a chunk.
pub open spec fn enc_chunk(c: ChunkV) -> Seq<u8> {
    le_bytes(c.ops.len(), 8) + enc_ops(c.ops) + enc_visibility(c.visibility) + le_bytes(
        c.columns.len(),
        8,
    ) + enc_columns(c.columns)
}

// ---------------------------------------------------------------------------
// Encoding

pub fn put_datum(out: &mut Vec<u8>, d: &Datum)
    ensures
        final(out)@ == old(out)@ + enc_datum(datum_view(*d)),
{
    match d {
        None => out.push(0u8),
        Some(v) => {
            out.push(1u8);
            match v {
                Scalar::Utf8(s) => {
                    let b: &[u8] = s.as_str().as_bytes();
                    let n = b.len();
                    assert(n == encode_utf8(s@).len());
                    put_uint(out, n as u64, 8);
                    put_utf8(out, s);
                },
                _ => put_scalar_payload(out, v),
            }
            assert(out@ =~= old(out)@ + enc_datum(datum_view(*d)));
        },
    }
}

pub fn put_row(out: &mut Vec<u8>, row: &Vec<Datum>)
    ensures
        final(out)@ == old(out)@ + enc_row(datums_view(row@)),
{
    let ghost s = datums_view(row@);
    let mut i: usize = 0;
    while i < row.len()
        invariant
            i <= row@.len(),
            s == datums_view(row@),
            out@ == old(out)@ + enc_row(s.take(i as int)),
        decreases row@.len() - i,
    {
        proof {
            lemma_enc_seq_step(s, i as int, |d: DatumV| enc_datum(d));
        }
        assert(s[i as int] == datum_view(row@[i as int]));
        put_datum(out, &row[i]);
        i = i + 1;
    }
    assert(s.take(i as int) =~= s);
}

fn tag_of(t: DataType) -> (r: u8)
    ensures
        r == type_tag(t),
{
    match t {
        DataType::Int16 => 0,
        DataType::Int32 => 1,
        DataType::Int64 => 2,
        DataType::Boolean => 3,
        DataType::Decimal => 4,
        DataType::Date => 5,
        DataType::Time => 6,
        DataType::Timestamp => 7,
        DataType::Varchar => 8,
    }
}

pub fn put_array(out: &mut Vec<u8>, a: &ArrayImpl)
    ensures
        final(out)@ == old(out)@ + enc_array(a@),
{
    out.push(tag_of(a.data_type));
    put_uint(out, a.values.len() as u64, 8);
    put_row(out, &a.values);
    assert(out@ =~= old(out)@ + enc_array(a@));
}

/// The wire form of a chunk.
pub fn encode_chunk(c: &StreamChunk) -> (r: Vec<u8>)
    ensures
        r@ == enc_chunk(c@),
{
    let mut out: Vec<u8> = Vec::new();
    put_uint(&mut out, c.ops.len() as u64, 8);
    let mut i: usize = 0;
    while i < c.ops.len()
        invariant
            i <= c.ops@.len(),
            out@ == le_bytes(c.ops@.len(), 8) + enc_ops(c.ops@.take(i as int)),
        decreases c.ops@.len() - i,
    {
        proof {
            lemma_enc_seq_step(c.ops@, i as int, |o: Op| seq![op_tag(o)]);
        }
        let tag: u8 = match c.ops[i] {
            Op::Insert => 0,
            Op::Delete => 1,
            Op::UpdateDelete => 2,
            Op::UpdateInsert => 3,
        };
        out.push(tag);
        i = i + 1;
        assert(out@ =~= le_bytes(c.ops@.len(), 8) + enc_ops(c.ops@.take(i as int)));
    }
    assert(c.ops@.take(i as int) =~= c.ops@);
    let ghost head = out@;
    match &c.visibility {
        None => out.push(0u8),
        Some(v) => {
            out.push(1u8);
            let mut j: usize = 0;
            while j < v.len()
                invariant
                    j <= v@.len(),
                    out@ == head + seq![1u8] + enc_bools(v@.take(j as int)),
                decreases v@.len() - j,
            {
                proof {
                    lemma_enc_seq_step(v@, j as int, |b: bool| seq![if b { 1u8 } else { 0u8 }]);
                }
                out.push(if v[j] { 1u8 } else { 0u8 });
                j = j + 1;
                assert(out@ =~= head + seq![1u8] + enc_bools(v@.take(j as int)));
            }
            assert(v@.take(j as int) =~= v@);
        },
    }
    assert(out@ =~= head + enc_visibility(c@.visibility));
    put_uint(&mut out, c.columns.len() as u64, 8);
    let ghost head2 = out@;
    let ghost cols = c@.columns;
    let mut k: usize = 0;
    while k < c.columns.len()
        invariant
            k <= c.columns@.len(),
            cols == c@.columns,
            out@ == head2 + enc_columns(cols.take(k as int)),
        decreases c.columns@.len() - k,
    {
        proof {
            lemma_enc_seq_step(cols, k as int, |a: ArrayV| enc_array(a));
        }
        let a = c.columns[k].array_ref();
        assert(a@ == cols[k as int]);
        put_array(&mut out, a);
        k = k + 1;
        assert(out@ =~= head2 + enc_columns(cols.take(k as int)));
    }
    assert(cols.take(k as int) =~= cols);
    assert(out@ =~= enc_chunk(c@));
    out
}

// ---------------------------------------------------------------------------
// Decoding

/// `buf` holds `e` at `pos`.
pub open spec fn holds_at(buf: Seq<u8>, pos: int, e: Seq<u8>) -> bool {
    0 <= pos && pos + e.len() <= buf.len() && buf.subrange(pos, pos + e.len()) == e
}

pub proof fn lemma_holds_at_concat(buf: Seq<u8>, pos: int, a: Seq<u8>, b: Seq<u8>)
    ensures
        holds_at(buf, pos, a + b) <==> holds_at(buf, pos, a) && holds_at(buf, pos + a.len(), b),
{
    if holds_at(buf, pos, a + b) {
        let whole = buf.subrange(pos, pos + a.len() + b.len());
        assert(whole == a + b);
        assert forall|j: int| 0 <= j < a.len() implies buf.subrange(pos, pos + a.len())[j] == a[j] by {
            assert(whole[j] == buf[pos + j]);
            assert((a + b)[j] == a[j]);
        }
        assert(buf.subrange(pos, pos + a.len()) =~= a);
        assert forall|j: int| 0 <= j < b.len() implies buf.subrange(pos + a.len(), pos + a.len() + b.len())[j]
            == b[j] by {
            assert(whole[a.len() + j] == buf[pos + a.len() + j]);
            assert((a + b)[a.len() + j] == b[j]);
        }
        assert(buf.subrange(pos + a.len(), pos + a.len() + b.len()) =~= b);
    }
    if holds_at(buf, pos, a) && holds_at(buf, pos + a.len(), b) {
        assert(buf.subrange(pos, pos + a.len() + b.len()) =~= a + b);
    }
}

/// Relies on `String::from_utf8`: it succeeds exactly on valid UTF-8, and
/// the string then holds the characters that the bytes encode.
#[verifier::external_body]
fn string_from_utf8(bytes: Vec<u8>) -> (r: Option<String>)
    ensures
        r is Some <==> valid_utf8(bytes@),
        r matches Some(s) ==> s@ == decode_utf8(bytes@),
{
    String::from_utf8(bytes).ok()
}

/// Reads the `w` little-endian bytes at `pos`.
pub(crate) fn read_uint(buf: &Vec<u8>, pos: usize, w: usize) -> (r: Option<u64>)
    requires
        w <= 8,
    ensures
        r is Some <==> pos + w <= buf@.len(),
        r matches Some(x) ==> holds_at(buf@, pos as int, le_bytes(x as nat, w as nat)) && x < pow256(
            w as nat,
        ),
        forall|v: nat|
            v < pow256(w as nat) && #[trigger] holds_at(buf@, pos as int, le_bytes(v, w as nat)) ==> r
                == Some(v as u64),
{
    proof {
        lemma_le_bytes_len(0, w as nat);
    }
    if pos > buf.len() || w > buf.len() - pos {
        proof {
            assert forall|v: nat| v < pow256(w as nat) && #[trigger] holds_at(buf@, pos as int, le_bytes(v, w as nat))
                implies false by {
                lemma_le_bytes_len(v, w as nat);
            }
        }
        return None;
    }
    let x = get_uint(buf, pos, w);
    proof {
        let sub = buf@.subrange(pos as int, pos + w);
        lemma_le_bytes_of_value(sub);
        crate::bytes::lemma_le_value_bound(sub);
        assert forall|v: nat| v < pow256(w as nat) && #[trigger] holds_at(buf@, pos as int, le_bytes(v, w as nat))
            implies x == v by {
            lemma_le_bytes_len(v, w as nat);
            lemma_le_round_trip(v, w as nat);
        }
    }
    Some(x)
}

/// Reads the `w`-byte two's complement at `pos`.
pub(crate) fn read_int(buf: &Vec<u8>, pos: usize, w: usize) -> (r: Option<i64>)
    requires
        w == 1 || w == 2 || w == 4 || w == 8,
    ensures
        r is Some <==> pos + w <= buf@.len(),
        r matches Some(x) ==> holds_at(buf@, pos as int, int_bytes(x as int, w as nat)) && -(pow256(
            w as nat,
        ) / 2) <= x < pow256(w as nat) / 2,
        forall|v: int|
            -(pow256(w as nat) / 2) <= v < pow256(w as nat) / 2 && #[trigger] holds_at(
                buf@,
                pos as int,
                int_bytes(v, w as nat),
            ) ==> r == Some(v as i64),
{
    proof {
        lemma_le_bytes_len(0, w as nat);
    }
    if pos > buf.len() || w > buf.len() - pos {
        proof {
            assert forall|v: int|
                -(pow256(w as nat) / 2) <= v < pow256(w as nat) / 2 && #[trigger] holds_at(
                    buf@,
                    pos as int,
                    int_bytes(v, w as nat),
                ) implies false by {
                lemma_le_bytes_len(crate::bytes::twos(v, w as nat), w as nat);
            }
        }
        return None;
    }
    let x = get_int(buf, pos, w);
    proof {
        let sub = buf@.subrange(pos as int, pos + w);
        lemma_le_bytes_of_value(sub);
        crate::bytes::lemma_le_value_bound(sub);
        crate::bytes::lemma_twos_of_value(le_value(sub), w as nat);
        assert forall|v: int|
            -(pow256(w as nat) / 2) <= v < pow256(w as nat) / 2 && #[trigger] holds_at(
                buf@,
                pos as int,
                int_bytes(v, w as nat),
            ) implies x == v by {
            lemma_le_bytes_len(crate::bytes::twos(v, w as nat), w as nat);
            lemma_int_round_trip(v, w as nat);
        }
    }
    Some(x)
}

/// Reads the `n` bytes at `pos` into a vector.
fn read_bytes(buf: &Vec<u8>, pos: usize, n: usize) -> (r: Vec<u8>)
    requires
        pos + n <= buf@.len(),
    ensures
        r@ == buf@.subrange(pos as int, pos + n),
{
    let len = buf.len();
    let mut out: Vec<u8> = Vec::new();
    let mut i: usize = 0;
    while i < n
        invariant
            len == buf@.len(),
            pos + n <= buf@.len(),
            i <= n,
            out@ == buf@.subrange(pos as int, pos + i),
        decreases n - i,
    {
        out.push(buf[pos + i]);
        i = i + 1;
        assert(out@ =~= buf@.subrange(pos as int, pos + i));
    }
    out
}

/// Reads a string: its 8-byte length, then its UTF-8 bytes.
pub(crate) fn read_utf8(buf: &Vec<u8>, pos: usize) -> (r: Option<(String, usize)>)
    ensures
        r matches Some((x, p)) ==> p == pos + enc_scalar(ScalarV::Utf8(x@)).len() && holds_at(
            buf@,
            pos as int,
            enc_scalar(ScalarV::Utf8(x@)),
        ),
        forall|s: Seq<char>|
            #[trigger] holds_at(buf@, pos as int, enc_scalar(ScalarV::Utf8(s))) ==> (r matches Some(
                (x, p),
            ) && x@ == s && p == pos + enc_scalar(ScalarV::Utf8(s)).len()),
{
    let blen = buf.len();
    proof {
        lemma_pow256_values();
        assert forall|s: Seq<char>| #[trigger] holds_at(buf@, pos as int, enc_scalar(ScalarV::Utf8(s))) implies 
            holds_at(buf@, pos as int, le_bytes(encode_utf8(s).len(), 8)) && holds_at(
                buf@,
                pos + 8,
                encode_utf8(s),
            ) && encode_utf8(s).len() < pow256(8) by {
            lemma_le_bytes_len(encode_utf8(s).len(), 8);
            lemma_holds_at_concat(buf@, pos as int, le_bytes(encode_utf8(s).len(), 8), encode_utf8(s));
        }
    }
    let n = match read_uint(buf, pos, 8) {
        Some(n) => n,
        None => {
            return None;
        },
    };
    proof {
        lemma_le_bytes_len(n as nat, 8);
    }
    if n > (buf.len() - pos - 8) as u64 {
        return None;
    }
    let start = pos + 8;
    let bytes = read_bytes(buf, start, n as usize);
    let ghost bv = bytes@;
    match string_from_utf8(bytes) {
        Some(s) => {
            proof {
                decode_utf8_encode_utf8(bv);
                lemma_holds_at_concat(buf@, pos as int, le_bytes(n as nat, 8), bv);
                assert forall|t: Seq<char>| #[trigger] holds_at(buf@, pos as int, enc_scalar(ScalarV::Utf8(t)))
                    implies s@ == t by {
                    encode_utf8_decode_utf8(t);
                    assert(encode_utf8(t).len() == n);
                    assert(bv == encode_utf8(t));
                }
            }
            Some((s, start + n as usize))
        },
        None => {
            proof {
                assert forall|t: Seq<char>| #[trigger] holds_at(buf@, pos as int, enc_scalar(ScalarV::Utf8(t)))
                    implies false by {
                    encode_utf8_valid_utf8(t);
                    assert(bv == encode_utf8(t));
                }
            }
            None
        },
    }
}

/// `r` is what reading a value of type `t` at `pos` must give: a value of
/// type `t` whose encoding is there, and the value whenever one is encoded there.
pub open spec fn reads_scalar(buf: Seq<u8>, pos: int, t: DataType, r: Option<(Scalar, usize)>) -> bool {
    &&& r matches Some((x, p)) ==> type_of(x@) == t && p == pos + enc_scalar(x@).len() && holds_at(
        buf,
        pos,
        enc_scalar(x@),
    )
    &&& forall|v: ScalarV|
        type_of(v) == t && #[trigger] holds_at(buf, pos, enc_scalar(v)) ==> (r matches Some((x, p))
            && x@ == v && p == pos + enc_scalar(v).len())
}

fn read_int16(buf: &Vec<u8>, pos: usize, t: DataType) -> (r: Option<(Scalar, usize)>)
    requires
        t == DataType::Int16,
    ensures
        reads_scalar(buf@, pos as int, t, r),
{
    let blen = buf.len();
    proof {
        lemma_pow256_values();
    }
    let x = read_int(buf, pos, 2);
    proof {
        lemma_le_bytes_len(0, 2);
        if let Some(y) = x {
            lemma_le_bytes_len(crate::bytes::twos(y as int, 2), 2);
        }
        assert forall|v: ScalarV| type_of(v) == t && #[trigger] holds_at(buf@, pos as int, enc_scalar(v))
            implies x == Some(v->Int16_0 as i64) by {
            lemma_le_bytes_len(crate::bytes::twos(v->Int16_0 as int, 2), 2);
        }
    }
    match x {
        Some(y) => Some((Scalar::Int16(y as i16), pos + 2)),
        None => None,
    }
}

fn read_int32(buf: &Vec<u8>, pos: usize, t: DataType) -> (r: Option<(Scalar, usize)>)
    requires
        t == DataType::Int32,
    ensures
        reads_scalar(buf@, pos as int, t, r),
{
    let blen = buf.len();
    proof {
        lemma_pow256_values();
    }
    let x = read_int(buf, pos, 4);
    proof {
        if let Some(y) = x {
            lemma_le_bytes_len(crate::bytes::twos(y as int, 4), 4);
        }
        assert forall|v: ScalarV| type_of(v) == t && #[trigger] holds_at(buf@, pos as int, enc_scalar(v))
            implies x == Some(v->Int32_0 as i64) by {
            lemma_le_bytes_len(crate::bytes::twos(v->Int32_0 as int, 4), 4);
        }
    }
    match x {
        Some(y) => Some((Scalar::Int32(y as i32), pos + 4)),
        None => None,
    }
}

fn read_int64(buf: &Vec<u8>, pos: usize, t: DataType) -> (r: Option<(Scalar, usize)>)
    requires
        t == DataType::Int64,
    ensures
        reads_scalar(buf@, pos as int, t, r),
{
    let blen = buf.len();
    proof {
        lemma_pow256_values();
    }
    let x = read_int(buf, pos, 8);
    proof {
        if let Some(y) = x {
            lemma_le_bytes_len(crate::bytes::twos(y as int, 8), 8);
        }
        assert forall|v: ScalarV| type_of(v) == t && #[trigger] holds_at(buf@, pos as int, enc_scalar(v))
            implies x == Some(v->Int64_0) by {
            lemma_le_bytes_len(crate::bytes::twos(v->Int64_0 as int, 8), 8);
        }
    }
    match x {
        Some(y) => Some((Scalar::Int64(y), pos + 8)),
        None => None,
    }
}

fn read_date(buf: &Vec<u8>, pos: usize, t: DataType) -> (r: Option<(Scalar, usize)>)
    requires
        t == DataType::Date,
    ensures
        reads_scalar(buf@, pos as int, t, r),
{
    let blen = buf.len();
    proof {
        lemma_pow256_values();
    }
    let x = read_int(buf, pos, 4);
    proof {
        if let Some(y) = x {
            lemma_le_bytes_len(crate::bytes::twos(y as int, 4), 4);
        }
        assert forall|v: ScalarV| type_of(v) == t && #[trigger] holds_at(buf@, pos as int, enc_scalar(v))
            implies x == Some(v->Date_0.days as i64) by {
            lemma_le_bytes_len(crate::bytes::twos(v->Date_0.days as int, 4), 4);
        }
    }
    match x {
        Some(y) => Some((Scalar::Date(Date { days: y as i32 }), pos + 4)),
        None => None,
    }
}

fn read_boolean(buf: &Vec<u8>, pos: usize, t: DataType) -> (r: Option<(Scalar, usize)>)
    requires
        t == DataType::Boolean,
    ensures
        reads_scalar(buf@, pos as int, t, r),
{
    let blen = buf.len();
    proof {
        lemma_pow256_values();
    }
    if pos >= buf.len() {
        return None;
    }
    let b = buf[pos];
    proof {
        assert forall|v: ScalarV| type_of(v) == t && #[trigger] holds_at(buf@, pos as int, enc_scalar(v))
            implies buf@[pos as int] == (if v->Bool_0 { 1u8 } else { 0u8 }) by {
            assert(buf@.subrange(pos as int, pos + 1)[0] == buf@[pos as int]);
        }
    }
    if b == 0 {
        assert(buf@.subrange(pos as int, pos + 1) =~= seq![0u8]);
        Some((Scalar::Bool(false), pos + 1))
    } else if b == 1 {
        assert(buf@.subrange(pos as int, pos + 1) =~= seq![1u8]);
        Some((Scalar::Bool(true), pos + 1))
    } else {
        None
    }
}

fn read_decimal(buf: &Vec<u8>, pos: usize, t: DataType) -> (r: Option<(Scalar, usize)>)
    requires
        t == DataType::Decimal,
    ensures
        reads_scalar(buf@, pos as int, t, r),
{
    let blen = buf.len();
    proof {
        lemma_pow256_values();
    }
    let m = read_int(buf, pos, 8);
    proof {
        assert forall|v: ScalarV| type_of(v) == t && #[trigger] holds_at(buf@, pos as int, enc_scalar(v))
            implies m == Some(v->Decimal_0.mantissa) && pos + 8 < buf@.len() && buf@[pos + 8]
            == v->Decimal_0.scale by {
            let d = v->Decimal_0;
            lemma_le_bytes_len(crate::bytes::twos(d.mantissa as int, 8), 8);
            lemma_holds_at_concat(buf@, pos as int, int_bytes(d.mantissa as int, 8), seq![d.scale]);
            assert(buf@.subrange(pos + 8, pos + 9)[0] == buf@[pos + 8]);
        }
    }
    let mantissa = match m {
        Some(y) => y,
        None => {
            return None;
        },
    };
    if pos + 8 >= buf.len() {
        return None;
    }
    let scale = buf[pos + 8];
    let x = Scalar::Decimal(Decimal { mantissa, scale });
    proof {
        lemma_le_bytes_len(crate::bytes::twos(mantissa as int, 8), 8);
        assert(buf@.subrange(pos + 8, pos + 9) =~= seq![scale]);
        lemma_holds_at_concat(buf@, pos as int, int_bytes(mantissa as int, 8), seq![scale]);
    }
    Some((x, pos + 9))
}

fn read_time(buf: &Vec<u8>, pos: usize, t: DataType) -> (r: Option<(Scalar, usize)>)
    requires
        t == DataType::Time,
    ensures
        reads_scalar(buf@, pos as int, t, r),
{
    let blen = buf.len();
    proof {
        lemma_pow256_values();
    }
    let a = read_uint(buf, pos, 4);
    let a = match a {
        Some(a) => a,
        None => {
            proof {
                assert forall|v: ScalarV| type_of(v) == t && #[trigger] holds_at(buf@, pos as int, enc_scalar(v))
                    implies false by {
                    let x = v->Time_0;
                    lemma_le_bytes_len(x.secs as nat, 4);
                    lemma_le_bytes_len(x.nanos as nat, 4);
                    lemma_holds_at_concat(buf@, pos as int, le_bytes(x.secs as nat, 4), le_bytes(x.nanos as nat, 4));
                }
            }
            return None;
        },
    };
    let b = match read_uint(buf, pos + 4, 4) {
        Some(b) => b,
        None => {
            proof {
                assert forall|v: ScalarV| type_of(v) == t && #[trigger] holds_at(buf@, pos as int, enc_scalar(v))
                    implies false by {
                    let x = v->Time_0;
                    lemma_le_bytes_len(x.secs as nat, 4);
                    lemma_le_bytes_len(x.nanos as nat, 4);
                    lemma_holds_at_concat(buf@, pos as int, le_bytes(x.secs as nat, 4), le_bytes(x.nanos as nat, 4));
                }
            }
            return None;
        },
    };
    proof {
        crate::bytes::lemma_le_value_bound(buf@.subrange(pos as int, pos + 4));
        crate::bytes::lemma_le_value_bound(buf@.subrange(pos + 4, pos + 8));
        lemma_le_bytes_of_value(buf@.subrange(pos as int, pos + 4));
        lemma_le_bytes_of_value(buf@.subrange(pos + 4, pos + 8));
    }
    let x = Scalar::Time(Time { secs: a as u32, nanos: b as u32 });
    proof {
        lemma_le_bytes_len(a as nat, 4);
        lemma_le_bytes_len(b as nat, 4);
        lemma_holds_at_concat(buf@, pos as int, le_bytes(a as nat, 4), le_bytes(b as nat, 4));
        assert forall|v: ScalarV| type_of(v) == t && #[trigger] holds_at(buf@, pos as int, enc_scalar(v))
            implies x@ == v by {
            let y = v->Time_0;
            lemma_le_bytes_len(y.secs as nat, 4);
            lemma_le_bytes_len(y.nanos as nat, 4);
            lemma_holds_at_concat(buf@, pos as int, le_bytes(y.secs as nat, 4), le_bytes(y.nanos as nat, 4));
        }
    }
    Some((x, pos + 8))
}

fn read_timestamp(buf: &Vec<u8>, pos: usize, t: DataType) -> (r: Option<(Scalar, usize)>)
    requires
        t == DataType::Timestamp,
    ensures
        reads_scalar(buf@, pos as int, t, r),
{
    let blen = buf.len();
    proof {
        lemma_pow256_values();
    }
    let a = match read_int(buf, pos, 8) {
        Some(a) => a,
        None => {
            proof {
                assert forall|v: ScalarV| type_of(v) == t && #[trigger] holds_at(buf@, pos as int, enc_scalar(v))
                    implies false by {
                    let x = v->Timestamp_0;
                    lemma_le_bytes_len(crate::bytes::twos(x.secs as int, 8), 8);
                    lemma_le_bytes_len(x.nsecs as nat, 4);
                    lemma_holds_at_concat(buf@, pos as int, int_bytes(x.secs as int, 8), le_bytes(x.nsecs as nat, 4));
                }
            }
            return None;
        },
    };
    let b = match read_uint(buf, pos + 8, 4) {
        Some(b) => b,
        None => {
            proof {
                assert forall|v: ScalarV| type_of(v) == t && #[trigger] holds_at(buf@, pos as int, enc_scalar(v))
                    implies false by {
                    let x = v->Timestamp_0;
                    lemma_le_bytes_len(crate::bytes::twos(x.secs as int, 8), 8);
                    lemma_le_bytes_len(x.nsecs as nat, 4);
                    lemma_holds_at_concat(buf@, pos as int, int_bytes(x.secs as int, 8), le_bytes(x.nsecs as nat, 4));
                }
            }
            return None;
        },
    };
    proof {
        crate::bytes::lemma_le_value_bound(buf@.subrange(pos + 8, pos + 12));
        lemma_le_bytes_of_value(buf@.subrange(pos + 8, pos + 12));
    }
    let x = Scalar::Timestamp(Timestamp { secs: a, nsecs: b as u32 });
    proof {
        lemma_le_bytes_len(crate::bytes::twos(a as int, 8), 8);
        lemma_le_bytes_len(b as nat, 4);
        lemma_holds_at_concat(buf@, pos as int, int_bytes(a as int, 8), le_bytes(b as nat, 4));
        assert forall|v: ScalarV| type_of(v) == t && #[trigger] holds_at(buf@, pos as int, enc_scalar(v))
            implies x@ == v by {
            let y = v->Timestamp_0;
            lemma_le_bytes_len(crate::bytes::twos(y.secs as int, 8), 8);
            lemma_le_bytes_len(y.nsecs as nat, 4);
            lemma_holds_at_concat(buf@, pos as int, int_bytes(y.secs as int, 8), le_bytes(y.nsecs as nat, 4));
        }
    }
    Some((x, pos + 12))
}

fn read_varchar(buf: &Vec<u8>, pos: usize, t: DataType) -> (r: Option<(Scalar, usize)>)
    requires
        t == DataType::Varchar,
    ensures
        reads_scalar(buf@, pos as int, t, r),
{
    let blen = buf.len();
    proof {
        lemma_pow256_values();
    }
    match read_utf8(buf, pos) {
        Some((s, p)) => Some((Scalar::Utf8(s), p)),
        None => None,
    }
}

/// Reads one value of type `t`.
fn read_scalar(buf: &Vec<u8>, pos: usize, t: DataType) -> (r: Option<(Scalar, usize)>)
    ensures
        reads_scalar(buf@, pos as int, t, r),
{
    match t {
        DataType::Int16 => read_int16(buf, pos, t),
        DataType::Int32 => read_int32(buf, pos, t),
        DataType::Int64 => read_int64(buf, pos, t),
        DataType::Date => read_date(buf, pos, t),
        DataType::Boolean => read_boolean(buf, pos, t),
        DataType::Decimal => read_decimal(buf, pos, t),
        DataType::Time => read_time(buf, pos, t),
        DataType::Timestamp => read_timestamp(buf, pos, t),
        DataType::Varchar => read_varchar(buf, pos, t),
    }
}

/// `r` is what reading a nullable value of type `t` at `pos` must give.
pub open spec fn reads_datum(buf: Seq<u8>, pos: int, t: DataType, r: Option<(Datum, usize)>) -> bool {
    &&& r matches Some((x, p)) ==> datum_has_type(datum_view(x), t) && p == pos + enc_datum(
        datum_view(x),
    ).len() && holds_at(buf, pos, enc_datum(datum_view(x)))
    &&& forall|d: DatumV|
        datum_has_type(d, t) && #[trigger] holds_at(buf, pos, enc_datum(d)) ==> (r matches Some((x, p))
            && datum_view(x) == d && p == pos + enc_datum(d).len())
}

/// Reads one nullable value of type `t`.
pub fn read_datum(buf: &Vec<u8>, pos: usize, t: DataType) -> (r: Option<(Datum, usize)>)
    ensures
        reads_datum(buf@, pos as int, t, r),
{
    let blen = buf.len();
    proof {
        assert forall|d: DatumV| datum_has_type(d, t) && #[trigger] holds_at(buf@, pos as int, enc_datum(d))
            implies pos < buf@.len() && buf@[pos as int] == (if d is Some { 1u8 } else { 0u8 }) by {
            assert(buf@.subrange(pos as int, pos + enc_datum(d).len())[0] == buf@[pos as int]);
        }
    }
    if pos >= buf.len() {
        return None;
    }
    let tag = buf[pos];
    if tag == 0 {
        assert(buf@.subrange(pos as int, pos + 1) =~= seq![0u8]);
        Some((None, pos + 1))
    } else if tag == 1 {
        let r = read_scalar(buf, pos + 1, t);
        proof {
            assert forall|d: DatumV| datum_has_type(d, t) && #[trigger] holds_at(buf@, pos as int, enc_datum(d))
                implies holds_at(buf@, pos + 1, enc_scalar(d->Some_0)) by {
                lemma_holds_at_concat(buf@, pos as int, seq![1u8], enc_scalar(d->Some_0));
            }
            if r is Some {
                let x = r->Some_0.0;
                assert(buf@.subrange(pos as int, pos + 1) =~= seq![1u8]);
                lemma_holds_at_concat(buf@, pos as int, seq![1u8], enc_scalar(x@));
            }
        }
        match r {
            Some((x, p)) => Some((Some(x), p)),
            None => None,
        }
    } else {
        None
    }
}

/// Reads a row of values of the given types.
pub fn read_row(buf: &Vec<u8>, pos: usize, types: &Vec<DataType>) -> (r: Option<(Vec<Datum>, usize)>)
    ensures
        r matches Some((x, p)) ==> x@.len() == types@.len() && p == pos + enc_row(datums_view(x@)).len()
            && holds_at(buf@, pos as int, enc_row(datums_view(x@))) && forall|i: int|
            0 <= i < x@.len() ==> datum_has_type(#[trigger] datums_view(x@)[i], types@[i]),
        forall|s: Seq<DatumV>|
            s.len() == types@.len() && (forall|i: int| 0 <= i < s.len() ==> datum_has_type(#[trigger] s[i], types@[i]))
                && #[trigger] holds_at(buf@, pos as int, enc_row(s)) ==> (r matches Some((x, p))
                && datums_view(x@) == s && p == pos + enc_row(s).len()),
{
    let mut out: Vec<Datum> = Vec::new();
    let mut cur: usize = pos;
    let mut i: usize = 0;
    let ghost f = |d: DatumV| enc_datum(d);
    proof {
        assert(enc_row(datums_view(out@)) =~= Seq::<u8>::empty());
    }
    while i < types.len()
        invariant
            i <= types@.len(),
            out@.len() == i,
            forall|j: int| 0 <= j < i ==> datum_has_type(#[trigger] datums_view(out@)[j], types@[j]),
            f == (|d: DatumV| enc_datum(d)),
            pos <= buf@.len() || i == 0,
            cur == pos + enc_row(datums_view(out@)).len(),
            i == 0 ==> cur == pos,
            i > 0 ==> holds_at(buf@, pos as int, enc_row(datums_view(out@))),
            forall|s: Seq<DatumV>|
                s.len() == types@.len() && (forall|j: int| 0 <= j < s.len() ==> datum_has_type(#[trigger] s[j], types@[j]))
                    && #[trigger] holds_at(buf@, pos as int, enc_row(s)) ==> datums_view(out@) == s.take(i as int),
        decreases types@.len() - i,
    {
        let ghost before = out@;
        proof {
            assert forall|s: Seq<DatumV>|
                s.len() == types@.len() && (forall|j: int| 0 <= j < s.len() ==> datum_has_type(#[trigger] s[j], types@[j]))
                    && #[trigger] holds_at(buf@, pos as int, enc_row(s)) implies holds_at(buf@, cur as int, enc_datum(s[i as int])) by {
                lemma_enc_seq_step(s, i as int, f);
                lemma_holds_at_concat(buf@, pos as int, enc_row(s.take(i as int)), enc_row(s.skip(i as int)));
                lemma_holds_at_concat(buf@, cur as int, enc_datum(s[i as int]), enc_row(s.skip(i + 1)));
            }
        }
        let (d, p) = match read_datum(buf, cur, types[i]) {
            Some(x) => x,
            None => {
                return None;
            },
        };
        proof {
            lemma_enc_seq_concat(datums_view(before), seq![datum_view(d)], f);
            assert(datums_view(before.push(d)) =~= datums_view(before) + seq![datum_view(d)]);
            assert(seq![datum_view(d)].drop_first() =~= Seq::<DatumV>::empty());
            assert(enc_seq(Seq::<DatumV>::empty(), f) =~= Seq::<u8>::empty());
            assert(enc_row(seq![datum_view(d)]) =~= enc_datum(datum_view(d)));
            if i > 0 {
                lemma_holds_at_concat(buf@, pos as int, enc_row(datums_view(before)), enc_datum(datum_view(d)));
            } else {
                assert(datums_view(before) =~= Seq::<DatumV>::empty());
                assert(enc_row(datums_view(before)) =~= Seq::<u8>::empty());
                assert(enc_row(datums_view(before)) + enc_datum(datum_view(d)) =~= enc_datum(datum_view(d)));
            }
        }
        out.push(d);
        cur = p;
        proof {
            assert forall|s: Seq<DatumV>|
                s.len() == types@.len() && (forall|j: int| 0 <= j < s.len() ==> datum_has_type(#[trigger] s[j], types@[j]))
                    && #[trigger] holds_at(buf@, pos as int, enc_row(s)) implies datums_view(out@) == s.take(i + 1) by {
                assert(s.take(i + 1) =~= s.take(i as int).push(s[i as int]));
                assert(datums_view(out@) =~= datums_view(before).push(datum_view(d)));
            }
        }
        i = i + 1;
    }
    proof {
        if i == 0 {
            assert(enc_row(datums_view(out@)) =~= Seq::<u8>::empty());
        }
        assert forall|s: Seq<DatumV>|
            s.len() == types@.len() && (forall|j: int| 0 <= j < s.len() ==> datum_has_type(#[trigger] s[j], types@[j]))
                && #[trigger] holds_at(buf@, pos as int, enc_row(s)) implies datums_view(out@) == s by {
            assert(s.take(i as int) =~= s);
        }
    }
    if i == 0 && pos > buf.len() {
        return None;
    }
    if i == 0 {
        assert(buf@.subrange(pos as int, pos as int) =~= Seq::<u8>::empty());
    }
    Some((out, cur))
}

pub proof fn lemma_enc_row_len(s: Seq<DatumV>)
    ensures
        enc_row(s).len() >= s.len(),
    decreases s.len(),
{
    if s.len() > 0 {
        lemma_enc_row_len(s.drop_first());
    }
}

pub proof fn lemma_enc_ops(s: Seq<Op>)
    ensures
        enc_ops(s).len() == s.len(),
        forall|i: int| 0 <= i < s.len() ==> #[trigger] enc_ops(s)[i] == op_tag(s[i]),
    decreases s.len(),
{
    if s.len() > 0 {
        lemma_enc_ops(s.drop_first());
        assert forall|i: int| 0 <= i < s.len() implies #[trigger] enc_ops(s)[i] == op_tag(s[i]) by {
            if i > 0 {
                assert(enc_ops(s)[i] == enc_ops(s.drop_first())[i - 1]);
            }
        }
    }
}

pub proof fn lemma_enc_bools(s: Seq<bool>)
    ensures
        enc_bools(s).len() == s.len(),
        forall|i: int| 0 <= i < s.len() ==> #[trigger] enc_bools(s)[i] == (if s[i] { 1u8 } else { 0u8 }),
    decreases s.len(),
{
    if s.len() > 0 {
        lemma_enc_bools(s.drop_first());
        assert forall|i: int| 0 <= i < s.len() implies #[trigger] enc_bools(s)[i] == (if s[i] {
            1u8
        } else {
            0u8
        }) by {
            if i > 0 {
                assert(enc_bools(s)[i] == enc_bools(s.drop_first())[i - 1]);
            }
        }
    }
}

fn type_of_tag(tag: u8) -> (r: Option<DataType>)
    ensures
        r matches Some(t) ==> type_tag(t) == tag,
        forall|t: DataType| type_tag(t) == tag ==> r == Some(t),
{
    if tag == 0 {
        Some(DataType::Int16)
    } else if tag == 1 {
        Some(DataType::Int32)
    } else if tag == 2 {
        Some(DataType::Int64)
    } else if tag == 3 {
        Some(DataType::Boolean)
    } else if tag == 4 {
        Some(DataType::Decimal)
    } else if tag == 5 {
        Some(DataType::Date)
    } else if tag == 6 {
        Some(DataType::Time)
    } else if tag == 7 {
        Some(DataType::Timestamp)
    } else if tag == 8 {
        Some(DataType::Varchar)
    } else {
        None
    }
}

/// Reads a column.
pub fn read_array(buf: &Vec<u8>, pos: usize) -> (r: Option<(ArrayImpl, usize)>)
    ensures
        r matches Some((a, p)) ==> array_wf(a@) && p == pos + enc_array(a@).len() && holds_at(
            buf@,
            pos as int,
            enc_array(a@),
        ),
        forall|av: ArrayV|
            array_wf(av) && #[trigger] holds_at(buf@, pos as int, enc_array(av)) ==> (r matches Some(
                (a, p),
            ) && a@ == av && p == pos + enc_array(av).len()),
{
    let blen = buf.len();
    proof {
        lemma_pow256_values();
        assert forall|av: ArrayV| array_wf(av) && #[trigger] holds_at(buf@, pos as int, enc_array(av)) implies {
            &&& pos < buf@.len() && buf@[pos as int] == type_tag(av.data_type)
            &&& holds_at(buf@, pos + 1, le_bytes(av.values.len(), 8))
            &&& holds_at(buf@, pos + 9, enc_row(av.values))
            &&& av.values.len() < pow256(8)
            &&& av.values.len() <= buf@.len() - pos - 9
        } by {
            lemma_le_bytes_len(av.values.len(), 8);
            lemma_enc_row_len(av.values);
            lemma_holds_at_concat(buf@, pos as int, seq![type_tag(av.data_type)] + le_bytes(av.values.len(), 8), enc_row(av.values));
            lemma_holds_at_concat(buf@, pos as int, seq![type_tag(av.data_type)], le_bytes(av.values.len(), 8));
            assert(buf@.subrange(pos as int, pos + 1)[0] == buf@[pos as int]);
        }
    }
    if pos >= buf.len() {
        return None;
    }
    let t = match type_of_tag(buf[pos]) {
        Some(t) => t,
        None => {
            return None;
        },
    };
    let n = match read_uint(buf, pos + 1, 8) {
        Some(n) => n,
        None => {
            return None;
        },
    };
    if n > (buf.len() - pos - 9) as u64 {
        return None;
    }
    let mut types: Vec<DataType> = Vec::new();
    let mut i: usize = 0;
    while i < n as usize
        invariant
            i <= n,
            types@.len() == i,
            forall|j: int| 0 <= j < i ==> types@[j] == t,
        decreases n - i,
    {
        types.push(t);
        i = i + 1;
    }
    let (values, p) = match read_row(buf, pos + 9, &types) {
        Some(x) => x,
        None => {
            proof {
                assert forall|av: ArrayV| array_wf(av) && #[trigger] holds_at(buf@, pos as int, enc_array(av))
                    implies false by {
                    assert(av.data_type == t);
                    assert(forall|j: int| 0 <= j < av.values.len() ==> datum_has_type(#[trigger] av.values[j], types@[j]));
                }
            }
            return None;
        },
    };
    let a = ArrayImpl { data_type: t, values };
    proof {
        lemma_le_bytes_len(n as nat, 8);
        assert(datums_view(a.values@).len() == types@.len());
        assert forall|j: int| 0 <= j < a@.values.len() implies datum_has_type(#[trigger] a@.values[j], t) by {
            assert(datum_has_type(datums_view(a.values@)[j], types@[j]));
        }
        assert(buf@.subrange(pos as int, pos + 1) =~= seq![type_tag(t)]);
        lemma_holds_at_concat(buf@, pos as int, seq![type_tag(t)], le_bytes(n as nat, 8));
        lemma_holds_at_concat(buf@, pos as int, seq![type_tag(t)] + le_bytes(n as nat, 8), enc_row(a@.values));
        assert forall|av: ArrayV| array_wf(av) && #[trigger] holds_at(buf@, pos as int, enc_array(av))
            implies a@ == av by {
            assert(av.data_type == t);
            assert(forall|j: int| 0 <= j < av.values.len() ==> datum_has_type(#[trigger] av.values[j], types@[j]));
        }
    }
    Some((a, p))
}

pub open spec fn columns_view(s: Seq<Column>) -> Seq<ArrayV> {
    s.map_values(|c: Column| c@)
}

/// Every column is well typed and has `n` values.
pub open spec fn columns_fit(cs: Seq<ArrayV>, n: nat) -> bool {
    forall|i: int| 0 <= i < cs.len() ==> array_wf(#[trigger] cs[i]) && cs[i].values.len() == n
}

/// Reads `ncols` columns of `nrows` values each.
fn read_columns(buf: &Vec<u8>, pos: usize, ncols: usize, nrows: usize) -> (r: Option<(Vec<Column>, usize)>)
    ensures
        r matches Some((x, p)) ==> x@.len() == ncols && columns_fit(columns_view(x@), nrows as nat) && p
            == pos + enc_columns(columns_view(x@)).len() && holds_at(buf@, pos as int, enc_columns(columns_view(x@))),
        forall|cs: Seq<ArrayV>|
            cs.len() == ncols && columns_fit(cs, nrows as nat) && #[trigger] holds_at(buf@, pos as int, enc_columns(cs))
                ==> (r matches Some((x, p)) && columns_view(x@) == cs && p == pos + enc_columns(cs).len()),
{
    let mut out: Vec<Column> = Vec::new();
    let mut cur: usize = pos;
    let mut i: usize = 0;
    let ghost f = |a: ArrayV| enc_array(a);
    proof {
        assert(enc_columns(columns_view(out@)) =~= Seq::<u8>::empty());
    }
    while i < ncols
        invariant
            i <= ncols,
            out@.len() == i,
            columns_fit(columns_view(out@), nrows as nat),
            f == (|a: ArrayV| enc_array(a)),
            cur == pos + enc_columns(columns_view(out@)).len(),
            i == 0 ==> cur == pos,
            i > 0 ==> holds_at(buf@, pos as int, enc_columns(columns_view(out@))),
            forall|cs: Seq<ArrayV>|
                cs.len() == ncols && columns_fit(cs, nrows as nat) && #[trigger] holds_at(buf@, pos as int, enc_columns(cs))
                    ==> columns_view(out@) == cs.take(i as int),
        decreases ncols - i,
    {
        let ghost before = out@;
        proof {
            assert forall|cs: Seq<ArrayV>|
                cs.len() == ncols && columns_fit(cs, nrows as nat) && #[trigger] holds_at(buf@, pos as int, enc_columns(cs))
                    implies holds_at(buf@, cur as int, enc_array(cs[i as int])) by {
                lemma_enc_seq_step(cs, i as int, f);
                lemma_holds_at_concat(buf@, pos as int, enc_columns(cs.take(i as int)), enc_columns(cs.skip(i as int)));
                lemma_holds_at_concat(buf@, cur as int, enc_array(cs[i as int]), enc_columns(cs.skip(i + 1)));
            }
        }
        let (a, p) = match read_array(buf, cur) {
            Some(x) => x,
            None => {
                return None;
            },
        };
        if a.len() != nrows {
            proof {
                assert forall|cs: Seq<ArrayV>|
                    cs.len() == ncols && columns_fit(cs, nrows as nat) && #[trigger] holds_at(buf@, pos as int, enc_columns(cs))
                        implies false by {
                    assert(array_wf(cs[i as int]));
                }
            }
            return None;
        }
        let col = Column::new(a);
        proof {
            lemma_enc_seq_concat(columns_view(before), seq![col@], f);
            assert(columns_view(before.push(col)) =~= columns_view(before) + seq![col@]);
            assert(seq![col@].drop_first() =~= Seq::<ArrayV>::empty());
            assert(enc_seq(Seq::<ArrayV>::empty(), f) =~= Seq::<u8>::empty());
            assert(enc_columns(seq![col@]) =~= enc_array(col@));
            if i > 0 {
                lemma_holds_at_concat(buf@, pos as int, enc_columns(columns_view(before)), enc_array(col@));
            } else {
                assert(columns_view(before) =~= Seq::<ArrayV>::empty());
                assert(enc_columns(columns_view(before)) =~= Seq::<u8>::empty());
                assert(enc_columns(columns_view(before)) + enc_array(col@) =~= enc_array(col@));
            }
        }
        out.push(col);
        cur = p;
        proof {
            assert forall|cs: Seq<ArrayV>|
                cs.len() == ncols && columns_fit(cs, nrows as nat) && #[trigger] holds_at(buf@, pos as int, enc_columns(cs))
                    implies columns_view(out@) == cs.take(i + 1) by {
                assert(cs.take(i + 1) =~= cs.take(i as int).push(cs[i as int]));
                assert(columns_view(out@) =~= columns_view(before).push(col@));
            }
            assert forall|j: int| 0 <= j < columns_view(out@).len() implies array_wf(#[trigger] columns_view(out@)[j])
                && columns_view(out@)[j].values.len() == nrows by {
                if j < i {
                    assert(columns_view(out@)[j] == columns_view(before)[j]);
                }
            }
        }
        i = i + 1;
    }
    proof {
        if i == 0 {
            assert(enc_columns(columns_view(out@)) =~= Seq::<u8>::empty());
        }
        assert forall|cs: Seq<ArrayV>|
            cs.len() == ncols && columns_fit(cs, nrows as nat) && #[trigger] holds_at(buf@, pos as int, enc_columns(cs))
                implies columns_view(out@) == cs by {
            assert(cs.take(i as int) =~= cs);
        }
    }
    if i == 0 && pos > buf.len() {
        return None;
    }
    if i == 0 {
        assert(buf@.subrange(pos as int, pos as int) =~= Seq::<u8>::empty());
    }
    Some((out, cur))
}

fn op_of_tag(tag: u8) -> (r: Option<Op>)
    ensures
        r matches Some(o) ==> op_tag(o) == tag,
        forall|o: Op| op_tag(o) == tag ==> r == Some(o),
{
    if tag == 0 {
        Some(Op::Insert)
    } else if tag == 1 {
        Some(Op::Delete)
    } else if tag == 2 {
        Some(Op::UpdateDelete)
    } else if tag == 3 {
        Some(Op::UpdateInsert)
    } else {
        None
    }
}

/// Reads `n` operations, one byte each.
fn read_ops(buf: &Vec<u8>, pos: usize, n: usize) -> (r: Option<Vec<Op>>)
    requires
        pos + n <= buf@.len(),
    ensures
        r matches Some(x) ==> x@.len() == n && buf@.subrange(pos as int, pos + n) == enc_ops(x@),
        forall|s: Seq<Op>| s.len() == n && #[trigger] enc_ops(s) == buf@.subrange(pos as int, pos + n) ==> (r
            matches Some(x) && x@ == s),
{
    let blen = buf.len();
    let mut out: Vec<Op> = Vec::new();
    let mut i: usize = 0;
    while i < n
        invariant
            blen == buf@.len(),
            pos + n <= buf@.len(),
            i <= n,
            out@.len() == i,
            forall|j: int| 0 <= j < i ==> op_tag(#[trigger] out@[j]) == buf@[pos + j],
        decreases n - i,
    {
        match op_of_tag(buf[pos + i]) {
            Some(o) => out.push(o),
            None => {
                proof {
                    assert forall|s: Seq<Op>| s.len() == n && #[trigger] enc_ops(s) == buf@.subrange(pos as int, pos + n)
                        implies false by {
                        lemma_enc_ops(s);
                        assert(enc_ops(s)[i as int] == buf@[pos + i]);
                    }
                }
                return None;
            },
        }
        i = i + 1;
    }
    proof {
        lemma_enc_ops(out@);
        assert(buf@.subrange(pos as int, pos + n) =~= enc_ops(out@));
        assert forall|s: Seq<Op>| s.len() == n && #[trigger] enc_ops(s) == buf@.subrange(pos as int, pos + n)
            implies s == out@ by {
            lemma_enc_ops(s);
            assert forall|j: int| 0 <= j < n implies s[j] == out@[j] by {
                assert(enc_ops(s)[j] == buf@[pos + j]);
                assert(op_tag(s[j]) == op_tag(out@[j]));
            }
            assert(s =~= out@);
        }
    }
    Some(out)
}

/// Reads `n` booleans, one byte each.
fn read_bools(buf: &Vec<u8>, pos: usize, n: usize) -> (r: Option<Vec<bool>>)
    requires
        pos + n <= buf@.len(),
    ensures
        r matches Some(x) ==> x@.len() == n && buf@.subrange(pos as int, pos + n) == enc_bools(x@),
        forall|s: Seq<bool>| s.len() == n && #[trigger] enc_bools(s) == buf@.subrange(pos as int, pos + n) ==> (r
            matches Some(x) && x@ == s),
{
    let blen = buf.len();
    let mut out: Vec<bool> = Vec::new();
    let mut i: usize = 0;
    while i < n
        invariant
            blen == buf@.len(),
            pos + n <= buf@.len(),
            i <= n,
            out@.len() == i,
            forall|j: int| 0 <= j < i ==> (if #[trigger] out@[j] { 1u8 } else { 0u8 }) == buf@[pos + j],
        decreases n - i,
    {
        let b = buf[pos + i];
        if b == 0 {
            out.push(false);
        } else if b == 1 {
            out.push(true);
        } else {
            proof {
                assert forall|s: Seq<bool>| s.len() == n && #[trigger] enc_bools(s) == buf@.subrange(pos as int, pos + n)
                    implies false by {
                    lemma_enc_bools(s);
                    assert(enc_bools(s)[i as int] == buf@[pos + i]);
                }
            }
            return None;
        }
        i = i + 1;
    }
    proof {
        lemma_enc_bools(out@);
        assert(buf@.subrange(pos as int, pos + n) =~= enc_bools(out@));
        assert forall|s: Seq<bool>| s.len() == n && #[trigger] enc_bools(s) == buf@.subrange(pos as int, pos + n)
            implies s == out@ by {
            lemma_enc_bools(s);
            assert forall|j: int| 0 <= j < n implies s[j] == out@[j] by {
                assert(enc_bools(s)[j] == buf@[pos + j]);
            }
            assert(s =~= out@);
        }
    }
    Some(out)
}

pub open spec fn opt_bools_view(v: Option<Vec<bool>>) -> Option<Seq<bool>> {
    match v {
        Some(x) => Some(x@),
        None => None,
    }
}

/// The visibility part of a chunk's wire form, for `n` rows.
pub open spec fn vis_fits(v: Option<Seq<bool>>, n: nat) -> bool {
    v matches Some(x) ==> x.len() == n
}

/// Reads the visibility of `n` rows.
fn read_visibility(buf: &Vec<u8>, pos: usize, n: usize) -> (r: Option<(Option<Vec<bool>>, usize)>)
    ensures
        r matches Some((v, p)) ==> vis_fits(opt_bools_view(v), n as nat) && p == pos + enc_visibility(
            opt_bools_view(v),
        ).len() && holds_at(buf@, pos as int, enc_visibility(opt_bools_view(v))),
        forall|vv: Option<Seq<bool>>|
            vis_fits(vv, n as nat) && #[trigger] holds_at(buf@, pos as int, enc_visibility(vv)) ==> (r matches Some(
                (v, p),
            ) && opt_bools_view(v) == vv && p == pos + enc_visibility(vv).len()),
{
    let blen = buf.len();
    proof {
        assert forall|vv: Option<Seq<bool>>| vis_fits(vv, n as nat) && #[trigger] holds_at(buf@, pos as int, enc_visibility(vv))
            implies pos < buf@.len() && buf@[pos as int] == (if vv is Some { 1u8 } else { 0u8 }) && (vv is Some
            ==> pos + 1 + n <= buf@.len() && buf@.subrange(pos + 1, pos + 1 + n) == enc_bools(vv->Some_0)) by {
            lemma_enc_bools_len_any(vv);
            assert(buf@.subrange(pos as int, pos + enc_visibility(vv).len())[0] == buf@[pos as int]);
            if let Some(x) = vv {
                lemma_enc_bools(x);
                lemma_holds_at_concat(buf@, pos as int, seq![1u8], enc_bools(x));
            }
        }
    }
    if pos >= buf.len() {
        return None;
    }
    if buf[pos] == 0 {
        assert(buf@.subrange(pos as int, pos + 1) =~= seq![0u8]);
        Some((None, pos + 1))
    } else if buf[pos] == 1 {
        if n > buf.len() - pos - 1 {
            return None;
        }
        match read_bools(buf, pos + 1, n) {
            Some(v) => {
                proof {
                    lemma_enc_bools(v@);
                    assert(buf@.subrange(pos as int, pos + 1) =~= seq![1u8]);
                    lemma_holds_at_concat(buf@, pos as int, seq![1u8], enc_bools(v@));
                }
                Some((Some(v), pos + 1 + n))
            },
            None => None,
        }
    } else {
        None
    }
}

/// The parts of a chunk's wire form, and where they stand.
pub proof fn lemma_chunk_parts(b: Seq<u8>, c: ChunkV)
    requires
        chunk_wf(c),
        enc_chunk(c) == b,
        b.len() < pow256(8),
    ensures
        ({
            let n = c.ops.len() as int;
            let vl = enc_visibility(c.visibility).len() as int;
            &&& n < pow256(8) && c.columns.len() < pow256(8)
            &&& 8 + n <= b.len()
            &&& holds_at(b, 0, le_bytes(n as nat, 8))
            &&& b.subrange(8, 8 + n) == enc_ops(c.ops)
            &&& holds_at(b, 8 + n, enc_visibility(c.visibility))
            &&& holds_at(b, 8 + n + vl, le_bytes(c.columns.len(), 8))
            &&& holds_at(b, 16 + n + vl, enc_columns(c.columns))
            &&& 16 + n + vl + enc_columns(c.columns).len() == b.len()
            &&& c.columns.len() <= b.len()
            &&& vis_fits(c.visibility, c.ops.len())
            &&& columns_fit(c.columns, c.ops.len())
        }),
{
    lemma_pow256_values();
    let n = c.ops.len();
    let pa = le_bytes(n, 8);
    let pb = enc_ops(c.ops);
    let pc = enc_visibility(c.visibility);
    let pd = le_bytes(c.columns.len(), 8);
    let pe = enc_columns(c.columns);
    lemma_le_bytes_len(n, 8);
    lemma_le_bytes_len(c.columns.len(), 8);
    lemma_enc_ops(c.ops);
    lemma_enc_columns_len(c.columns);
    assert(b.subrange(0, b.len() as int) =~= b);
    assert(holds_at(b, 0, pa + pb + pc + pd + pe));
    lemma_holds_at_concat(b, 0, pa + pb + pc + pd, pe);
    lemma_holds_at_concat(b, 0, pa + pb + pc, pd);
    lemma_holds_at_concat(b, 0, pa + pb, pc);
    lemma_holds_at_concat(b, 0, pa, pb);
    lemma_enc_columns_len(c.columns);
}

/// Decodes a chunk: exactly the wire forms of well-formed chunks decode,
/// each to the chunk it encodes.
pub fn decode_chunk(bytes: &Vec<u8>) -> (r: Option<StreamChunk>)
    ensures
        r matches Some(x) ==> chunk_wf(x@) && enc_chunk(x@) == bytes@,
        forall|c: ChunkV| chunk_wf(c) && #[trigger] enc_chunk(c) == bytes@ ==> (r matches Some(x) && x@ == c),
{
    let blen = bytes.len();
    let ghost b = bytes@;
    proof {
        lemma_pow256_values();
        assert(b.len() < pow256(8));
        assert forall|c: ChunkV| chunk_wf(c) && #[trigger] enc_chunk(c) == bytes@ implies c.ops.len() <= b.len()
            - 8 by {
            lemma_chunk_parts(b, c);
        }
    }
    let n64 = match read_uint(bytes, 0, 8) {
        Some(n) => n,
        None => {
            proof {
                assert forall|c: ChunkV| chunk_wf(c) && #[trigger] enc_chunk(c) == bytes@ implies false by {
                    lemma_chunk_parts(b, c);
                    lemma_le_bytes_len(c.ops.len(), 8);
                }
            }
            return None;
        },
    };
    proof {
        assert forall|c: ChunkV| chunk_wf(c) && #[trigger] enc_chunk(c) == bytes@ implies c.ops.len() == n64 by {
            lemma_chunk_parts(b, c);
        }
    }
    if n64 > (bytes.len() - 8) as u64 {
        return None;
    }
    let n = n64 as usize;
    let ops = match read_ops(bytes, 8, n) {
        Some(o) => o,
        None => {
            proof {
                assert forall|c: ChunkV| chunk_wf(c) && #[trigger] enc_chunk(c) == bytes@ implies false by {
                    lemma_chunk_parts(b, c);
                }
            }
            return None;
        },
    };
    let (visibility, cur) = match read_visibility(bytes, 8 + n, n) {
        Some(x) => x,
        None => {
            proof {
                assert forall|c: ChunkV| chunk_wf(c) && #[trigger] enc_chunk(c) == bytes@ implies false by {
                    lemma_chunk_parts(b, c);
                }
            }
            return None;
        },
    };
    proof {
        assert forall|c: ChunkV| chunk_wf(c) && #[trigger] enc_chunk(c) == bytes@ implies c.ops == ops@
            && c.visibility == opt_bools_view(visibility) by {
            lemma_chunk_parts(b, c);
        }
    }
    let ncols64 = match read_uint(bytes, cur, 8) {
        Some(x) => x,
        None => {
            proof {
                assert forall|c: ChunkV| chunk_wf(c) && #[trigger] enc_chunk(c) == bytes@ implies false by {
                    lemma_chunk_parts(b, c);
                    lemma_le_bytes_len(c.columns.len(), 8);
                }
            }
            return None;
        },
    };
    proof {
        assert forall|c: ChunkV| chunk_wf(c) && #[trigger] enc_chunk(c) == bytes@ implies c.columns.len()
            == ncols64 by {
            lemma_chunk_parts(b, c);
        }
    }
    if ncols64 > bytes.len() as u64 {
        proof {
            assert forall|c: ChunkV| chunk_wf(c) && #[trigger] enc_chunk(c) == bytes@ implies false by {
                lemma_chunk_parts(b, c);
            }
        }
        return None;
    }
    let ncols = ncols64 as usize;
    proof {
        lemma_le_bytes_len(ncols as nat, 8);
        lemma_le_bytes_len(n as nat, 8);
    }
    let (columns, end) = match read_columns(bytes, cur + 8, ncols, n) {
        Some(x) => x,
        None => {
            proof {
                assert forall|c: ChunkV| chunk_wf(c) && #[trigger] enc_chunk(c) == bytes@ implies false by {
                    lemma_chunk_parts(b, c);
                }
            }
            return None;
        },
    };
    if end != bytes.len() {
        proof {
            assert forall|c: ChunkV| chunk_wf(c) && #[trigger] enc_chunk(c) == bytes@ implies false by {
                lemma_chunk_parts(b, c);
            }
        }
        return None;
    }
    let ghost vv = opt_bools_view(visibility);
    let r = StreamChunk { ops, columns, visibility };
    proof {
        assert(r@.visibility == vv);
        assert(r@.columns == columns_view(columns@));
        let pa = le_bytes(n as nat, 8);
        let pb = enc_ops(ops@);
        let pc = enc_visibility(vv);
        let pd = le_bytes(ncols as nat, 8);
        let pe = enc_columns(columns_view(columns@));
        lemma_enc_ops(ops@);
        assert(holds_at(b, 8, pb));
        lemma_holds_at_concat(b, 0, pa, pb);
        lemma_holds_at_concat(b, 0, pa + pb, pc);
        lemma_holds_at_concat(b, 0, pa + pb + pc, pd);
        lemma_holds_at_concat(b, 0, pa + pb + pc + pd, pe);
        assert(b.subrange(0, b.len() as int) =~= b);
        assert(chunk_wf(r@));
        assert forall|c: ChunkV| chunk_wf(c) && #[trigger] enc_chunk(c) == bytes@ implies r@ == c by {
            lemma_chunk_parts(b, c);
        }
    }
    Some(r)
}

pub proof fn lemma_enc_columns_len(s: Seq<ArrayV>)
    ensures
        enc_columns(s).len() >= s.len(),
    decreases s.len(),
{
    if s.len() > 0 {
        lemma_enc_columns_len(s.drop_first());
    }
}

pub proof fn lemma_enc_bools_len_any(v: Option<Seq<bool>>)
    ensures
        enc_visibility(v).len() >= 1,
        enc_visibility(v)[0] == (if v is Some { 1u8 } else { 0u8 }),
        v matches Some(x) ==> enc_visibility(v).len() == 1 + x.len(),
        v is None ==> enc_visibility(v).len() == 1,
{
    if let Some(x) = v {
        lemma_enc_bools(x);
    }
}

impl Column {
    /// The wire form of the column.
    pub fn to_bytes(&self) -> (r: Vec<u8>)
        ensures
            r@ == enc_array(self@),
    {
        let mut out: Vec<u8> = Vec::new();
        put_array(&mut out, self.array_ref());
        out
    }

    /// The column whose wire form is `bytes`, with `cardinality` values.
    pub fn from_bytes(bytes: &Vec<u8>, cardinality: usize) -> (r: Result<Column, crate::error::StreamError>)
        ensures
            r matches Ok(c) ==> array_wf(c@) && c@.values.len() == cardinality && enc_array(c@) == bytes@,
            r is Err ==> r == Err::<Column, crate::error::StreamError>(crate::error::StreamError::Malformed),
            forall|a: ArrayV|
                array_wf(a) && a.values.len() == cardinality && #[trigger] enc_array(a) == bytes@ ==> (r matches Ok(
                    c,
                ) && c@ == a),
    {
        proof {
            assert forall|a: ArrayV| array_wf(a) && a.values.len() == cardinality && #[trigger] enc_array(a)
                == bytes@ implies holds_at(bytes@, 0, enc_array(a)) by {
                assert(bytes@.subrange(0, bytes@.len() as int) =~= bytes@);
            }
        }
        match read_array(bytes, 0) {
            Some((a, p)) => {
                if p != bytes.len() || a.len() != cardinality {
                    return Err(crate::error::StreamError::Malformed);
                }
                assert(bytes@.subrange(0, bytes@.len() as int) =~= bytes@);
                Ok(Column::new(a))
            },
            None => Err(crate::error::StreamError::Malformed),
        }
    }
}

} // verus!
