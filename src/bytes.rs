//! Little-endian encoding of fixed-width integers.
use vstd::prelude::*;

verus! {

pub open spec fn pow256(w: nat) -> nat
    decreases w,
{
    if w == 0 {
        1
    } else {
        256 * pow256((w - 1) as nat)
    }
}

/// The `w` low bytes of `u`, least significant first.
pub open spec fn le_bytes(u: nat, w: nat) -> Seq<u8>
    decreases w,
{
    if w == 0 {
        Seq::empty()
    } else {
        seq![(u % 256) as u8] + le_bytes(u / 256, (w - 1) as nat)
    }
}

/// The number whose little-endian bytes are `s`.
pub open spec fn le_value(s: Seq<u8>) -> nat
    decreases s.len(),
{
    if s.len() == 0 {
        0
    } else {
        s[0] as nat + 256 * le_value(s.drop_first())
    }
}

/// The two's complement of `v` in `w` bytes.
pub open spec fn twos(v: int, w: nat) -> nat {
    if v >= 0 {
        v as nat
    } else {
        (v + pow256(w)) as nat
    }
}

/// The signed number whose two's complement in `w` bytes is `u`.
pub open spec fn from_twos(u: nat, w: nat) -> int {
    if u < pow256(w) / 2 {
        u as int
    } else {
        u - pow256(w)
    }
}

/// The `w`-byte little-endian two's complement of `v`.
pub open spec fn int_bytes(v: int, w: nat) -> Seq<u8> {
    le_bytes(twos(v, w), w)
}

pub proof fn lemma_pow256_values()
    ensures
        pow256(1) == 0x100,
        pow256(2) == 0x1_0000,
        pow256(4) == 0x1_0000_0000,
        pow256(7) == 0x100_0000_0000_0000,
        pow256(8) == 0x1_0000_0000_0000_0000,
{
    assert(pow256(0) == 1);
    assert(pow256(1) == 0x100);
    assert(pow256(2) == 0x1_0000);
    assert(pow256(3) == 0x100_0000);
    assert(pow256(4) == 0x1_0000_0000);
    assert(pow256(5) == 0x100_0000_0000);
    assert(pow256(6) == 0x1_0000_0000_0000);
    assert(pow256(7) == 0x100_0000_0000_0000);
    assert(pow256(8) == 0x1_0000_0000_0000_0000);
}

pub proof fn lemma_pow256_pos(w: nat)
    ensures
        pow256(w) >= 1,
    decreases w,
{
    if w > 0 {
        lemma_pow256_pos((w - 1) as nat);
    }
}

pub proof fn lemma_le_bytes_len(u: nat, w: nat)
    ensures
        le_bytes(u, w).len() == w,
    decreases w,
{
    if w > 0 {
        lemma_le_bytes_len(u / 256, (w - 1) as nat);
    }
}

/// Reading back the bytes of `u` gives `u`.
pub proof fn lemma_le_round_trip(u: nat, w: nat)
    requires
        u < pow256(w),
    ensures
        le_value(le_bytes(u, w)) == u,
    decreases w,
{
    if w > 0 {
        let rest = le_bytes(u / 256, (w - 1) as nat);
        assert(u / 256 < pow256((w - 1) as nat)) by (nonlinear_arith)
            requires
                u < 256 * pow256((w - 1) as nat),
        ;
        lemma_le_round_trip(u / 256, (w - 1) as nat);
        let s = le_bytes(u, w);
        assert(s.drop_first() =~= rest);
        assert(u == u % 256 + 256 * (u / 256)) by (nonlinear_arith);
    }
}

pub proof fn lemma_le_value_bound(s: Seq<u8>)
    ensures
        le_value(s) < pow256(s.len()),
    decreases s.len(),
{
    if s.len() > 0 {
        lemma_le_value_bound(s.drop_first());
        let a = s[0] as nat;
        let b = le_value(s.drop_first());
        let p = pow256((s.len() - 1) as nat);
        assert(a + 256 * b < 256 * p) by (nonlinear_arith)
            requires
                a < 256,
                b < p,
        ;
    }
}

/// Reading back the two's complement of `v` gives `v`.
pub proof fn lemma_int_round_trip(v: int, w: nat)
    requires
        w >= 1,
        -(pow256(w) / 2) <= v < pow256(w) / 2,
    ensures
        le_value(int_bytes(v, w)) == twos(v, w),
        from_twos(twos(v, w), w) == v,
        twos(v, w) < pow256(w),
{
    lemma_pow256_pos(w);
    lemma_le_round_trip(twos(v, w), w);
}

/// Bytes are the little-endian bytes of their value.
pub proof fn lemma_le_bytes_of_value(s: Seq<u8>)
    ensures
        le_bytes(le_value(s), s.len()) == s,
    decreases s.len(),
{
    if s.len() > 0 {
        let v = le_value(s.drop_first());
        lemma_le_bytes_of_value(s.drop_first());
        let a = s[0] as nat;
        assert((a + 256 * v) % 256 == a && (a + 256 * v) / 256 == v) by (nonlinear_arith)
            requires
                a < 256,
        ;
        assert(le_bytes(le_value(s), s.len()) =~= seq![s[0]] + s.drop_first());
        assert(seq![s[0]] + s.drop_first() =~= s);
    }
}

/// A `w`-byte two's complement is the two's complement of its value.
pub proof fn lemma_twos_of_value(u: nat, w: nat)
    requires
        w >= 1,
        u < pow256(w),
    ensures
        twos(from_twos(u, w), w) == u,
        -(pow256(w) / 2) <= from_twos(u, w) < pow256(w) / 2,
{
    assert(pow256(w) == 256 * pow256((w - 1) as nat));
}

/// Appends the `w` little-endian bytes of `u`.
pub fn put_uint(out: &mut Vec<u8>, u: u64, w: usize)
    ensures
        final(out)@ == old(out)@ + le_bytes(u as nat, w as nat),
{
    let mut x: u64 = u;
    let mut k: usize = 0;
    while k < w
        invariant
            k <= w,
            old(out)@ + le_bytes(u as nat, w as nat) == out@ + le_bytes(x as nat, (w - k) as nat),
        decreases w - k,
    {
        let ghost before = out@;
        out.push((x % 256) as u8);
        assert(le_bytes(x as nat, (w - k) as nat) == seq![(x % 256) as u8] + le_bytes(
            (x / 256) as nat,
            (w - k - 1) as nat,
        ));
        assert(before + le_bytes(x as nat, (w - k) as nat) =~= out@ + le_bytes(
            (x / 256) as nat,
            (w - k - 1) as nat,
        ));
        x = x / 256;
        k = k + 1;
    }
    assert(out@ + le_bytes(x as nat, 0) =~= out@);
}

/// The largest `w`-byte unsigned number.
fn width_mask(w: usize) -> (r: u64)
    requires
        w == 1 || w == 2 || w == 4 || w == 8,
    ensures
        r as nat + 1 == pow256(w as nat),
{
    proof {
        lemma_pow256_values();
    }
    if w == 1 {
        0xff
    } else if w == 2 {
        0xffff
    } else if w == 4 {
        0xffff_ffff
    } else {
        0xffff_ffff_ffff_ffff
    }
}

/// Appends the `w`-byte little-endian two's complement of `v`.
pub fn put_int(out: &mut Vec<u8>, v: i64, w: usize)
    requires
        w == 1 || w == 2 || w == 4 || w == 8,
        -(pow256(w as nat) / 2) <= v < pow256(w as nat) / 2,
    ensures
        final(out)@ == old(out)@ + int_bytes(v as int, w as nat),
{
    let mask = width_mask(w);
    let u: u64 = if v >= 0 {
        v as u64
    } else {
        let a: u64 = (-(v + 1)) as u64;
        mask - a
    };
    assert(u as nat == twos(v as int, w as nat));
    put_uint(out, u, w);
}

/// Reads `w` little-endian bytes at `pos`.
pub fn get_uint(buf: &Vec<u8>, pos: usize, w: usize) -> (r: u64)
    requires
        w <= 8,
        pos + w <= buf@.len(),
    ensures
        r as nat == le_value(buf@.subrange(pos as int, pos + w)),
{
    proof {
        lemma_pow256_values();
    }
    let ghost s = buf@.subrange(pos as int, pos + w);
    let n = buf.len();
    let mut acc: u64 = 0;
    let mut k: usize = w;
    while k > 0
        invariant
            k <= w <= 8,
            pos + w <= buf@.len(),
            n == buf@.len(),
            s == buf@.subrange(pos as int, pos + w),
            acc as nat == le_value(s.subrange(k as int, w as int)),
        decreases k,
    {
        let ghost tail = s.subrange(k as int, w as int);
        proof {
            lemma_le_value_bound(tail);
            lemma_pow_mono((w - k) as nat, 7);
            lemma_pow256_values();
        }
        assert(acc * 256 + 255 < 0x1_0000_0000_0000_0000) by (nonlinear_arith)
            requires
                acc < pow256((w - k) as nat),
                pow256((w - k) as nat) <= pow256(7),
                pow256(7) == 0x100_0000_0000_0000,
        ;
        k = k - 1;
        acc = acc * 256 + buf[pos + k] as u64;
        assert(s.subrange(k as int, w as int).drop_first() =~= tail);
    }
    assert(s.subrange(0, w as int) =~= s);
    acc
}

pub proof fn lemma_pow_mono(a: nat, b: nat)
    requires
        a <= b,
    ensures
        pow256(a) <= pow256(b),
    decreases b,
{
    if a < b {
        lemma_pow_mono(a, (b - 1) as nat);
        lemma_pow256_pos((b - 1) as nat);
    }
}

/// Reads the `w`-byte little-endian two's complement at `pos`.
pub fn get_int(buf: &Vec<u8>, pos: usize, w: usize) -> (r: i64)
    requires
        w == 1 || w == 2 || w == 4 || w == 8,
        pos + w <= buf@.len(),
    ensures
        r as int == from_twos(le_value(buf@.subrange(pos as int, pos + w)), w as nat),
{
    let u = get_uint(buf, pos, w);
    proof {
        lemma_le_value_bound(buf@.subrange(pos as int, pos + w));
        lemma_pow256_values();
    }
    let mask = width_mask(w);
    let half: u64 = mask / 2 + 1;
    if u < half {
        u as i64
    } else {
        let a: u64 = mask - u;
        -(a as i64) - 1
    }
}

} // verus!
