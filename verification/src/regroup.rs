//! Regrouping between 8-bit bytes and the 5-bit values a Bech32 data part
//! carries: most-significant bit first, the last group zero-padded on the
//! way out, and the padding checked on the way back.
use vstd::prelude::*;

verus! {

/// Bit `j` of the byte stream `p`, most significant first; zero past the
/// end.
pub open spec fn byte_bit(p: Seq<u8>, j: int) -> u8 {
    if 0 <= j < 8 * p.len() {
        (((p[j / 8] as u32) >> ((7 - (j % 8)) as u32)) & 1) as u8
    } else {
        0
    }
}

/// Bit `j` of the five-bit value stream `d`, most significant first; zero
/// past the end.
pub open spec fn u5_bit(d: Seq<u8>, j: int) -> u8 {
    if 0 <= j < 5 * d.len() {
        (((d[j / 5] as u32) >> ((4 - (j % 5)) as u32)) & 1) as u8
    } else {
        0
    }
}

/// How many five-bit groups `n` bytes regroup into, the last one padded.
pub open spec fn u5_len(n: int) -> int {
    (8 * n + 4) / 5
}

/// The `i`th five-bit group of the byte stream `p`.
pub open spec fn group5(p: Seq<u8>, i: int) -> u8 {
    (16 * byte_bit(p, 5 * i) + 8 * byte_bit(p, 5 * i + 1) + 4 * byte_bit(p, 5 * i + 2) + 2
        * byte_bit(p, 5 * i + 3) + byte_bit(p, 5 * i + 4)) as u8
}

/// The byte stream `p` regrouped into five-bit values.
pub open spec fn u5_of_bytes(p: Seq<u8>) -> Seq<u8> {
    Seq::new(u5_len(p.len() as int) as nat, |i: int| group5(p, i))
}

/// How many whole bytes `m` five-bit groups carry.
pub open spec fn byte_len(m: int) -> int {
    5 * m / 8
}

/// The `i`th byte carried by the five-bit value stream `d`.
pub open spec fn byte_at(d: Seq<u8>, i: int) -> u8 {
    (128 * u5_bit(d, 8 * i) + 64 * u5_bit(d, 8 * i + 1) + 32 * u5_bit(d, 8 * i + 2) + 16 * u5_bit(
        d,
        8 * i + 3,
    ) + 8 * u5_bit(d, 8 * i + 4) + 4 * u5_bit(d, 8 * i + 5) + 2 * u5_bit(d, 8 * i + 6) + u5_bit(
        d,
        8 * i + 7,
    )) as u8
}

/// The stream `d` regroups exactly: fewer than five leftover bits, all of
/// them zero.
pub open spec fn bytes_of_u5_ok(d: Seq<u8>) -> bool {
    &&& (5 * d.len()) % 8 < 5
    &&& forall|j: int| 8 * byte_len(d.len() as int) <= j < 5 * d.len() ==> u5_bit(d, j) == 0
}

/// The bytes carried by the five-bit value stream `d`.
pub open spec fn bytes_of_u5(d: Seq<u8>) -> Seq<u8> {
    Seq::new(byte_len(d.len() as int) as nat, |i: int| byte_at(d, i))
}

/// A shifted-out bit is never above one.
proof fn lemma_shift_and_le1(x: u32, s: u32)
    by (bit_vector)
    ensures
        ((x >> s) & 1) <= 1,
{
}

/// Reads bit `j` of the byte stream.
fn byte_bit_at(p: &[u8], j: usize) -> (r: u8)
    requires
        p@.len() * 8 <= usize::MAX,
    ensures
        r == byte_bit(p@, j as int),
        r <= 1,
{
    if j < p.len() * 8 {
        let byte: u8 = p[j / 8];
        let sh: usize = 7 - (j % 8);
        proof {
            lemma_shift_and_le1(byte as u32, sh as u32);
        }
        (((byte as u32) >> (sh as u32)) & 1) as u8
    } else {
        0
    }
}

/// Reads bit `j` of the five-bit value stream.
fn u5_bit_at(d: &[u8], j: usize) -> (r: u8)
    requires
        d@.len() * 5 <= usize::MAX,
    ensures
        r == u5_bit(d@, j as int),
        r <= 1,
{
    if j < d.len() * 5 {
        let v: u8 = d[j / 5];
        let sh: usize = 4 - (j % 5);
        proof {
            lemma_shift_and_le1(v as u32, sh as u32);
        }
        (((v as u32) >> (sh as u32)) & 1) as u8
    } else {
        0
    }
}

/// Regroups bytes into five-bit values, padding the last group with zero
/// bits.
pub fn to_five_bit(p: &[u8]) -> (r: Vec<u8>)
    requires
        p@.len() * 8 + 4 <= usize::MAX,
    ensures
        r@ == u5_of_bytes(p@),
        forall|i: int| 0 <= i < r@.len() ==> r@[i] < 32,
{
    let n: usize = p.len();
    let out_len: usize = (n * 8 + 4) / 5;
    let mut out: Vec<u8> = Vec::new();
    for i in 0..out_len
        invariant
            n == p@.len(),
            n * 8 + 4 <= usize::MAX,
            out_len == u5_len(n as int),
            out@.len() == i,
            forall|x: int| 0 <= x < i ==> out@[x] == group5(p@, x) && out@[x] < 32,
    {
        proof {
            assert(i * 5 + 4 < out_len * 5) by (nonlinear_arith)
                requires
                    i < out_len,
            ;
            assert(out_len * 5 <= n * 8 + 4) by (nonlinear_arith)
                requires
                    out_len == (n * 8 + 4) / 5,
            ;
        }
        let base: usize = i * 5;
        let b0: u8 = byte_bit_at(p, base);
        let b1: u8 = byte_bit_at(p, base + 1);
        let b2: u8 = byte_bit_at(p, base + 2);
        let b3: u8 = byte_bit_at(p, base + 3);
        let b4: u8 = byte_bit_at(p, base + 4);
        let v: u8 = 16 * b0 + 8 * b1 + 4 * b2 + 2 * b3 + b4;
        assert(v == group5(p@, i as int));
        out.push(v);
    }
    proof {
        assert(out@ =~= u5_of_bytes(p@));
    }
    out
}

/// Regroups five-bit values back into bytes; `None` where the padding is
/// too long or carries a set bit.
pub fn to_eight_bit(d: &[u8]) -> (r: Option<Vec<u8>>)
    requires
        d@.len() * 5 <= usize::MAX,
    ensures
        match r {
            Some(v) => bytes_of_u5_ok(d@) && v@ == bytes_of_u5(d@),
            None => !bytes_of_u5_ok(d@),
        },
{
    let m: usize = d.len();
    let total: usize = m * 5;
    let out_len: usize = total / 8;
    if total % 8 >= 5 {
        return None;
    }
    let mut out: Vec<u8> = Vec::new();
    for i in 0..out_len
        invariant
            m == d@.len(),
            total == m * 5,
            out_len == byte_len(m as int),
            out@.len() == i,
            forall|x: int| 0 <= x < i ==> out@[x] == byte_at(d@, x),
    {
        proof {
            assert(i * 8 + 7 < out_len * 8) by (nonlinear_arith)
                requires
                    i < out_len,
            ;
            assert(out_len * 8 <= total) by (nonlinear_arith)
                requires
                    out_len == total / 8,
            ;
        }
        let base: usize = i * 8;
        let b0: u8 = u5_bit_at(d, base);
        let b1: u8 = u5_bit_at(d, base + 1);
        let b2: u8 = u5_bit_at(d, base + 2);
        let b3: u8 = u5_bit_at(d, base + 3);
        let b4: u8 = u5_bit_at(d, base + 4);
        let b5: u8 = u5_bit_at(d, base + 5);
        let b6: u8 = u5_bit_at(d, base + 6);
        let b7: u8 = u5_bit_at(d, base + 7);
        let v: u8 = 128 * b0 + 64 * b1 + 32 * b2 + 16 * b3 + 8 * b4 + 4 * b5 + 2 * b6 + b7;
        assert(v == byte_at(d@, i as int));
        out.push(v);
    }
    let mut j: usize = out_len * 8;
    proof {
        assert(out_len * 8 <= total) by (nonlinear_arith)
            requires
                out_len == total / 8,
        ;
    }
    while j < total
        invariant
            m == d@.len(),
            total == m * 5,
            out_len == byte_len(m as int),
            8 * out_len <= j <= total,
            forall|x: int| 8 * out_len <= x < j ==> u5_bit(d@, x) == 0,
        decreases total - j,
    {
        if u5_bit_at(d, j) != 0 {
            return None;
        }
        j = j + 1;
    }
    proof {
        assert((5 * d@.len()) % 8 < 5);
        assert(out@ =~= bytes_of_u5(d@));
    }
    Some(out)
}

/// A stream bit is never above one.
proof fn lemma_byte_bit_le1(p: Seq<u8>, j: int)
    ensures
        byte_bit(p, j) <= 1,
{
    if 0 <= j < 8 * p.len() {
        lemma_shift_and_le1(p[j / 8] as u32, (7 - (j % 8)) as u32);
    }
}

/// Bit `8 * i + k` of a byte stream reads bit `k` of byte `i`.
proof fn lemma_bit_of_byte(p: Seq<u8>, i: int, k: int)
    requires
        0 <= k < 8,
        0 <= i < p.len(),
    ensures
        byte_bit(p, 8 * i + k) == (((p[i] as u32) >> ((7 - k) as u32)) & 1) as u8,
{
    assert((8 * i + k) / 8 == i && (8 * i + k) % 8 == k) by (nonlinear_arith)
        requires
            0 <= k < 8,
            0 <= i,
    ;
}

/// Regrouping preserves the bit stream: bit `j` of the five-bit form of
/// `p` is bit `j` of `p` itself.
pub proof fn lemma_regroup_bits(p: Seq<u8>, j: int)
    requires
        0 <= j < 5 * u5_len(p.len() as int),
    ensures
        u5_bit(u5_of_bytes(p), j) == byte_bit(p, j),
{
    let d = u5_of_bytes(p);
    let ll = u5_len(p.len() as int);
    let i = j / 5;
    let rm = j % 5;
    vstd::arithmetic::div_mod::lemma_fundamental_div_mod(j, 5);
    assert(i < ll) by (nonlinear_arith)
        requires
            0 <= j,
            j < 5 * ll,
            i == j / 5,
    ;
    let b0 = byte_bit(p, 5 * i);
    let b1 = byte_bit(p, 5 * i + 1);
    let b2 = byte_bit(p, 5 * i + 2);
    let b3 = byte_bit(p, 5 * i + 3);
    let b4 = byte_bit(p, 5 * i + 4);
    lemma_byte_bit_le1(p, 5 * i);
    lemma_byte_bit_le1(p, 5 * i + 1);
    lemma_byte_bit_le1(p, 5 * i + 2);
    lemma_byte_bit_le1(p, 5 * i + 3);
    lemma_byte_bit_le1(p, 5 * i + 4);
    let g = d[i];
    assert(g == group5(p, i));
    assert(g == (16 * b0 + 8 * b1 + 4 * b2 + 2 * b3 + b4) as u8);
    if rm == 0 {
        assert((((g as u32) >> 4) & 1) as u8 == b0) by (bit_vector)
            requires
                b0 <= 1,
                b1 <= 1,
                b2 <= 1,
                b3 <= 1,
                b4 <= 1,
                g == (16 * b0 + 8 * b1 + 4 * b2 + 2 * b3 + b4) as u8,
        ;
    } else if rm == 1 {
        assert((((g as u32) >> 3) & 1) as u8 == b1) by (bit_vector)
            requires
                b0 <= 1,
                b1 <= 1,
                b2 <= 1,
                b3 <= 1,
                b4 <= 1,
                g == (16 * b0 + 8 * b1 + 4 * b2 + 2 * b3 + b4) as u8,
        ;
    } else if rm == 2 {
        assert((((g as u32) >> 2) & 1) as u8 == b2) by (bit_vector)
            requires
                b0 <= 1,
                b1 <= 1,
                b2 <= 1,
                b3 <= 1,
                b4 <= 1,
                g == (16 * b0 + 8 * b1 + 4 * b2 + 2 * b3 + b4) as u8,
        ;
    } else if rm == 3 {
        assert((((g as u32) >> 1) & 1) as u8 == b3) by (bit_vector)
            requires
                b0 <= 1,
                b1 <= 1,
                b2 <= 1,
                b3 <= 1,
                b4 <= 1,
                g == (16 * b0 + 8 * b1 + 4 * b2 + 2 * b3 + b4) as u8,
        ;
    } else {
        assert((((g as u32) >> 0) & 1) as u8 == b4) by (bit_vector)
            requires
                b0 <= 1,
                b1 <= 1,
                b2 <= 1,
                b3 <= 1,
                b4 <= 1,
                g == (16 * b0 + 8 * b1 + 4 * b2 + 2 * b3 + b4) as u8,
        ;
    }
}

/// Every five-bit group is below 32.
pub proof fn lemma_u5_of_bytes_range(p: Seq<u8>)
    ensures
        forall|i: int| 0 <= i < u5_of_bytes(p).len() ==> u5_of_bytes(p)[i] < 32,
{
    assert forall|i: int| 0 <= i < u5_of_bytes(p).len() implies u5_of_bytes(p)[i] < 32 by {
        lemma_byte_bit_le1(p, 5 * i);
        lemma_byte_bit_le1(p, 5 * i + 1);
        lemma_byte_bit_le1(p, 5 * i + 2);
        lemma_byte_bit_le1(p, 5 * i + 3);
        lemma_byte_bit_le1(p, 5 * i + 4);
        assert(u5_of_bytes(p)[i] == group5(p, i));
    }
}

/// Round trip: regrouping bytes to five-bit values and back is the
/// identity, and the padding it leaves is always acceptable.
pub proof fn lemma_regroup_roundtrip(p: Seq<u8>)
    ensures
        bytes_of_u5_ok(u5_of_bytes(p)),
        bytes_of_u5(u5_of_bytes(p)) == p,
{
    let d = u5_of_bytes(p);
    let n = p.len() as int;
    let ll = u5_len(n);
    vstd::arithmetic::div_mod::lemma_fundamental_div_mod(8 * n + 4, 5);
    assert(8 * n <= 5 * ll <= 8 * n + 4);
    vstd::arithmetic::div_mod::lemma_fundamental_div_mod(5 * ll, 8);
    assert(byte_len(ll) == n);
    assert((5 * d.len()) % 8 < 5);
    assert forall|j: int| 8 * byte_len(d.len() as int) <= j < 5 * d.len() implies u5_bit(d, j)
        == 0 by {
        lemma_regroup_bits(p, j);
    }
    assert forall|i: int| 0 <= i < n implies byte_at(d, i) == p[i] by {
        let x = p[i];
        let c0 = u5_bit(d, 8 * i);
        let c1 = u5_bit(d, 8 * i + 1);
        let c2 = u5_bit(d, 8 * i + 2);
        let c3 = u5_bit(d, 8 * i + 3);
        let c4 = u5_bit(d, 8 * i + 4);
        let c5 = u5_bit(d, 8 * i + 5);
        let c6 = u5_bit(d, 8 * i + 6);
        let c7 = u5_bit(d, 8 * i + 7);
        lemma_bit_of_byte(p, i, 0);
        lemma_bit_of_byte(p, i, 1);
        lemma_bit_of_byte(p, i, 2);
        lemma_bit_of_byte(p, i, 3);
        lemma_bit_of_byte(p, i, 4);
        lemma_bit_of_byte(p, i, 5);
        lemma_bit_of_byte(p, i, 6);
        lemma_bit_of_byte(p, i, 7);
        lemma_regroup_bits(p, 8 * i);
        lemma_regroup_bits(p, 8 * i + 1);
        lemma_regroup_bits(p, 8 * i + 2);
        lemma_regroup_bits(p, 8 * i + 3);
        lemma_regroup_bits(p, 8 * i + 4);
        lemma_regroup_bits(p, 8 * i + 5);
        lemma_regroup_bits(p, 8 * i + 6);
        lemma_regroup_bits(p, 8 * i + 7);
        assert(128 * c0 + 64 * c1 + 32 * c2 + 16 * c3 + 8 * c4 + 4 * c5 + 2 * c6 + c7
            == x) by (bit_vector)
            requires
                c0 == (((x as u32) >> 7) & 1) as u8,
                c1 == (((x as u32) >> 6) & 1) as u8,
                c2 == (((x as u32) >> 5) & 1) as u8,
                c3 == (((x as u32) >> 4) & 1) as u8,
                c4 == (((x as u32) >> 3) & 1) as u8,
                c5 == (((x as u32) >> 2) & 1) as u8,
                c6 == (((x as u32) >> 1) & 1) as u8,
                c7 == (((x as u32) >> 0) & 1) as u8,
        ;
    }
    assert(bytes_of_u5(d) =~= p);
}

} // verus!
