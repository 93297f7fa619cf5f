//! The Bech32 / Bech32m checksum: a polynomial remainder over GF(32),
//! folded value by value, together with the algebraic facts the codec's
//! guarantees rest on (linearity over XOR, and that a fresh checksum
//! always verifies).
use vstd::prelude::*;

verus! {

/// Checksum constant for plain Bech32 (segwit version 0).
pub const BECH32_CONST: u32 = 1;

/// Checksum constant for the Bech32m variant (segwit versions 1 and up).
pub const BECH32M_CONST: u32 = 0x2bc8_30a3;

/// One step of the polymod fold: shift five bits in, XOR the value, and
/// XOR in a generator for each of the five bits shifted out.
pub open spec fn polymod_step(chk: u32, v: u8) -> u32 {
    (((chk & 0x1ff_ffff) << 5) ^ (v as u32)) ^ ((((chk >> 25) & 1) * 0x3b6a_57b2) as u32) ^ ((((chk
        >> 26) & 1) * 0x2650_8e6d) as u32) ^ ((((chk >> 27) & 1) * 0x1ea1_19fa) as u32) ^ ((((chk
        >> 28) & 1) * 0x3d42_33dd) as u32) ^ ((((chk >> 29) & 1) * 0x2a14_62b3) as u32)
}

/// The polymod fold over a sequence of five-bit values, from a given
/// accumulator.
pub open spec fn polymod_from(chk: u32, vals: Seq<u8>) -> u32
    decreases vals.len(),
{
    if vals.len() == 0 {
        chk
    } else {
        polymod_from(polymod_step(chk, vals[0]), vals.drop_first())
    }
}

/// The checksum polynomial of a value sequence, from the standard starting
/// accumulator 1.
pub open spec fn polymod(vals: Seq<u8>) -> u32 {
    polymod_from(1, vals)
}

/// The human-readable part enters the checksum expanded: the high bits of
/// each byte, a zero, then the low five bits of each byte.
pub open spec fn hrp_expand(hrp: Seq<u8>) -> Seq<u8> {
    hrp.map_values(|b: u8| b >> 5) + seq![0u8] + hrp.map_values(|b: u8| b & 31)
}

/// A sequence of `n` zero values.
pub open spec fn zero_seq(n: nat) -> Seq<u8> {
    Seq::new(n, |i: int| 0u8)
}

/// A 30-bit accumulator split into six five-bit values, most significant
/// first: the order in which checksum characters are written out.
pub open spec fn split6(t: u32) -> Seq<u8> {
    seq![
        ((t >> 25) & 31) as u8,
        ((t >> 20) & 31) as u8,
        ((t >> 15) & 31) as u8,
        ((t >> 10) & 31) as u8,
        ((t >> 5) & 31) as u8,
        (t & 31) as u8,
    ]
}

/// The six checksum values appended to `payload` under `hrp` so that the
/// whole data part folds to `konst`.
pub open spec fn spec_checksum(hrp: Seq<u8>, payload: Seq<u8>, konst: u32) -> Seq<u8> {
    split6(polymod(hrp_expand(hrp) + payload + zero_seq(6)) ^ konst)
}

/// A full data part verifies under `konst`: its polymod, with the expanded
/// human-readable part in front, equals the constant.
pub open spec fn checksum_verifies(hrp: Seq<u8>, vals: Seq<u8>, konst: u32) -> bool {
    polymod(hrp_expand(hrp) + vals) == konst
}

/// Folding one more value steps the accumulator once.
pub proof fn lemma_polymod_push(chk: u32, vals: Seq<u8>, v: u8)
    ensures
        polymod_from(chk, vals.push(v)) == polymod_step(polymod_from(chk, vals), v),
    decreases vals.len(),
{
    assert(vals.push(v)[0] == if vals.len() == 0 {
        v
    } else {
        vals[0]
    });
    if vals.len() == 0 {
        assert(vals.push(v).drop_first() =~= Seq::<u8>::empty());
        assert(polymod_from(polymod_step(chk, v), Seq::<u8>::empty()) == polymod_step(chk, v));
    } else {
        assert(vals.push(v).drop_first() =~= vals.drop_first().push(v));
        lemma_polymod_push(polymod_step(chk, vals[0]), vals.drop_first(), v);
    }
}

/// The fold over a concatenation is the fold over the second part, started
/// from the fold over the first.
pub proof fn lemma_polymod_append(chk: u32, x: Seq<u8>, y: Seq<u8>)
    ensures
        polymod_from(chk, x + y) == polymod_from(polymod_from(chk, x), y),
    decreases x.len(),
{
    if x.len() == 0 {
        assert(x + y =~= y);
    } else {
        assert((x + y).drop_first() =~= x.drop_first() + y);
        lemma_polymod_append(polymod_step(chk, x[0]), x.drop_first(), y);
    }
}

/// One fold step is linear over XOR, in the accumulator and the value
/// jointly.
pub proof fn lemma_step_linear(a: u32, b: u32, v: u8, w: u8)
    by (bit_vector)
    ensures
        polymod_step(a ^ b, v ^ w) == polymod_step(a, v) ^ polymod_step(b, w),
{
}

/// A step keeps the accumulator below 2^30.
pub proof fn lemma_step_bound(chk: u32, v: u8)
    by (bit_vector)
    requires
        chk < 0x4000_0000,
    ensures
        polymod_step(chk, v) < 0x4000_0000,
{
}

/// A step on a zero value maps zero to zero and nothing else to zero.
pub proof fn lemma_step_zero(chk: u32)
    by (bit_vector)
    requires
        chk < 0x4000_0000,
    ensures
        polymod_step(0, 0) == 0,
        chk != 0 ==> polymod_step(chk, 0) != 0,
{
}

/// The whole fold is linear over XOR, pointwise on equal-length sequences.
pub proof fn lemma_polymod_linear(a: u32, b: u32, x: Seq<u8>, y: Seq<u8>)
    requires
        x.len() == y.len(),
    ensures
        polymod_from(a ^ b, xor_seq(x, y)) == polymod_from(a, x) ^ polymod_from(b, y),
    decreases x.len(),
{
    if x.len() == 0 {
    } else {
        lemma_step_linear(a, b, x[0], y[0]);
        assert(xor_seq(x, y).drop_first() =~= xor_seq(x.drop_first(), y.drop_first()));
        lemma_polymod_linear(polymod_step(a, x[0]), polymod_step(b, y[0]), x.drop_first(), y.drop_first());
    }
}

/// Pointwise XOR of two equal-length value sequences.
pub open spec fn xor_seq(x: Seq<u8>, y: Seq<u8>) -> Seq<u8> {
    Seq::new(x.len(), |i: int| x[i] ^ y[i])
}

/// Folding zeros from a zero accumulator stays at zero.
pub proof fn lemma_polymod_zeros(n: nat)
    ensures
        polymod_from(0, zero_seq(n)) == 0,
    decreases n,
{
    if n == 0 {
    } else {
        lemma_step_zero(1);
        assert(zero_seq(n).drop_first() =~= zero_seq((n - 1) as nat));
        lemma_polymod_zeros((n - 1) as nat);
    }
}

/// The fold keeps a below-2^30 accumulator below 2^30.
pub proof fn lemma_polymod_bound(chk: u32, vals: Seq<u8>)
    requires
        chk < 0x4000_0000,
    ensures
        polymod_from(chk, vals) < 0x4000_0000,
    decreases vals.len(),
{
    if vals.len() == 0 {
    } else {
        lemma_step_bound(chk, vals[0]);
        lemma_polymod_bound(polymod_step(chk, vals[0]), vals.drop_first());
    }
}

/// Folding zeros from a nonzero accumulator never reaches zero.
pub proof fn lemma_polymod_zeros_nonzero(chk: u32, n: nat)
    requires
        chk != 0,
        chk < 0x4000_0000,
    ensures
        polymod_from(chk, zero_seq(n)) != 0,
        polymod_from(chk, zero_seq(n)) < 0x4000_0000,
    decreases n,
{
    if n == 0 {
    } else {
        lemma_step_zero(chk);
        lemma_step_bound(chk, 0);
        assert(zero_seq(n).drop_first() =~= zero_seq((n - 1) as nat));
        lemma_polymod_zeros_nonzero(polymod_step(chk, 0), (n - 1) as nat);
    }
}

/// Masked shifted-out bits are bounded by their mask.
proof fn lemma_masked_shift(x: u32, s: u32)
    by (bit_vector)
    ensures
        ((x >> s) & 1) <= 1,
        ((x >> s) & 31) <= 31,
{
}

/// Multiplies a single bit by a generator constant.
fn bit_times(bit: u32, g: u32) -> (r: u32)
    requires
        bit <= 1,
    ensures
        r == (bit * g) as u32,
{
    if bit == 1 {
        g
    } else {
        0
    }
}

/// Folds a value sequence through the checksum polynomial, from the
/// standard starting accumulator.
pub fn polymod_of(vals: &[u8]) -> (r: u32)
    ensures
        r == polymod(vals@),
{
    let n: usize = vals.len();
    let mut chk: u32 = 1;
    for i in 0..n
        invariant
            n == vals@.len(),
            chk == polymod_from(1, vals@.take(i as int)),
    {
        let v: u8 = vals[i];
        proof {
            lemma_masked_shift(chk, 25);
            lemma_masked_shift(chk, 26);
            lemma_masked_shift(chk, 27);
            lemma_masked_shift(chk, 28);
            lemma_masked_shift(chk, 29);
        }
        let t0: u32 = bit_times((chk >> 25) & 1, 0x3b6a_57b2);
        let t1: u32 = bit_times((chk >> 26) & 1, 0x2650_8e6d);
        let t2: u32 = bit_times((chk >> 27) & 1, 0x1ea1_19fa);
        let t3: u32 = bit_times((chk >> 28) & 1, 0x3d42_33dd);
        let t4: u32 = bit_times((chk >> 29) & 1, 0x2a14_62b3);
        let next: u32 = (((chk & 0x1ff_ffff) << 5) ^ (v as u32)) ^ t0 ^ t1 ^ t2 ^ t3 ^ t4;
        proof {
            assert(next == polymod_step(chk, v));
            lemma_polymod_push(1, vals@.take(i as int), v);
            assert(vals@.take(i as int + 1) =~= vals@.take(i as int).push(v));
        }
        chk = next;
    }
    proof {
        assert(vals@.take(n as int) =~= vals@);
    }
    chk
}

/// Writes the six checksum characters' values for a 30-bit accumulator,
/// most significant first.
pub fn split6_of(t: u32) -> (r: Vec<u8>)
    ensures
        r@ == split6(t),
{
    proof {
        lemma_masked_shift(t, 25);
        lemma_masked_shift(t, 20);
        lemma_masked_shift(t, 15);
        lemma_masked_shift(t, 10);
        lemma_masked_shift(t, 5);
        lemma_masked_shift(t, 0);
        assert(t >> 0 == t) by (bit_vector);
    }
    let mut r: Vec<u8> = Vec::new();
    r.push(((t >> 25) & 31) as u8);
    r.push(((t >> 20) & 31) as u8);
    r.push(((t >> 15) & 31) as u8);
    r.push(((t >> 10) & 31) as u8);
    r.push(((t >> 5) & 31) as u8);
    r.push((t & 31) as u8);
    proof {
        assert(r@ =~= split6(t));
    }
    r
}

/// Every value of a six-way split is below 32.
pub proof fn lemma_split6_range(t: u32)
    ensures
        forall|i: int| 0 <= i < 6 ==> split6(t)[i] < 32,
{
    lemma_masked_shift(t, 25);
    lemma_masked_shift(t, 20);
    lemma_masked_shift(t, 15);
    lemma_masked_shift(t, 10);
    lemma_masked_shift(t, 5);
    lemma_masked_shift(t, 0);
    assert(t >> 0 == t) by (bit_vector);
    assert forall|i: int| 0 <= i < 6 implies split6(t)[i] < 32 by {
        assert(split6(t)[0] == ((t >> 25) & 31) as u8);
        assert(split6(t)[1] == ((t >> 20) & 31) as u8);
        assert(split6(t)[2] == ((t >> 15) & 31) as u8);
        assert(split6(t)[3] == ((t >> 10) & 31) as u8);
        assert(split6(t)[4] == ((t >> 5) & 31) as u8);
        assert(split6(t)[5] == (t & 31) as u8);
    }
}

/// Small XOR identities on bytes, used when rewriting value sequences.
pub proof fn lemma_xor_facts()
    by (bit_vector)
    ensures
        forall|a: u8, b: u8| #[trigger] (a ^ (a ^ b)) == b,
        forall|a: u8| #[trigger] (a ^ a) == 0,
        forall|a: u8| #[trigger] (0u8 ^ a) == a,
        forall|a: u8| #[trigger] (a ^ 0u8) == a,
{
}

/// Splitting a 30-bit value into six groups and folding them from a zero
/// accumulator gives the value back.
pub proof fn lemma_split6_fold(t: u32)
    requires
        t < 0x4000_0000,
    ensures
        polymod_from(0, split6(t)) == t,
{
    let c0 = ((t >> 25) & 31) as u8;
    let c1 = ((t >> 20) & 31) as u8;
    let c2 = ((t >> 15) & 31) as u8;
    let c3 = ((t >> 10) & 31) as u8;
    let c4 = ((t >> 5) & 31) as u8;
    let c5 = (t & 31) as u8;
    let s0 = split6(t);
    let s1 = seq![c1, c2, c3, c4, c5];
    let s2 = seq![c2, c3, c4, c5];
    let s3 = seq![c3, c4, c5];
    let s4 = seq![c4, c5];
    let s5 = seq![c5];
    assert(s0.drop_first() =~= s1);
    assert(s1.drop_first() =~= s2);
    assert(s2.drop_first() =~= s3);
    assert(s3.drop_first() =~= s4);
    assert(s4.drop_first() =~= s5);
    assert(s5.drop_first() =~= Seq::<u8>::empty());
    let a1 = polymod_step(0, c0);
    let a2 = polymod_step(a1, c1);
    let a3 = polymod_step(a2, c2);
    let a4 = polymod_step(a3, c3);
    let a5 = polymod_step(a4, c4);
    let a6 = polymod_step(a5, c5);
    assert(s0[0] == c0 && s1[0] == c1 && s2[0] == c2 && s3[0] == c3 && s4[0] == c4 && s5[0] == c5);
    assert(polymod_from(0, s0) == polymod_from(a1, s1));
    assert(polymod_from(a1, s1) == polymod_from(a2, s2));
    assert(polymod_from(a2, s2) == polymod_from(a3, s3));
    assert(polymod_from(a3, s3) == polymod_from(a4, s4));
    assert(polymod_from(a4, s4) == polymod_from(a5, s5));
    assert(polymod_from(a6, Seq::<u8>::empty()) == a6);
    assert(polymod_from(a5, s5) == a6);
    assert(polymod_from(0, s0) == a6);
    assert(a6 == t) by (bit_vector)
        requires
            t < 0x4000_0000,
            c0 == ((t >> 25) & 31) as u8,
            c1 == ((t >> 20) & 31) as u8,
            c2 == ((t >> 15) & 31) as u8,
            c3 == ((t >> 10) & 31) as u8,
            c4 == ((t >> 5) & 31) as u8,
            c5 == (t & 31) as u8,
            a6 == polymod_step(
                polymod_step(
                    polymod_step(
                        polymod_step(polymod_step(polymod_step(0, c0), c1), c2),
                        c3,
                    ),
                    c4,
                ),
                c5,
            ),
    ;
}

/// A freshly computed checksum verifies: appending `spec_checksum` to the
/// payload makes the data part fold to the constant it was built for.
pub proof fn lemma_checksum_verifies(hrp: Seq<u8>, payload: Seq<u8>, konst: u32)
    requires
        konst < 0x4000_0000,
    ensures
        checksum_verifies(hrp, payload + spec_checksum(hrp, payload, konst), konst),
{
    let base = hrp_expand(hrp) + payload;
    let r = polymod_from(1, base);
    lemma_polymod_bound(1, base);
    lemma_polymod_append(1, base, zero_seq(6));
    assert(hrp_expand(hrp) + payload + zero_seq(6) =~= base + zero_seq(6));
    let rz = polymod_from(r, zero_seq(6));
    assert(polymod(hrp_expand(hrp) + payload + zero_seq(6)) == rz);
    lemma_polymod_bound(r, zero_seq(6));
    let t = rz ^ konst;
    assert(t < 0x4000_0000) by (bit_vector)
        requires
            rz < 0x4000_0000,
            konst < 0x4000_0000,
            t == rz ^ konst,
    ;
    let cs = split6(t);
    assert(spec_checksum(hrp, payload, konst) =~= cs);
    assert(hrp_expand(hrp) + (payload + cs) =~= base + cs);
    lemma_polymod_append(1, base, cs);
    lemma_xor_facts();
    assert(r ^ 0 == r) by (bit_vector);
    assert(xor_seq(zero_seq(6), cs) =~= cs);
    lemma_polymod_linear(r, 0, zero_seq(6), cs);
    lemma_split6_fold(t);
    assert(polymod_from(r, cs) == rz ^ t);
    assert(rz ^ (rz ^ konst) == konst) by (bit_vector);
}

/// Changing exactly one value in a sequence changes its polymod: the fold
/// detects every single-symbol error.
pub proof fn lemma_polymod_single_change(x: Seq<u8>, y: Seq<u8>, k: int)
    requires
        x.len() == y.len(),
        0 <= k < x.len(),
        forall|j: int| 0 <= j < x.len() && j != k ==> x[j] == y[j],
        x[k] != y[k],
    ensures
        polymod(x) != polymod(y),
{
    lemma_xor_facts();
    let xv = x[k];
    let yv = y[k];
    let e = xv ^ yv;
    assert(e != 0) by (bit_vector)
        requires
            xv != yv,
            e == xv ^ yv,
    ;
    let d = xor_seq(x, y);
    let tail_len = (x.len() - k - 1) as nat;
    assert(d =~= zero_seq(k as nat) + (seq![e] + zero_seq(tail_len)));
    lemma_polymod_append(0, zero_seq(k as nat), seq![e] + zero_seq(tail_len));
    lemma_polymod_zeros(k as nat);
    lemma_polymod_append(0, seq![e], zero_seq(tail_len));
    assert(seq![e].drop_first() =~= Seq::<u8>::empty());
    assert(seq![e][0] == e);
    assert(polymod_from(0, seq![e]) == polymod_from(polymod_step(0, e), Seq::<u8>::empty()));
    assert(polymod_from(0, seq![e]) == polymod_step(0, e));
    let ev = polymod_step(0, e);
    assert(ev == e as u32 && ev != 0 && ev < 0x4000_0000) by (bit_vector)
        requires
            e != 0,
            ev == polymod_step(0, e),
    ;
    lemma_polymod_zeros_nonzero(ev, tail_len);
    let nz = polymod_from(0, d);
    assert(nz != 0);
    assert(xor_seq(x, d) =~= y);
    assert(1u32 ^ 0 == 1) by (bit_vector);
    lemma_polymod_linear(1, 0, x, d);
    let px = polymod(x);
    let py = polymod(y);
    assert(py == px ^ nz);
    assert(px ^ nz != px) by (bit_vector)
        requires
            nz != 0,
    ;
}

} // verus!
