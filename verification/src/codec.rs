//! The Bech32 / Bech32m codec: between an ASCII string and a
//! (human-readable part, five-bit values, checksum variant) triple.
//! Decoding folds case, finds the last separator, maps characters through
//! the alphabet and verifies the checksum; encoding writes the string the
//! same way and appends a fresh checksum.
use vstd::prelude::*;
use crate::charset::{charset_byte, charset_char, charset_rev, lemma_charset, value_of};
use crate::checksum::{
    checksum_verifies, hrp_expand, lemma_checksum_verifies, lemma_split6_range, polymod, polymod_of,
    spec_checksum, split6, split6_of, zero_seq, BECH32M_CONST, BECH32_CONST,
};

verus! {

/// The separator between the human-readable part and the data part: the
/// ASCII digit `1`, which the alphabet never writes.
pub const SEP: u8 = 49;

/// Which of the two checksum variants a string carries.
#[derive(Clone, Copy, PartialEq, Eq, Structural, Debug)]
pub enum Bech32Variant {
    Bech32,
    Bech32m,
}

/// The checksum constant of a variant.
pub open spec fn variant_const(v: Bech32Variant) -> u32 {
    match v {
        Bech32Variant::Bech32 => BECH32_CONST,
        Bech32Variant::Bech32m => BECH32M_CONST,
    }
}

/// An ASCII uppercase letter.
pub open spec fn is_upper(b: u8) -> bool {
    65 <= b <= 90
}

/// An ASCII lowercase letter.
pub open spec fn is_lower(b: u8) -> bool {
    97 <= b <= 122
}

/// The string holds at least one uppercase letter.
pub open spec fn has_upper(s: Seq<u8>) -> bool {
    exists|i: int| 0 <= i < s.len() && is_upper(s[i])
}

/// The string holds at least one lowercase letter.
pub open spec fn has_lower(s: Seq<u8>) -> bool {
    exists|i: int| 0 <= i < s.len() && is_lower(s[i])
}

/// The string mixes letter cases, which decoding rejects.
pub open spec fn mixed_case(s: Seq<u8>) -> bool {
    has_upper(s) && has_lower(s)
}

/// One byte folded to lowercase.
pub open spec fn to_lower_byte(b: u8) -> u8 {
    if is_upper(b) {
        (b + 32) as u8
    } else {
        b
    }
}

/// The whole string folded to lowercase.
pub open spec fn lower_seq(s: Seq<u8>) -> Seq<u8> {
    s.map_values(|b: u8| to_lower_byte(b))
}

/// The position of the last separator byte, or -1 where there is none.
pub open spec fn last_sep_pos(s: Seq<u8>) -> int
    decreases s.len(),
{
    if s.len() == 0 {
        -1
    } else if s[s.len() - 1] == SEP {
        s.len() - 1
    } else {
        last_sep_pos(s.drop_last())
    }
}

/// Where the separator stands in the lowercase form of `s`.
pub open spec fn codec_sep(s: Seq<u8>) -> int {
    last_sep_pos(lower_seq(s))
}

/// The human-readable part of `s`, folded to lowercase.
pub open spec fn codec_hrp(s: Seq<u8>) -> Seq<u8> {
    lower_seq(s).take(codec_sep(s))
}

/// The five-bit values of the whole data part of `s`, checksum included.
pub open spec fn codec_vals(s: Seq<u8>) -> Seq<u8> {
    Seq::new(
        (s.len() - codec_sep(s) - 1) as nat,
        |i: int| value_of(lower_seq(s)[codec_sep(s) + 1 + i]) as u8,
    )
}

/// The five-bit values of the data part with the six checksum values
/// removed.
pub open spec fn codec_payload(s: Seq<u8>) -> Seq<u8> {
    codec_vals(s).take(codec_vals(s).len() - 6)
}

/// A decodable string: sound length, no mixed case, a separator with a
/// nonempty human-readable part in printable ASCII, every data character
/// in the alphabet, and a checksum folding to one of the two constants.
pub open spec fn codec_ok(s: Seq<u8>) -> bool {
    let l = lower_seq(s);
    let p = last_sep_pos(l);
    &&& 8 <= s.len() <= 90
    &&& !mixed_case(s)
    &&& 1 <= p
    &&& p + 7 <= s.len()
    &&& forall|i: int| 0 <= i < p ==> 33 <= #[trigger] l[i] <= 126
    &&& forall|i: int| p < i < s.len() ==> value_of(#[trigger] l[i]) >= 0
    &&& (checksum_verifies(codec_hrp(s), codec_vals(s), BECH32_CONST) || checksum_verifies(
        codec_hrp(s),
        codec_vals(s),
        BECH32M_CONST,
    ))
}

/// Which variant a decodable string carries.
pub open spec fn codec_variant(s: Seq<u8>) -> Bech32Variant {
    if checksum_verifies(codec_hrp(s), codec_vals(s), BECH32_CONST) {
        Bech32Variant::Bech32
    } else {
        Bech32Variant::Bech32m
    }
}

/// What decoding returns: the lowercase human-readable part, the payload
/// values, and the checksum variant the string verified under.
pub struct Decoded {
    pub hrp: Vec<u8>,
    pub payload: Vec<u8>,
    pub variant: Bech32Variant,
}

/// A separator at `p` with none after it is the last one.
pub proof fn lemma_last_sep_found(l: Seq<u8>, p: int)
    requires
        0 <= p < l.len(),
        l[p] == SEP,
        forall|j: int| p < j < l.len() ==> l[j] != SEP,
    ensures
        last_sep_pos(l) == p,
    decreases l.len(),
{
    if p == l.len() - 1 {
    } else {
        lemma_last_sep_found(l.drop_last(), p);
    }
}

/// With no separator byte at all, the position is -1.
proof fn lemma_last_sep_none(l: Seq<u8>)
    requires
        forall|j: int| 0 <= j < l.len() ==> l[j] != SEP,
    ensures
        last_sep_pos(l) == -1,
    decreases l.len(),
{
    if l.len() > 0 {
        lemma_last_sep_none(l.drop_last());
    }
}

/// What a nonnegative last-separator position means: a separator stands
/// there and none after it.
pub proof fn lemma_last_sep_props(l: Seq<u8>)
    ensures
        last_sep_pos(l) >= -1,
        last_sep_pos(l) >= 0 ==> last_sep_pos(l) < l.len() && l[last_sep_pos(l)] == SEP,
        last_sep_pos(l) >= 0 ==> forall|j: int| last_sep_pos(l) < j < l.len() ==> l[j] != SEP,
    decreases l.len(),
{
    if l.len() == 0 {
    } else if l[l.len() - 1] == SEP {
    } else {
        lemma_last_sep_props(l.drop_last());
        assert forall|j: int| last_sep_pos(l) < j < l.len() && last_sep_pos(l) >= 0 implies l[j]
            != SEP by {
            if j < l.len() - 1 {
                assert(l.drop_last()[j] == l[j]);
            }
        }
    }
}

/// Decodes an ASCII byte string; `None` exactly where `codec_ok` refuses
/// it.
pub fn decode(s: &[u8]) -> (r: Option<Decoded>)
    ensures
        r is Some <==> codec_ok(s@),
        match r {
            Some(d) => {
                &&& d.hrp@ == codec_hrp(s@)
                &&& d.payload@ == codec_payload(s@)
                &&& d.variant == codec_variant(s@)
                &&& forall|i: int| 0 <= i < d.payload@.len() ==> d.payload@[i] < 32
            },
            None => true,
        },
{
    let n: usize = s.len();
    if n < 8 || n > 90 {
        return None;
    }
    let mut hasu = false;
    let mut hasl = false;
    for i in 0..n
        invariant
            n == s@.len(),
            hasu <==> exists|j: int| 0 <= j < i && #[trigger] is_upper(s@[j]),
            hasl <==> exists|j: int| 0 <= j < i && #[trigger] is_lower(s@[j]),
    {
        let b: u8 = s[i];
        if 65 <= b && b <= 90 {
            hasu = true;
            proof {
                assert(is_upper(s@[i as int]));
            }
        }
        if 97 <= b && b <= 122 {
            hasl = true;
            proof {
                assert(is_lower(s@[i as int]));
            }
        }
    }
    proof {
        assert(hasu <==> has_upper(s@));
        assert(hasl <==> has_lower(s@));
    }
    if hasu && hasl {
        return None;
    }
    let mut l: Vec<u8> = Vec::new();
    for i in 0..n
        invariant
            n == s@.len(),
            l@.len() == i,
            forall|j: int| 0 <= j < i ==> l@[j] == to_lower_byte(s@[j]),
    {
        let b: u8 = s[i];
        if 65 <= b && b <= 90 {
            l.push(b + 32);
        } else {
            l.push(b);
        }
    }
    proof {
        assert(l@ =~= lower_seq(s@));
    }
    let mut sep: usize = 0;
    let mut found = false;
    for i in 0..n
        invariant
            n == s@.len(),
            l@ == lower_seq(s@),
            l@.len() == n,
            found ==> sep < i && l@[sep as int] == SEP && forall|j: int|
                sep < j < i ==> l@[j] != SEP,
            !found ==> forall|j: int| 0 <= j < i ==> l@[j] != SEP,
    {
        if l[i] == SEP {
            sep = i;
            found = true;
        }
    }
    if !found {
        proof {
            lemma_last_sep_none(l@);
        }
        return None;
    }
    let p: usize = sep;
    proof {
        lemma_last_sep_found(l@, p as int);
    }
    if p < 1 {
        return None;
    }
    if n - (p + 1) < 6 {
        return None;
    }
    let mut hrp: Vec<u8> = Vec::new();
    for i in 0..p
        invariant
            n == s@.len(),
            l@ == lower_seq(s@),
            l@.len() == n,
            p as int == last_sep_pos(l@),
            p < n,
            hrp@.len() == i,
            forall|j: int| 0 <= j < i ==> hrp@[j] == l@[j] && 33 <= l@[j] <= 126,
    {
        let b: u8 = l[i];
        if b < 33 || b > 126 {
            return None;
        }
        hrp.push(b);
    }
    proof {
        assert(hrp@ =~= codec_hrp(s@));
    }
    let mut vals: Vec<u8> = Vec::new();
    let mut i: usize = p + 1;
    while i < n
        invariant
            n == s@.len(),
            l@ == lower_seq(s@),
            l@.len() == n,
            p as int == last_sep_pos(l@),
            p + 1 <= i <= n,
            vals@.len() == i - (p + 1),
            forall|j: int|
                0 <= j < vals@.len() ==> vals@[j] == value_of(l@[p + 1 + j]) as u8 && vals@[j] < 32
                    && value_of(l@[p + 1 + j]) >= 0,
        decreases n - i,
    {
        match charset_rev(l[i]) {
            Some(v) => {
                vals.push(v);
            },
            None => {
                return None;
            },
        }
        i = i + 1;
    }
    proof {
        assert(vals@ =~= codec_vals(s@));
    }
    let mut stream: Vec<u8> = Vec::new();
    for i in 0..p
        invariant
            p <= hrp@.len(),
            hrp@.len() == p,
            stream@.len() == i,
            forall|j: int| 0 <= j < i ==> stream@[j] == hrp@[j] >> 5,
    {
        stream.push(hrp[i] >> 5);
    }
    stream.push(0);
    let mut i2: usize = 0;
    while i2 < p
        invariant
            hrp@.len() == p,
            0 <= i2 <= p,
            stream@.len() == p + 1 + i2,
            forall|j: int| 0 <= j < p ==> stream@[j] == hrp@[j] >> 5,
            stream@[p as int] == 0,
            forall|j: int| 0 <= j < i2 ==> stream@[p + 1 + j] == (hrp@[j] & 31),
        decreases p - i2,
    {
        stream.push(hrp[i2] & 31);
        i2 = i2 + 1;
    }
    let mut i3: usize = 0;
    let vn: usize = vals.len();
    while i3 < vn
        invariant
            hrp@.len() == p,
            vn == vals@.len(),
            0 <= i3 <= vn,
            stream@.len() == 2 * p + 1 + i3,
            forall|j: int| 0 <= j < p ==> stream@[j] == hrp@[j] >> 5,
            stream@[p as int] == 0,
            forall|j: int| 0 <= j < p ==> stream@[p + 1 + j] == (hrp@[j] & 31),
            forall|j: int| 0 <= j < i3 ==> stream@[2 * p + 1 + j] == vals@[j],
        decreases vn - i3,
    {
        stream.push(vals[i3]);
        i3 = i3 + 1;
    }
    proof {
        assert(stream@ =~= hrp_expand(hrp@) + vals@);
    }
    let pm: u32 = polymod_of(stream.as_slice());
    let variant: Bech32Variant;
    if pm == BECH32_CONST {
        variant = Bech32Variant::Bech32;
    } else if pm == BECH32M_CONST {
        variant = Bech32Variant::Bech32m;
    } else {
        return None;
    }
    let mut payload: Vec<u8> = Vec::new();
    let pn: usize = vals.len() - 6;
    for i in 0..pn
        invariant
            pn == vals@.len() - 6,
            payload@.len() == i,
            forall|j: int| 0 <= j < i ==> payload@[j] == vals@[j],
    {
        payload.push(vals[i]);
    }
    proof {
        assert(payload@ =~= codec_payload(s@));
        assert forall|i9: int| 0 <= i9 < p implies 33 <= #[trigger] lower_seq(s@)[i9] <= 126 by {
            assert(hrp@[i9] == l@[i9]);
        }
        assert forall|i9: int| (p as int) < i9 < n implies value_of(
            #[trigger] lower_seq(s@)[i9],
        ) >= 0 by {
            assert(vals@[i9 - (p + 1)] == value_of(l@[p + 1 + (i9 - (p + 1))]) as u8);
            assert(value_of(l@[p + 1 + (i9 - (p + 1))]) >= 0);
            assert(p + 1 + (i9 - (p + 1)) == i9);
        }
        assert(codec_ok(s@));
    }
    Some(Decoded { hrp, payload, variant })
}

/// What encoding writes: the human-readable part, the separator, then the
/// payload and a fresh checksum mapped through the alphabet.
pub open spec fn spec_encode(hrp: Seq<u8>, payload: Seq<u8>, variant: Bech32Variant) -> Seq<u8> {
    hrp + seq![SEP] + (payload + spec_checksum(hrp, payload, variant_const(variant))).map_values(
        |v: u8| charset_byte(v as int),
    )
}

/// Encodes a payload under a lowercase human-readable part.
pub fn encode(hrp: &[u8], payload: &[u8], variant: Bech32Variant) -> (r: Vec<u8>)
    requires
        1 <= hrp@.len(),
        hrp@.len() + payload@.len() + 7 <= 90,
        forall|i: int| 0 <= i < hrp@.len() ==> 33 <= hrp@[i] <= 126 && !is_upper(hrp@[i]),
        forall|i: int| 0 <= i < payload@.len() ==> payload@[i] < 32,
    ensures
        r@ == spec_encode(hrp@, payload@, variant),
{
    let hn: usize = hrp.len();
    let dn: usize = payload.len();
    let mut stream: Vec<u8> = Vec::new();
    for i in 0..hn
        invariant
            hn == hrp@.len(),
            stream@.len() == i,
            forall|j: int| 0 <= j < i ==> stream@[j] == hrp@[j] >> 5,
    {
        stream.push(hrp[i] >> 5);
    }
    stream.push(0);
    let mut i2: usize = 0;
    while i2 < hn
        invariant
            hn == hrp@.len(),
            0 <= i2 <= hn,
            stream@.len() == hn + 1 + i2,
            forall|j: int| 0 <= j < hn ==> stream@[j] == hrp@[j] >> 5,
            stream@[hn as int] == 0,
            forall|j: int| 0 <= j < i2 ==> stream@[hn + 1 + j] == (hrp@[j] & 31),
        decreases hn - i2,
    {
        stream.push(hrp[i2] & 31);
        i2 = i2 + 1;
    }
    let mut i3: usize = 0;
    while i3 < dn
        invariant
            hn == hrp@.len(),
            dn == payload@.len(),
            0 <= i3 <= dn,
            stream@.len() == 2 * hn + 1 + i3,
            forall|j: int| 0 <= j < hn ==> stream@[j] == hrp@[j] >> 5,
            stream@[hn as int] == 0,
            forall|j: int| 0 <= j < hn ==> stream@[hn + 1 + j] == (hrp@[j] & 31),
            forall|j: int| 0 <= j < i3 ==> stream@[2 * hn + 1 + j] == payload@[j],
        decreases dn - i3,
    {
        stream.push(payload[i3]);
        i3 = i3 + 1;
    }
    let mut i4: usize = 0;
    while i4 < 6
        invariant
            hn == hrp@.len(),
            dn == payload@.len(),
            0 <= i4 <= 6,
            stream@.len() == 2 * hn + 1 + dn + i4,
            forall|j: int| 0 <= j < hn ==> stream@[j] == hrp@[j] >> 5,
            stream@[hn as int] == 0,
            forall|j: int| 0 <= j < hn ==> stream@[hn + 1 + j] == (hrp@[j] & 31),
            forall|j: int| 0 <= j < dn ==> stream@[2 * hn + 1 + j] == payload@[j],
            forall|j: int| 0 <= j < i4 ==> #[trigger] stream@[2 * hn + 1 + dn + j] == 0,
        decreases 6 - i4,
    {
        stream.push(0);
        i4 = i4 + 1;
    }
    proof {
        let exp = hrp_expand(hrp@);
        let rhs = exp + payload@ + zero_seq(6);
        assert(exp.len() == 2 * hn + 1);
        assert forall|j: int| 0 <= j < stream@.len() implies stream@[j] == rhs[j] by {
            if j < hn {
                assert(stream@[j] == hrp@[j] >> 5);
            } else if j == hn {
            } else if j < 2 * hn + 1 {
                let jj = j - (hn + 1);
                assert(stream@[hn + 1 + jj] == (hrp@[jj] & 31));
            } else if j < 2 * hn + 1 + dn {
                let jj = j - (2 * hn + 1);
                assert(stream@[2 * hn + 1 + jj] == payload@[jj]);
            } else {
                let jj = j - (2 * hn + 1 + dn);
                assert(stream@[2 * hn + 1 + dn + jj] == 0);
            }
        }
        assert(stream@ =~= rhs);
    }
    let konst: u32 = match variant {
        Bech32Variant::Bech32 => BECH32_CONST,
        Bech32Variant::Bech32m => BECH32M_CONST,
    };
    let pm: u32 = polymod_of(stream.as_slice()) ^ konst;
    let cs: Vec<u8> = split6_of(pm);
    proof {
        assert(cs@ == spec_checksum(hrp@, payload@, variant_const(variant)));
        lemma_split6_range(pm);
    }
    let mut out: Vec<u8> = Vec::new();
    for i in 0..hn
        invariant
            hn == hrp@.len(),
            out@.len() == i,
            forall|j: int| 0 <= j < i ==> out@[j] == hrp@[j],
    {
        out.push(hrp[i]);
    }
    out.push(SEP);
    let mut i5: usize = 0;
    while i5 < dn
        invariant
            hn == hrp@.len(),
            dn == payload@.len(),
            forall|j: int| 0 <= j < payload@.len() ==> payload@[j] < 32,
            0 <= i5 <= dn,
            out@.len() == hn + 1 + i5,
            forall|j: int| 0 <= j < hn ==> out@[j] == hrp@[j],
            out@[hn as int] == SEP,
            forall|j: int| 0 <= j < i5 ==> out@[hn + 1 + j] == charset_byte(payload@[j] as int),
        decreases dn - i5,
    {
        out.push(charset_char(payload[i5]));
        i5 = i5 + 1;
    }
    let mut i6: usize = 0;
    while i6 < 6
        invariant
            hn == hrp@.len(),
            dn == payload@.len(),
            cs@ == spec_checksum(hrp@, payload@, variant_const(variant)),
            cs@.len() == 6,
            forall|j: int| 0 <= j < 6 ==> cs@[j] < 32,
            0 <= i6 <= 6,
            out@.len() == hn + 1 + dn + i6,
            forall|j: int| 0 <= j < hn ==> out@[j] == hrp@[j],
            out@[hn as int] == SEP,
            forall|j: int| 0 <= j < dn ==> out@[hn + 1 + j] == charset_byte(payload@[j] as int),
            forall|j: int| 0 <= j < i6 ==> out@[hn + 1 + dn + j] == charset_byte(cs@[j] as int),
        decreases 6 - i6,
    {
        out.push(charset_char(cs[i6]));
        i6 = i6 + 1;
    }
    proof {
        assert(out@ =~= spec_encode(hrp@, payload@, variant));
    }
    out
}

/// An encoded string is plain ASCII whenever its human-readable part is:
/// the separator and every alphabet character sit below 128.
pub proof fn lemma_encode_ascii(hrp: Seq<u8>, payload: Seq<u8>, variant: Bech32Variant)
    requires
        forall|i: int| 0 <= i < hrp.len() ==> hrp[i] < 128,
    ensures
        forall|j: int|
            0 <= j < spec_encode(hrp, payload, variant).len() ==> spec_encode(
                hrp,
                payload,
                variant,
            )[j] < 128,
{
    let e = spec_encode(hrp, payload, variant);
    let dvals = payload + spec_checksum(hrp, payload, variant_const(variant));
    let hn = hrp.len() as int;
    assert forall|j: int| 0 <= j < e.len() implies #[trigger] e[j] < 128 by {
        if j < hn {
            assert(e[j] == hrp[j]);
        } else if j == hn {
            assert(e[j] == SEP);
        } else {
            assert(e[j] == (dvals.map_values(|v: u8| charset_byte(v as int)))[j - (hn + 1)]);
            lemma_charset(dvals[j - (hn + 1)] as int, 0);
        }
    }
}

/// What encoding writes always decodes, and decodes to what was encoded:
/// the codec's round trip, for any lowercase human-readable part and any
/// payload of five-bit values that fit one string.
pub proof fn lemma_encode_decodes(hrp: Seq<u8>, payload: Seq<u8>, variant: Bech32Variant)
    requires
        1 <= hrp.len(),
        hrp.len() + payload.len() + 7 <= 90,
        forall|i: int| 0 <= i < hrp.len() ==> 33 <= #[trigger] hrp[i] <= 126 && !is_upper(hrp[i]),
        forall|i: int| 0 <= i < payload.len() ==> payload[i] < 32,
    ensures
        codec_ok(spec_encode(hrp, payload, variant)),
        codec_hrp(spec_encode(hrp, payload, variant)) == hrp,
        codec_payload(spec_encode(hrp, payload, variant)) == payload,
        codec_variant(spec_encode(hrp, payload, variant)) == variant,
{
    let konst = variant_const(variant);
    let t = polymod(hrp_expand(hrp) + payload + zero_seq(6)) ^ konst;
    let cs = spec_checksum(hrp, payload, konst);
    let dvals = payload + cs;
    let e = spec_encode(hrp, payload, variant);
    let hn = hrp.len() as int;
    assert(cs == split6(t));
    lemma_split6_range(t);
    assert forall|i: int| 0 <= i < dvals.len() implies dvals[i] < 32 by {
        if i < payload.len() {
            assert(dvals[i] == payload[i]);
        } else {
            assert(dvals[i] == cs[i - payload.len()]);
        }
    }
    assert(e.len() == hn + 1 + dvals.len());
    assert forall|j: int| 0 <= j < e.len() implies {
        &&& j < hn ==> e[j] == hrp[j]
        &&& j == hn ==> e[j] == SEP
        &&& j > hn ==> e[j] == charset_byte(dvals[j - (hn + 1)] as int)
    } by {
        if j < hn {
            assert(e[j] == hrp[j]);
        } else if j == hn {
            assert(e[j] == SEP);
        } else {
            assert(e[j] == (dvals.map_values(|v: u8| charset_byte(v as int)))[j - (hn + 1)]);
        }
    }
    assert forall|j: int| 0 <= j < e.len() implies !is_upper(#[trigger] e[j]) && (j != hn ==> 33
        <= e[j] <= 126) by {
        if j < hn {
        } else if j == hn {
        } else {
            lemma_charset(dvals[j - (hn + 1)] as int, 0);
        }
    }
    assert(lower_seq(e) =~= e);
    assert forall|j: int| hn < j < e.len() implies #[trigger] e[j] != SEP by {
        lemma_charset(dvals[j - (hn + 1)] as int, 0);
    }
    lemma_last_sep_found(e, hn);
    assert(codec_sep(e) == hn);
    assert(codec_hrp(e) =~= hrp);
    assert forall|i: int| 0 <= i < dvals.len() implies value_of(#[trigger] e[hn + 1 + i])
        == dvals[i] as int by {
        lemma_charset(dvals[i] as int, 0);
    }
    assert(codec_vals(e) =~= dvals);
    lemma_checksum_verifies(hrp, payload, konst);
    assert(checksum_verifies(codec_hrp(e), codec_vals(e), konst));
    assert(!has_upper(e)) by {
        if has_upper(e) {
            let j = choose|j: int| 0 <= j < e.len() && is_upper(e[j]);
            assert(!is_upper(e[j]));
        }
    }
    assert forall|i: int| 0 <= i < hn implies 33 <= #[trigger] lower_seq(e)[i] <= 126 by {
        assert(lower_seq(e)[i] == e[i]);
    }
    assert forall|i: int| hn < i < e.len() implies value_of(#[trigger] lower_seq(e)[i]) >= 0 by {
        assert(lower_seq(e)[i] == e[i]);
        lemma_charset(dvals[i - (hn + 1)] as int, 0);
    }
    assert(codec_ok(e));
    assert(codec_variant(e) == variant);
    assert(codec_payload(e) =~= payload);
}

} // verus!
