//! The 32-character Bech32 alphabet, as a pair of byte-level maps: value to
//! ASCII character, and ASCII character back to value.
use vstd::prelude::*;

verus! {

/// The ASCII byte that writes the five-bit value `v`, following the fixed
/// Bech32 alphabet `qpzry9x8gf2tvdw0s3jn54khce6mua7l`.
pub open spec fn charset_byte(v: int) -> u8 {
    if v == 0 {
        113
    } else if v == 1 {
        112
    } else if v == 2 {
        122
    } else if v == 3 {
        114
    } else if v == 4 {
        121
    } else if v == 5 {
        57
    } else if v == 6 {
        120
    } else if v == 7 {
        56
    } else if v == 8 {
        103
    } else if v == 9 {
        102
    } else if v == 10 {
        50
    } else if v == 11 {
        116
    } else if v == 12 {
        118
    } else if v == 13 {
        100
    } else if v == 14 {
        119
    } else if v == 15 {
        48
    } else if v == 16 {
        115
    } else if v == 17 {
        51
    } else if v == 18 {
        106
    } else if v == 19 {
        110
    } else if v == 20 {
        53
    } else if v == 21 {
        52
    } else if v == 22 {
        107
    } else if v == 23 {
        104
    } else if v == 24 {
        99
    } else if v == 25 {
        101
    } else if v == 26 {
        54
    } else if v == 27 {
        109
    } else if v == 28 {
        117
    } else if v == 29 {
        97
    } else if v == 30 {
        55
    } else {
        108
    }
}

/// The five-bit value of the ASCII byte `b`, or -1 where `b` is no
/// character of the alphabet.
pub open spec fn value_of(b: u8) -> int {
    if b == 113 {
        0
    } else if b == 112 {
        1
    } else if b == 122 {
        2
    } else if b == 114 {
        3
    } else if b == 121 {
        4
    } else if b == 57 {
        5
    } else if b == 120 {
        6
    } else if b == 56 {
        7
    } else if b == 103 {
        8
    } else if b == 102 {
        9
    } else if b == 50 {
        10
    } else if b == 116 {
        11
    } else if b == 118 {
        12
    } else if b == 100 {
        13
    } else if b == 119 {
        14
    } else if b == 48 {
        15
    } else if b == 115 {
        16
    } else if b == 51 {
        17
    } else if b == 106 {
        18
    } else if b == 110 {
        19
    } else if b == 53 {
        20
    } else if b == 52 {
        21
    } else if b == 107 {
        22
    } else if b == 104 {
        23
    } else if b == 99 {
        24
    } else if b == 101 {
        25
    } else if b == 54 {
        26
    } else if b == 109 {
        27
    } else if b == 117 {
        28
    } else if b == 97 {
        29
    } else if b == 55 {
        30
    } else if b == 108 {
        31
    } else {
        -1
    }
}

/// The two maps invert each other; alphabet characters are lowercase
/// letters and digits, never uppercase and never the separator `1`.
pub proof fn lemma_charset(v: int, b: u8)
    ensures
        48 <= charset_byte(v) <= 122,
        0 <= v < 32 ==> value_of(charset_byte(v)) == v,
        0 <= v < 32 ==> 48 <= charset_byte(v) <= 122,
        0 <= v < 32 ==> !(65 <= charset_byte(v) <= 90),
        0 <= v < 32 ==> charset_byte(v) != 49,
        value_of(b) >= 0 ==> 0 <= value_of(b) < 32 && charset_byte(value_of(b)) == b,
        value_of(b) >= 0 ==> !(65 <= b <= 90) && b != 49 && 48 <= b <= 122,
{
}

/// Writes the five-bit value `v` as its alphabet character.
pub fn charset_char(v: u8) -> (r: u8)
    requires
        v < 32,
    ensures
        r == charset_byte(v as int),
{
    match v {
        0 => 113,
        1 => 112,
        2 => 122,
        3 => 114,
        4 => 121,
        5 => 57,
        6 => 120,
        7 => 56,
        8 => 103,
        9 => 102,
        10 => 50,
        11 => 116,
        12 => 118,
        13 => 100,
        14 => 119,
        15 => 48,
        16 => 115,
        17 => 51,
        18 => 106,
        19 => 110,
        20 => 53,
        21 => 52,
        22 => 107,
        23 => 104,
        24 => 99,
        25 => 101,
        26 => 54,
        27 => 109,
        28 => 117,
        29 => 97,
        30 => 55,
        _ => 108,
    }
}

/// Reads one ASCII byte back to its five-bit value, or `None` where the
/// byte is no character of the alphabet.
pub fn charset_rev(b: u8) -> (r: Option<u8>)
    ensures
        match r {
            Some(v) => v < 32 && value_of(b) == v as int,
            None => value_of(b) < 0,
        },
{
    match b {
        113 => Some(0),
        112 => Some(1),
        122 => Some(2),
        114 => Some(3),
        121 => Some(4),
        57 => Some(5),
        120 => Some(6),
        56 => Some(7),
        103 => Some(8),
        102 => Some(9),
        50 => Some(10),
        116 => Some(11),
        118 => Some(12),
        100 => Some(13),
        119 => Some(14),
        48 => Some(15),
        115 => Some(16),
        51 => Some(17),
        106 => Some(18),
        110 => Some(19),
        53 => Some(20),
        52 => Some(21),
        107 => Some(22),
        104 => Some(23),
        99 => Some(24),
        101 => Some(25),
        54 => Some(26),
        109 => Some(27),
        117 => Some(28),
        97 => Some(29),
        55 => Some(30),
        108 => Some(31),
        _ => None,
    }
}

} // verus!
