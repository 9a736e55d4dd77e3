//! Canonical egress regions and application region sets.

use vstd::prelude::*;

use crate::outside::push_char;
use crate::text::{
    chars_of, chars_less, lemma_lex_asymmetric, lemma_lex_irreflexive, lemma_lex_total,
    lemma_lex_transitive, lex_less, same_text,
};

verus! {

broadcast use vstd::seq_lib::lemma_seq_contains_after_push;

/// Whether the two letters `a b` form an ISO 3166-1 alpha-2 code of the registry.
pub open spec fn is_iso_code(a: char, b: char) -> bool {
    match a {
        'a' => b == 'd' || b == 'e' || b == 'f' || b == 'g' || b == 'i' || b == 'l' || b == 'm' || b == 'o' || b == 'q' || b == 'r' || b == 's' || b == 't' || b == 'u' || b == 'w' || b == 'x' || b == 'z',
        'b' => b == 'a' || b == 'b' || b == 'd' || b == 'e' || b == 'f' || b == 'g' || b == 'h' || b == 'i' || b == 'j' || b == 'l' || b == 'm' || b == 'n' || b == 'o' || b == 'q' || b == 'r' || b == 's' || b == 't' || b == 'v' || b == 'w' || b == 'y' || b == 'z',
        'c' => b == 'a' || b == 'c' || b == 'd' || b == 'f' || b == 'g' || b == 'h' || b == 'i' || b == 'k' || b == 'l' || b == 'm' || b == 'o' || b == 'r' || b == 'u' || b == 'v' || b == 'w' || b == 'x' || b == 'y' || b == 'z',
        'd' => b == 'e' || b == 'j' || b == 'k' || b == 'm' || b == 'o' || b == 'z',
        'e' => b == 'c' || b == 'e' || b == 'g' || b == 'h' || b == 'r' || b == 's' || b == 't',
        'f' => b == 'i' || b == 'j' || b == 'k' || b == 'm' || b == 'o' || b == 'r',
        'g' => b == 'a' || b == 'b' || b == 'd' || b == 'e' || b == 'f' || b == 'g' || b == 'h' || b == 'i' || b == 'l' || b == 'm' || b == 'n' || b == 'p' || b == 'q' || b == 'r' || b == 's' || b == 't' || b == 'u' || b == 'w' || b == 'y',
        'h' => b == 'k' || b == 'm' || b == 'n' || b == 'r' || b == 't' || b == 'u',
        'i' => b == 'd' || b == 'e' || b == 'l' || b == 'm' || b == 'n' || b == 'o' || b == 'q' || b == 'r' || b == 's' || b == 't',
        'j' => b == 'e' || b == 'm' || b == 'o' || b == 'p',
        'k' => b == 'e' || b == 'g' || b == 'h' || b == 'i' || b == 'm' || b == 'n' || b == 'p' || b == 'r' || b == 'w' || b == 'y' || b == 'z',
        'l' => b == 'a' || b == 'b' || b == 'c' || b == 'i' || b == 'k' || b == 'r' || b == 's' || b == 't' || b == 'u' || b == 'v' || b == 'y',
        'm' => b == 'a' || b == 'c' || b == 'd' || b == 'e' || b == 'f' || b == 'g' || b == 'h' || b == 'k' || b == 'l' || b == 'm' || b == 'n' || b == 'o' || b == 'p' || b == 'q' || b == 'r' || b == 's' || b == 't' || b == 'u' || b == 'v' || b == 'w' || b == 'x' || b == 'y' || b == 'z',
        'n' => b == 'a' || b == 'c' || b == 'e' || b == 'f' || b == 'g' || b == 'i' || b == 'l' || b == 'o' || b == 'p' || b == 'r' || b == 'u' || b == 'z',
        'o' => b == 'm',
        'p' => b == 'a' || b == 'e' || b == 'f' || b == 'g' || b == 'h' || b == 'k' || b == 'l' || b == 'm' || b == 'n' || b == 'r' || b == 's' || b == 't' || b == 'w' || b == 'y',
        'q' => b == 'a',
        'r' => b == 'e' || b == 'o' || b == 's' || b == 'u' || b == 'w',
        's' => b == 'a' || b == 'b' || b == 'c' || b == 'd' || b == 'e' || b == 'g' || b == 'h' || b == 'i' || b == 'j' || b == 'k' || b == 'l' || b == 'm' || b == 'n' || b == 'o' || b == 'r' || b == 's' || b == 't' || b == 'v' || b == 'x' || b == 'y' || b == 'z',
        't' => b == 'c' || b == 'd' || b == 'f' || b == 'g' || b == 'h' || b == 'j' || b == 'k' || b == 'l' || b == 'm' || b == 'n' || b == 'o' || b == 'r' || b == 't' || b == 'v' || b == 'w' || b == 'z',
        'u' => b == 'a' || b == 'g' || b == 'm' || b == 's' || b == 'y' || b == 'z',
        'v' => b == 'a' || b == 'c' || b == 'e' || b == 'g' || b == 'i' || b == 'n' || b == 'u',
        'w' => b == 'f' || b == 's',
        'y' => b == 'e' || b == 't',
        'z' => b == 'a' || b == 'm' || b == 'w',
        _ => false,
    }
}

/// The one region identifier of the registry that is not a two-letter code.
pub open spec fn cn_mainland() -> Seq<char> {
    seq!['c', 'n', '-', 'm', 'a', 'i', 'n', 'l', 'a', 'n', 'd']
}

/// Membership in the canonical region registry: `cn-mainland` and lowercase ISO 3166-1
/// alpha-2 codes (`cn` itself is not one of them).
pub open spec fn is_canonical_region(s: Seq<char>) -> bool {
    s == cn_mainland() || (s.len() == 2 && is_iso_code(s[0], s[1]))
}

/// The two-letter codes of the canonical region registry, by position in the registry's
/// order; with `cn-mainland` between `cm` (46) and `co` (47) they are its 249 identifiers.
pub open spec fn registry_code(i: u8) -> (char, char) {
    match i {
        0 => ('a', 'd'),
        1 => ('a', 'e'),
        2 => ('a', 'f'),
        3 => ('a', 'g'),
        4 => ('a', 'i'),
        5 => ('a', 'l'),
        6 => ('a', 'm'),
        7 => ('a', 'o'),
        8 => ('a', 'q'),
        9 => ('a', 'r'),
        10 => ('a', 's'),
        11 => ('a', 't'),
        12 => ('a', 'u'),
        13 => ('a', 'w'),
        14 => ('a', 'x'),
        15 => ('a', 'z'),
        16 => ('b', 'a'),
        17 => ('b', 'b'),
        18 => ('b', 'd'),
        19 => ('b', 'e'),
        20 => ('b', 'f'),
        21 => ('b', 'g'),
        22 => ('b', 'h'),
        23 => ('b', 'i'),
        24 => ('b', 'j'),
        25 => ('b', 'l'),
        26 => ('b', 'm'),
        27 => ('b', 'n'),
        28 => ('b', 'o'),
        29 => ('b', 'q'),
        30 => ('b', 'r'),
        31 => ('b', 's'),
        32 => ('b', 't'),
        33 => ('b', 'v'),
        34 => ('b', 'w'),
        35 => ('b', 'y'),
        36 => ('b', 'z'),
        37 => ('c', 'a'),
        38 => ('c', 'c'),
        39 => ('c', 'd'),
        40 => ('c', 'f'),
        41 => ('c', 'g'),
        42 => ('c', 'h'),
        43 => ('c', 'i'),
        44 => ('c', 'k'),
        45 => ('c', 'l'),
        46 => ('c', 'm'),
        47 => ('c', 'o'),
        48 => ('c', 'r'),
        49 => ('c', 'u'),
        50 => ('c', 'v'),
        51 => ('c', 'w'),
        52 => ('c', 'x'),
        53 => ('c', 'y'),
        54 => ('c', 'z'),
        55 => ('d', 'e'),
        56 => ('d', 'j'),
        57 => ('d', 'k'),
        58 => ('d', 'm'),
        59 => ('d', 'o'),
        60 => ('d', 'z'),
        61 => ('e', 'c'),
        62 => ('e', 'e'),
        63 => ('e', 'g'),
        64 => ('e', 'h'),
        65 => ('e', 'r'),
        66 => ('e', 's'),
        67 => ('e', 't'),
        68 => ('f', 'i'),
        69 => ('f', 'j'),
        70 => ('f', 'k'),
        71 => ('f', 'm'),
        72 => ('f', 'o'),
        73 => ('f', 'r'),
        74 => ('g', 'a'),
        75 => ('g', 'b'),
        76 => ('g', 'd'),
        77 => ('g', 'e'),
        78 => ('g', 'f'),
        79 => ('g', 'g'),
        80 => ('g', 'h'),
        81 => ('g', 'i'),
        82 => ('g', 'l'),
        83 => ('g', 'm'),
        84 => ('g', 'n'),
        85 => ('g', 'p'),
        86 => ('g', 'q'),
        87 => ('g', 'r'),
        88 => ('g', 's'),
        89 => ('g', 't'),
        90 => ('g', 'u'),
        91 => ('g', 'w'),
        92 => ('g', 'y'),
        93 => ('h', 'k'),
        94 => ('h', 'm'),
        95 => ('h', 'n'),
        96 => ('h', 'r'),
        97 => ('h', 't'),
        98 => ('h', 'u'),
        99 => ('i', 'd'),
        100 => ('i', 'e'),
        101 => ('i', 'l'),
        102 => ('i', 'm'),
        103 => ('i', 'n'),
        104 => ('i', 'o'),
        105 => ('i', 'q'),
        106 => ('i', 'r'),
        107 => ('i', 's'),
        108 => ('i', 't'),
        109 => ('j', 'e'),
        110 => ('j', 'm'),
        111 => ('j', 'o'),
        112 => ('j', 'p'),
        113 => ('k', 'e'),
        114 => ('k', 'g'),
        115 => ('k', 'h'),
        116 => ('k', 'i'),
        117 => ('k', 'm'),
        118 => ('k', 'n'),
        119 => ('k', 'p'),
        120 => ('k', 'r'),
        121 => ('k', 'w'),
        122 => ('k', 'y'),
        123 => ('k', 'z'),
        124 => ('l', 'a'),
        125 => ('l', 'b'),
        126 => ('l', 'c'),
        127 => ('l', 'i'),
        128 => ('l', 'k'),
        129 => ('l', 'r'),
        130 => ('l', 's'),
        131 => ('l', 't'),
        132 => ('l', 'u'),
        133 => ('l', 'v'),
        134 => ('l', 'y'),
        135 => ('m', 'a'),
        136 => ('m', 'c'),
        137 => ('m', 'd'),
        138 => ('m', 'e'),
        139 => ('m', 'f'),
        140 => ('m', 'g'),
        141 => ('m', 'h'),
        142 => ('m', 'k'),
        143 => ('m', 'l'),
        144 => ('m', 'm'),
        145 => ('m', 'n'),
        146 => ('m', 'o'),
        147 => ('m', 'p'),
        148 => ('m', 'q'),
        149 => ('m', 'r'),
        150 => ('m', 's'),
        151 => ('m', 't'),
        152 => ('m', 'u'),
        153 => ('m', 'v'),
        154 => ('m', 'w'),
        155 => ('m', 'x'),
        156 => ('m', 'y'),
        157 => ('m', 'z'),
        158 => ('n', 'a'),
        159 => ('n', 'c'),
        160 => ('n', 'e'),
        161 => ('n', 'f'),
        162 => ('n', 'g'),
        163 => ('n', 'i'),
        164 => ('n', 'l'),
        165 => ('n', 'o'),
        166 => ('n', 'p'),
        167 => ('n', 'r'),
        168 => ('n', 'u'),
        169 => ('n', 'z'),
        170 => ('o', 'm'),
        171 => ('p', 'a'),
        172 => ('p', 'e'),
        173 => ('p', 'f'),
        174 => ('p', 'g'),
        175 => ('p', 'h'),
        176 => ('p', 'k'),
        177 => ('p', 'l'),
        178 => ('p', 'm'),
        179 => ('p', 'n'),
        180 => ('p', 'r'),
        181 => ('p', 's'),
        182 => ('p', 't'),
        183 => ('p', 'w'),
        184 => ('p', 'y'),
        185 => ('q', 'a'),
        186 => ('r', 'e'),
        187 => ('r', 'o'),
        188 => ('r', 's'),
        189 => ('r', 'u'),
        190 => ('r', 'w'),
        191 => ('s', 'a'),
        192 => ('s', 'b'),
        193 => ('s', 'c'),
        194 => ('s', 'd'),
        195 => ('s', 'e'),
        196 => ('s', 'g'),
        197 => ('s', 'h'),
        198 => ('s', 'i'),
        199 => ('s', 'j'),
        200 => ('s', 'k'),
        201 => ('s', 'l'),
        202 => ('s', 'm'),
        203 => ('s', 'n'),
        204 => ('s', 'o'),
        205 => ('s', 'r'),
        206 => ('s', 's'),
        207 => ('s', 't'),
        208 => ('s', 'v'),
        209 => ('s', 'x'),
        210 => ('s', 'y'),
        211 => ('s', 'z'),
        212 => ('t', 'c'),
        213 => ('t', 'd'),
        214 => ('t', 'f'),
        215 => ('t', 'g'),
        216 => ('t', 'h'),
        217 => ('t', 'j'),
        218 => ('t', 'k'),
        219 => ('t', 'l'),
        220 => ('t', 'm'),
        221 => ('t', 'n'),
        222 => ('t', 'o'),
        223 => ('t', 'r'),
        224 => ('t', 't'),
        225 => ('t', 'v'),
        226 => ('t', 'w'),
        227 => ('t', 'z'),
        228 => ('u', 'a'),
        229 => ('u', 'g'),
        230 => ('u', 'm'),
        231 => ('u', 's'),
        232 => ('u', 'y'),
        233 => ('u', 'z'),
        234 => ('v', 'a'),
        235 => ('v', 'c'),
        236 => ('v', 'e'),
        237 => ('v', 'g'),
        238 => ('v', 'i'),
        239 => ('v', 'n'),
        240 => ('v', 'u'),
        241 => ('w', 'f'),
        242 => ('w', 's'),
        243 => ('y', 'e'),
        244 => ('y', 't'),
        245 => ('z', 'a'),
        246 => ('z', 'm'),
        247 => ('z', 'w'),
        _ => (' ', ' '),
    }
}

/// The position of the code `a b` in `registry_code`, or -1.
spec fn registry_position(a: char, b: char) -> int {
    match a {
        'a' => match b { 'd' => 0, 'e' => 1, 'f' => 2, 'g' => 3, 'i' => 4, 'l' => 5, 'm' => 6, 'o' => 7, 'q' => 8, 'r' => 9, 's' => 10, 't' => 11, 'u' => 12, 'w' => 13, 'x' => 14, 'z' => 15, _ => -1 },
        'b' => match b { 'a' => 16, 'b' => 17, 'd' => 18, 'e' => 19, 'f' => 20, 'g' => 21, 'h' => 22, 'i' => 23, 'j' => 24, 'l' => 25, 'm' => 26, 'n' => 27, 'o' => 28, 'q' => 29, 'r' => 30, 's' => 31, 't' => 32, 'v' => 33, 'w' => 34, 'y' => 35, 'z' => 36, _ => -1 },
        'c' => match b { 'a' => 37, 'c' => 38, 'd' => 39, 'f' => 40, 'g' => 41, 'h' => 42, 'i' => 43, 'k' => 44, 'l' => 45, 'm' => 46, 'o' => 47, 'r' => 48, 'u' => 49, 'v' => 50, 'w' => 51, 'x' => 52, 'y' => 53, 'z' => 54, _ => -1 },
        'd' => match b { 'e' => 55, 'j' => 56, 'k' => 57, 'm' => 58, 'o' => 59, 'z' => 60, _ => -1 },
        'e' => match b { 'c' => 61, 'e' => 62, 'g' => 63, 'h' => 64, 'r' => 65, 's' => 66, 't' => 67, _ => -1 },
        'f' => match b { 'i' => 68, 'j' => 69, 'k' => 70, 'm' => 71, 'o' => 72, 'r' => 73, _ => -1 },
        'g' => match b { 'a' => 74, 'b' => 75, 'd' => 76, 'e' => 77, 'f' => 78, 'g' => 79, 'h' => 80, 'i' => 81, 'l' => 82, 'm' => 83, 'n' => 84, 'p' => 85, 'q' => 86, 'r' => 87, 's' => 88, 't' => 89, 'u' => 90, 'w' => 91, 'y' => 92, _ => -1 },
        'h' => match b { 'k' => 93, 'm' => 94, 'n' => 95, 'r' => 96, 't' => 97, 'u' => 98, _ => -1 },
        'i' => match b { 'd' => 99, 'e' => 100, 'l' => 101, 'm' => 102, 'n' => 103, 'o' => 104, 'q' => 105, 'r' => 106, 's' => 107, 't' => 108, _ => -1 },
        'j' => match b { 'e' => 109, 'm' => 110, 'o' => 111, 'p' => 112, _ => -1 },
        'k' => match b { 'e' => 113, 'g' => 114, 'h' => 115, 'i' => 116, 'm' => 117, 'n' => 118, 'p' => 119, 'r' => 120, 'w' => 121, 'y' => 122, 'z' => 123, _ => -1 },
        'l' => match b { 'a' => 124, 'b' => 125, 'c' => 126, 'i' => 127, 'k' => 128, 'r' => 129, 's' => 130, 't' => 131, 'u' => 132, 'v' => 133, 'y' => 134, _ => -1 },
        'm' => match b { 'a' => 135, 'c' => 136, 'd' => 137, 'e' => 138, 'f' => 139, 'g' => 140, 'h' => 141, 'k' => 142, 'l' => 143, 'm' => 144, 'n' => 145, 'o' => 146, 'p' => 147, 'q' => 148, 'r' => 149, 's' => 150, 't' => 151, 'u' => 152, 'v' => 153, 'w' => 154, 'x' => 155, 'y' => 156, 'z' => 157, _ => -1 },
        'n' => match b { 'a' => 158, 'c' => 159, 'e' => 160, 'f' => 161, 'g' => 162, 'i' => 163, 'l' => 164, 'o' => 165, 'p' => 166, 'r' => 167, 'u' => 168, 'z' => 169, _ => -1 },
        'o' => match b { 'm' => 170, _ => -1 },
        'p' => match b { 'a' => 171, 'e' => 172, 'f' => 173, 'g' => 174, 'h' => 175, 'k' => 176, 'l' => 177, 'm' => 178, 'n' => 179, 'r' => 180, 's' => 181, 't' => 182, 'w' => 183, 'y' => 184, _ => -1 },
        'q' => match b { 'a' => 185, _ => -1 },
        'r' => match b { 'e' => 186, 'o' => 187, 's' => 188, 'u' => 189, 'w' => 190, _ => -1 },
        's' => match b { 'a' => 191, 'b' => 192, 'c' => 193, 'd' => 194, 'e' => 195, 'g' => 196, 'h' => 197, 'i' => 198, 'j' => 199, 'k' => 200, 'l' => 201, 'm' => 202, 'n' => 203, 'o' => 204, 'r' => 205, 's' => 206, 't' => 207, 'v' => 208, 'x' => 209, 'y' => 210, 'z' => 211, _ => -1 },
        't' => match b { 'c' => 212, 'd' => 213, 'f' => 214, 'g' => 215, 'h' => 216, 'j' => 217, 'k' => 218, 'l' => 219, 'm' => 220, 'n' => 221, 'o' => 222, 'r' => 223, 't' => 224, 'v' => 225, 'w' => 226, 'z' => 227, _ => -1 },
        'u' => match b { 'a' => 228, 'g' => 229, 'm' => 230, 's' => 231, 'y' => 232, 'z' => 233, _ => -1 },
        'v' => match b { 'a' => 234, 'c' => 235, 'e' => 236, 'g' => 237, 'i' => 238, 'n' => 239, 'u' => 240, _ => -1 },
        'w' => match b { 'f' => 241, 's' => 242, _ => -1 },
        'y' => match b { 'e' => 243, 't' => 244, _ => -1 },
        'z' => match b { 'a' => 245, 'm' => 246, 'w' => 247, _ => -1 },
        _ => -1,
    }
}

proof fn lemma_registry_codes_accepted(i: u8)
    requires
        i < 248,
    ensures
        is_iso_code(registry_code(i).0, registry_code(i).1),
{
}

proof fn lemma_registry_position(a: char, b: char)
    requires
        is_iso_code(a, b),
    ensures
        0 <= registry_position(a, b) < 248,
        registry_code(registry_position(a, b) as u8) == (a, b),
{
}

/// The canonical region registry is exactly `cn-mainland` and the 248 two-letter codes of
/// `registry_code`: an identifier is accepted if and only if it is one of them.
pub proof fn law_canonical_registry(s: Seq<char>)
    ensures
        is_canonical_region(s) <==> (s == cn_mainland() || (s.len() == 2 && exists|i: u8|
            i < 248 && #[trigger] registry_code(i) == (s[0], s[1]))),
{
    if s.len() == 2 {
        if is_iso_code(s[0], s[1]) {
            lemma_registry_position(s[0], s[1]);
            assert(registry_code(registry_position(s[0], s[1]) as u8) == (s[0], s[1]));
        }
        if exists|i: u8| i < 248 && #[trigger] registry_code(i) == (s[0], s[1]) {
            let i = choose|i: u8| i < 248 && #[trigger] registry_code(i) == (s[0], s[1]);
            lemma_registry_codes_accepted(i);
        }
    }
}

/// The message a rejected region identifier produces.
pub open spec fn unrecognized_region_message(value: Seq<char>) -> Seq<char> {
    "`"@ + value + "` is not a recognized canonical region ID"@
}

/// A sequence in strictly increasing lexicographic order.
pub open spec fn strictly_sorted(s: Seq<Seq<char>>) -> bool {
    forall|i: int, j: int| 0 <= i < j < s.len() ==> lex_less(#[trigger] s[i], #[trigger] s[j])
}

fn iso_code(a: char, b: char) -> (r: bool)
    ensures
        r == is_iso_code(a, b),
{
    match a {
        'a' => b == 'd' || b == 'e' || b == 'f' || b == 'g' || b == 'i' || b == 'l' || b == 'm' || b == 'o' || b == 'q' || b == 'r' || b == 's' || b == 't' || b == 'u' || b == 'w' || b == 'x' || b == 'z',
        'b' => b == 'a' || b == 'b' || b == 'd' || b == 'e' || b == 'f' || b == 'g' || b == 'h' || b == 'i' || b == 'j' || b == 'l' || b == 'm' || b == 'n' || b == 'o' || b == 'q' || b == 'r' || b == 's' || b == 't' || b == 'v' || b == 'w' || b == 'y' || b == 'z',
        'c' => b == 'a' || b == 'c' || b == 'd' || b == 'f' || b == 'g' || b == 'h' || b == 'i' || b == 'k' || b == 'l' || b == 'm' || b == 'o' || b == 'r' || b == 'u' || b == 'v' || b == 'w' || b == 'x' || b == 'y' || b == 'z',
        'd' => b == 'e' || b == 'j' || b == 'k' || b == 'm' || b == 'o' || b == 'z',
        'e' => b == 'c' || b == 'e' || b == 'g' || b == 'h' || b == 'r' || b == 's' || b == 't',
        'f' => b == 'i' || b == 'j' || b == 'k' || b == 'm' || b == 'o' || b == 'r',
        'g' => b == 'a' || b == 'b' || b == 'd' || b == 'e' || b == 'f' || b == 'g' || b == 'h' || b == 'i' || b == 'l' || b == 'm' || b == 'n' || b == 'p' || b == 'q' || b == 'r' || b == 's' || b == 't' || b == 'u' || b == 'w' || b == 'y',
        'h' => b == 'k' || b == 'm' || b == 'n' || b == 'r' || b == 't' || b == 'u',
        'i' => b == 'd' || b == 'e' || b == 'l' || b == 'm' || b == 'n' || b == 'o' || b == 'q' || b == 'r' || b == 's' || b == 't',
        'j' => b == 'e' || b == 'm' || b == 'o' || b == 'p',
        'k' => b == 'e' || b == 'g' || b == 'h' || b == 'i' || b == 'm' || b == 'n' || b == 'p' || b == 'r' || b == 'w' || b == 'y' || b == 'z',
        'l' => b == 'a' || b == 'b' || b == 'c' || b == 'i' || b == 'k' || b == 'r' || b == 's' || b == 't' || b == 'u' || b == 'v' || b == 'y',
        'm' => b == 'a' || b == 'c' || b == 'd' || b == 'e' || b == 'f' || b == 'g' || b == 'h' || b == 'k' || b == 'l' || b == 'm' || b == 'n' || b == 'o' || b == 'p' || b == 'q' || b == 'r' || b == 's' || b == 't' || b == 'u' || b == 'v' || b == 'w' || b == 'x' || b == 'y' || b == 'z',
        'n' => b == 'a' || b == 'c' || b == 'e' || b == 'f' || b == 'g' || b == 'i' || b == 'l' || b == 'o' || b == 'p' || b == 'r' || b == 'u' || b == 'z',
        'o' => b == 'm',
        'p' => b == 'a' || b == 'e' || b == 'f' || b == 'g' || b == 'h' || b == 'k' || b == 'l' || b == 'm' || b == 'n' || b == 'r' || b == 's' || b == 't' || b == 'w' || b == 'y',
        'q' => b == 'a',
        'r' => b == 'e' || b == 'o' || b == 's' || b == 'u' || b == 'w',
        's' => b == 'a' || b == 'b' || b == 'c' || b == 'd' || b == 'e' || b == 'g' || b == 'h' || b == 'i' || b == 'j' || b == 'k' || b == 'l' || b == 'm' || b == 'n' || b == 'o' || b == 'r' || b == 's' || b == 't' || b == 'v' || b == 'x' || b == 'y' || b == 'z',
        't' => b == 'c' || b == 'd' || b == 'f' || b == 'g' || b == 'h' || b == 'j' || b == 'k' || b == 'l' || b == 'm' || b == 'n' || b == 'o' || b == 'r' || b == 't' || b == 'v' || b == 'w' || b == 'z',
        'u' => b == 'a' || b == 'g' || b == 'm' || b == 's' || b == 'y' || b == 'z',
        'v' => b == 'a' || b == 'c' || b == 'e' || b == 'g' || b == 'i' || b == 'n' || b == 'u',
        'w' => b == 'f' || b == 's',
        'y' => b == 'e' || b == 't',
        'z' => b == 'a' || b == 'm' || b == 'w',
        _ => false,
    }
}

fn is_canonical_chars(v: &Vec<char>) -> (r: bool)
    ensures
        r == is_canonical_region(v@),
{
    if v.len() == 2 {
        iso_code(v[0], v[1])
    } else if v.len() == 11 {
        let r = v[0] == 'c' && v[1] == 'n' && v[2] == '-' && v[3] == 'm' && v[4] == 'a' && v[5]
            == 'i' && v[6] == 'n' && v[7] == 'l' && v[8] == 'a' && v[9] == 'n' && v[10] == 'd';
        if r {
            assert(v@ =~= cn_mainland());
        }
        r
    } else {
        false
    }
}

/// A validated canonical egress-region identifier.
#[derive(Debug, PartialEq, Eq, PartialOrd, Ord, Hash)]
pub struct Region(String);

impl View for Region {
    type V = Seq<char>;

    closed spec fn view(&self) -> Seq<char> {
        self.0@
    }
}

impl Clone for Region {
    fn clone(&self) -> (r: Region)
        ensures
            r@ == self@,
    {
        proof {
            use_type_invariant(self);
        }
        Region(self.0.clone())
    }
}

impl Region {
    #[verifier::type_invariant]
    spec fn canonical(self) -> bool {
        is_canonical_region(self.0@)
    }

    /// Parse one canonical region identifier.
    pub fn parse(value: &str) -> (r: Result<Region, String>)
        ensures
            r is Ok <==> is_canonical_region(value@),
            r matches Ok(region) ==> region@ == value@,
            r matches Err(e) ==> e@ == unrecognized_region_message(value@),
    {
        let v = chars_of(value);
        if is_canonical_chars(&v) {
            Ok(Region(value.to_owned()))
        } else {
            let mut message = "`".to_owned();
            message.append(value);
            message.append("` is not a recognized canonical region ID");
            Err(message)
        }
    }

    /// Canonical source and artifact label.
    pub fn as_str(&self) -> (r: &str)
        ensures
            r@ == self@,
            is_canonical_region(r@),
    {
        proof {
            use_type_invariant(self);
        }
        self.0.as_str()
    }

    /// Whether two regions are the same identifier.
    pub fn same(&self, other: &Region) -> (r: bool)
        ensures
            r == (self@ == other@),
    {
        self.0 == other.0
    }

    /// Whether this region precedes `other` in identifier order.
    pub fn precedes(&self, other: &Region) -> (r: bool)
        ensures
            r == lex_less(self@, other@),
    {
        let a = chars_of(self.0.as_str());
        let b = chars_of(other.0.as_str());
        chars_less(&a, &b)
    }

    fn from_letters(a: char, b: char) -> (r: Region)
        requires
            is_iso_code(a, b),
        ensures
            r@ == seq![a, b],
    {
        let mut s = String::new();
        push_char(&mut s, a);
        push_char(&mut s, b);
        assert(s@ =~= seq![a, b]);
        Region(s)
    }
}

impl core::str::FromStr for Region {
    type Err = String;

    fn from_str(value: &str) -> (r: Result<Region, String>)
        ensures
            r is Ok <==> is_canonical_region(value@),
            r matches Ok(region) ==> region@ == value@,
            r matches Err(e) ==> e@ == unrecognized_region_message(value@),
    {
        Region::parse(value)
    }
}

/// The views of a sequence of regions.
pub open spec fn region_views(s: Seq<Region>) -> Seq<Seq<char>> {
    s.map_values(|r: Region| r@)
}

/// Whether the candidate `x y` comes at or after a registry entry `s` in the enumeration
/// below, that is, whether `s` has already been enumerated.
spec fn enumerated_before(s: Seq<char>, x: int, y: int) -> bool {
    if s == cn_mainland() {
        x > 'c' as int || (x == 'c' as int && y > 'n' as int)
    } else {
        (s[0] as int) < x || ((s[0] as int) == x && (s[1] as int) < y)
    }
}

proof fn lemma_pair_less(a: char, b: char, c: char, d: char)
    requires
        a < c || (a == c && b < d),
    ensures
        lex_less(seq![a, b], seq![c, d]),
{
    let p = seq![a, b];
    let q = seq![c, d];
    if a == c {
        assert(p.drop_first() =~= seq![b]);
        assert(q.drop_first() =~= seq![d]);
        assert(lex_less(seq![b], seq![d]));
    }
}

spec fn m_tail_check() -> bool {
    let t = seq!['n', '-', 'm', 'a', 'i', 'n', 'l', 'a', 'n', 'd'];
    t.drop_first() =~= seq!['-', 'm', 'a', 'i', 'n', 'l', 'a', 'n', 'd'] && seq!['n'].drop_first()
        =~= Seq::<char>::empty()
}

proof fn lemma_cn_mainland_between()
    ensures
        lex_less(seq!['c', 'm'], cn_mainland()),
        lex_less(seq!['c', 'n'], cn_mainland()),
        lex_less(cn_mainland(), seq!['c', 'o']),
{
    assert(seq!['c', 'n'].drop_first() =~= seq!['n']);
    assert(m_tail_check());
    let t = seq!['n', '-', 'm', 'a', 'i', 'n', 'l', 'a', 'n', 'd'];
    assert(lex_less(Seq::<char>::empty(), t.drop_first()));
    assert(lex_less(seq!['n'], t));
    let m = cn_mainland();
    assert(m.drop_first() =~= seq!['n', '-', 'm', 'a', 'i', 'n', 'l', 'a', 'n', 'd']);
    assert(seq!['c', 'm'].drop_first() =~= seq!['m']);
    assert(seq!['c', 'o'].drop_first() =~= seq!['o']);
    assert(lex_less(seq!['m'], m.drop_first()));
    assert(lex_less(m.drop_first(), seq!['o']));
}

proof fn lemma_iso_letters(a: char, b: char)
    requires
        is_iso_code(a, b),
    ensures
        'a' <= a <= 'z',
        'a' <= b <= 'z',
{
}

/// Every identifier of the canonical region registry, in strictly increasing order.
pub fn canonical_region_ids() -> (ids: Vec<Region>)
    ensures
        forall|i: int| 0 <= i < ids.len() ==> is_canonical_region(#[trigger] ids@[i]@),
        forall|s: Seq<char>|
            is_canonical_region(s) ==> exists|i: int| 0 <= i < ids.len() && #[trigger] ids@[i]@ == s,
        strictly_sorted(region_views(ids@)),
{
    let mut ids: Vec<Region> = Vec::new();
    let mut x: u8 = 97;
    while x <= 122
        invariant
            97 <= x <= 123,
            forall|i: int| 0 <= i < ids.len() ==> is_canonical_region(#[trigger] ids@[i]@),
            forall|i: int| 0 <= i < ids.len() ==> lex_less(#[trigger] ids@[i]@, seq![x as char, 'a']),
            forall|s: Seq<char>|
                is_canonical_region(s) && enumerated_before(s, x as int, 97) ==> exists|i: int|
                    0 <= i < ids.len() && #[trigger] ids@[i]@ == s,
            strictly_sorted(region_views(ids@)),
        decreases 123 - x,
    {
        let a: char = x as char;
        let mut y: u8 = 97;
        while y <= 122
            invariant
                97 <= x <= 122,
                97 <= y <= 123,
                a == x as char,
                forall|i: int| 0 <= i < ids.len() ==> is_canonical_region(#[trigger] ids@[i]@),
                forall|i: int| 0 <= i < ids.len() ==> lex_less(#[trigger] ids@[i]@, seq![a, y as char]),
                forall|s: Seq<char>|
                    is_canonical_region(s) && enumerated_before(s, x as int, y as int) ==> exists|
                        i: int,
                    | 0 <= i < ids.len() && #[trigger] ids@[i]@ == s,
                strictly_sorted(region_views(ids@)),
            decreases 123 - y,
        {
            let b: char = y as char;
            let ghost before = ids@;
            let is_code = iso_code(a, b);
            if is_code {
                ids.push(Region::from_letters(a, b));
            } else if a == 'c' && b == 'n' {
                let id = Region::parse("cn-mainland");
                proof {
                    reveal_strlit("cn-mainland");
                    assert("cn-mainland"@ =~= cn_mainland());
                }
                match id {
                    Ok(region) => ids.push(region),
                    Err(_) => {},
                }
            }
            proof {
                let c = seq![a, b];
                let d = seq![a, (y + 1) as char];
                lemma_pair_less(a, b, a, (y + 1) as char);
                if !is_code && a == 'c' && b == 'n' {
                    lemma_pair_less('c', 'm', 'c', 'n');
                    lemma_cn_mainland_between();
                }
                assert forall|i: int| 0 <= i < ids.len() implies lex_less(
                    #[trigger] ids@[i]@,
                    d,
                ) by {
                    if i < before.len() {
                        assert(ids@[i] == before[i]);
                        lemma_lex_transitive(ids@[i]@, c, d);
                    } else if !is_code {
                        lemma_lex_transitive(cn_mainland(), seq!['c', 'o'], d);
                    }
                }
                assert forall|s: Seq<char>|
                    is_canonical_region(s) && enumerated_before(
                        s,
                        x as int,
                        (y + 1) as int,
                    ) implies exists|i: int| 0 <= i < ids.len() && #[trigger] ids@[i]@ == s by {
                    if enumerated_before(s, x as int, y as int) {
                        let i = choose|i: int| 0 <= i < before.len() && #[trigger] before[i]@ == s;
                        assert(ids@[i] == before[i]);
                    } else if s == cn_mainland() {
                        assert(ids@[ids.len() - 1]@ == s);
                    } else {
                        assert(s =~= c);
                        assert(ids@[ids.len() - 1]@ == s);
                    }
                }
                assert forall|i: int, j: int|
                    0 <= i < j < ids.len() implies lex_less(
                    #[trigger] region_views(ids@)[i],
                    #[trigger] region_views(ids@)[j],
                ) by {
                    if j < before.len() {
                        assert(region_views(ids@)[i] == region_views(before)[i]);
                        assert(region_views(ids@)[j] == region_views(before)[j]);
                    } else {
                        assert(ids@[i] == before[i]);
                        assert(region_views(ids@)[i] == before[i]@);
                        assert(region_views(ids@)[j] == ids@[j]@);
                        if !is_code {
                            lemma_lex_transitive(before[i]@, c, cn_mainland());
                        }
                    }
                }
            }
            y = y + 1;
        }
        proof {
            let c = seq![a, y as char];
            let d = seq![(x + 1) as char, 'a'];
            lemma_pair_less(a, y as char, (x + 1) as char, 'a');
            assert forall|i: int| 0 <= i < ids.len() implies lex_less(
                #[trigger] ids@[i]@,
                d,
            ) by {
                lemma_lex_transitive(ids@[i]@, c, d);
            }
            assert forall|s: Seq<char>|
                is_canonical_region(s) && enumerated_before(
                    s,
                    (x + 1) as int,
                    97,
                ) implies exists|i: int| 0 <= i < ids.len() && #[trigger] ids@[i]@ == s by {
                if s != cn_mainland() {
                    lemma_iso_letters(s[0], s[1]);
                }
                assert(enumerated_before(s, x as int, y as int));
            }
        }
        x = x + 1;
    }
    ids
}

/// The views of a sequence of strings.
pub open spec fn string_views(s: Seq<String>) -> Seq<Seq<char>> {
    s.map_values(|x: String| x@)
}

/// The message a repeated region identifier produces.
pub open spec fn duplicate_region_message(value: Seq<char>) -> Seq<char> {
    "duplicate region `"@ + value + "`"@
}

/// The first problem found scanning `values` from index `i` on.
pub open spec fn region_scan_problem(values: Seq<Seq<char>>, i: int) -> Option<Seq<char>>
    decreases values.len() - i,
{
    if i < 0 || i >= values.len() {
        None
    } else if !is_canonical_region(values[i]) {
        Some(unrecognized_region_message(values[i]))
    } else if values.subrange(0, i).contains(values[i]) {
        Some(duplicate_region_message(values[i]))
    } else {
        region_scan_problem(values, i + 1)
    }
}

/// Why a source region list is rejected, if it is.
pub open spec fn region_list_problem(values: Seq<Seq<char>>) -> Option<Seq<char>> {
    if values.len() == 0 {
        Some("regions must contain at least one value"@)
    } else {
        region_scan_problem(values, 0)
    }
}

/// `q` lists, in strictly increasing order, exactly the distinct members of `items`.
pub open spec fn sorted_set_of(q: Seq<Seq<char>>, items: Seq<Seq<char>>) -> bool {
    &&& strictly_sorted(q)
    &&& forall|x: Seq<char>| q.contains(x) <==> items.contains(x)
}

/// The plain content of a [`RegionSet`].
pub enum RegionSetView {
    /// Unrestricted.
    Any,
    /// Only these regions, in strictly increasing order.
    Only(Seq<Seq<char>>),
    /// Every region except these, in strictly increasing order.
    Except(Seq<Seq<char>>),
}

/// Whether a restricted set permits `region`; `any` permits nothing here.
pub open spec fn set_contains(s: RegionSetView, region: Seq<char>) -> bool {
    match s {
        RegionSetView::Any => false,
        RegionSetView::Only(q) => q.contains(region),
        RegionSetView::Except(q) => !q.contains(region),
    }
}

/// Whether a restricted set rejects `region`; `any` rejects nothing.
pub open spec fn set_excludes(s: RegionSetView, region: Seq<char>) -> bool {
    match s {
        RegionSetView::Any => false,
        RegionSetView::Only(q) => !q.contains(region),
        RegionSetView::Except(q) => q.contains(region),
    }
}

/// Whether the set is exactly the one region `region`.
pub open spec fn set_is_only(s: RegionSetView, region: Seq<char>) -> bool {
    match s {
        RegionSetView::Only(q) => q.len() == 1 && q[0] == region,
        _ => false,
    }
}

/// The regions a set names explicitly, in increasing order.
pub open spec fn mentioned(s: RegionSetView) -> Seq<Seq<char>> {
    match s {
        RegionSetView::Any => Seq::empty(),
        RegionSetView::Only(q) => q,
        RegionSetView::Except(q) => q,
    }
}

/// Texts joined with `, `.
pub open spec fn comma_joined(q: Seq<Seq<char>>) -> Seq<char>
    decreases q.len(),
{
    if q.len() == 0 {
        Seq::empty()
    } else if q.len() == 1 {
        q[0]
    } else {
        comma_joined(q.drop_last()) + ", "@ + q.last()
    }
}

/// The human-readable form of a region set.
pub open spec fn region_set_text(s: RegionSetView) -> Seq<char> {
    match s {
        RegionSetView::Any => "any"@,
        RegionSetView::Only(q) => comma_joined(q),
        RegionSetView::Except(q) => "except "@ + comma_joined(q),
    }
}

/// A validated application's egress-region availability.
#[derive(Debug, PartialEq, Eq, PartialOrd, Ord, Hash)]
pub struct RegionSet(RegionSetKind);

#[derive(Debug, PartialEq, Eq, PartialOrd, Ord, Hash)]
enum RegionSetKind {
    Any,
    Only(Vec<Region>),
    Except(Vec<Region>),
}

impl View for RegionSet {
    type V = RegionSetView;

    closed spec fn view(&self) -> RegionSetView {
        match self.0 {
            RegionSetKind::Any => RegionSetView::Any,
            RegionSetKind::Only(v) => RegionSetView::Only(region_views(v@)),
            RegionSetKind::Except(v) => RegionSetView::Except(region_views(v@)),
        }
    }
}

fn clone_regions(v: &Vec<Region>) -> (r: Vec<Region>)
    ensures
        region_views(r@) == region_views(v@),
        r.len() == v.len(),
{
    let mut r: Vec<Region> = Vec::new();
    let mut i: usize = 0;
    while i < v.len()
        invariant
            i <= v.len(),
            region_views(r@) =~= region_views(v@).take(i as int),
        decreases v.len() - i,
    {
        let item = v[i].clone();
        assert(region_views(v@).take(i + 1) =~= region_views(v@).take(i as int).push(item@));
        r.push(item);
        i = i + 1;
    }
    assert(region_views(v@).take(v.len() as int) =~= region_views(v@));
    r
}

fn has_region(v: &Vec<Region>, region: &Region) -> (r: bool)
    ensures
        r == region_views(v@).contains(region@),
{
    let mut i: usize = 0;
    while i < v.len()
        invariant
            i <= v.len(),
            forall|j: int| 0 <= j < i ==> v@[j]@ != region@,
        decreases v.len() - i,
    {
        if v[i].same(region) {
            assert(region_views(v@)[i as int] == region@);
            return true;
        }
        i = i + 1;
    }
    assert forall|j: int| 0 <= j < region_views(v@).len() implies region_views(v@)[j]
        != region@ by {
        assert(region_views(v@)[j] == v@[j]@);
    }
    false
}

/// Add `region` to a strictly increasing list, as a set insertion does.
pub(crate) fn insert_region(v: &mut Vec<Region>, region: Region) -> (inserted: bool)
    requires
        strictly_sorted(region_views(old(v)@)),
    ensures
        strictly_sorted(region_views(final(v)@)),
        forall|x: Seq<char>|
            region_views(final(v)@).contains(x) <==> (region_views(old(v)@).contains(x) || x
                == region@),
        inserted == !region_views(old(v)@).contains(region@),
{
    let ghost old_views = region_views(v@);
    let mut i: usize = 0;
    while i < v.len() && v[i].precedes(&region)
        invariant
            i <= v.len(),
            v@ == old(v)@,
            forall|j: int| 0 <= j < i ==> lex_less(#[trigger] v@[j]@, region@),
        decreases v.len() - i,
    {
        i = i + 1;
    }
    if i < v.len() && v[i].same(&region) {
        assert(old_views[i as int] == region@);
        return false;
    }
    proof {
        if i < v.len() {
            lemma_lex_total(v@[i as int]@, region@);
        }
        assert forall|j: int| i <= j < v.len() implies lex_less(region@, #[trigger] v@[j]@) by {
            if j > i {
                assert(lex_less(old_views[i as int], old_views[j]));
                lemma_lex_transitive(region@, v@[i as int]@, v@[j]@);
            }
        }
        assert forall|j: int| 0 <= j < old_views.len() implies old_views[j] != region@ by {
            if j < i {
                lemma_lex_irreflexive(region@);
            } else {
                lemma_lex_irreflexive(region@);
            }
        }
    }
    let ghost r = region@;
    v.insert(i, region);
    proof {
        let nv = region_views(v@);
        assert(nv =~= old_views.insert(i as int, r));
        assert forall|a: int, b: int| 0 <= a < b < nv.len() implies lex_less(
            #[trigger] nv[a],
            #[trigger] nv[b],
        ) by {
            if b < i {
                assert(lex_less(old_views[a], old_views[b]));
            } else if b == i {
                assert(nv[a] == old_views[a]);
            } else if a < i {
                assert(nv[b] == old_views[b - 1]);
                assert(nv[a] == old_views[a]);
                lemma_lex_transitive(nv[a], r, nv[b]);
            } else if a == i {
                assert(nv[b] == old_views[b - 1]);
            } else {
                assert(lex_less(old_views[a - 1], old_views[b - 1]));
            }
        }
        assert forall|x: Seq<char>| nv.contains(x) <==> (old_views.contains(x) || x == r) by {
            if nv.contains(x) {
                let k = choose|k: int| 0 <= k < nv.len() && nv[k] == x;
                if k < i {
                    assert(old_views[k] == x);
                } else if k > i {
                    assert(old_views[k - 1] == x);
                }
            }
            if old_views.contains(x) {
                let k = choose|k: int| 0 <= k < old_views.len() && old_views[k] == x;
                if k < i {
                    assert(nv[k] == x);
                } else {
                    assert(nv[k + 1] == x);
                }
            }
            if x == r {
                assert(nv[i as int] == x);
            }
        }
    }
    true
}

impl RegionSet {
    #[verifier::type_invariant]
    spec fn well_formed(self) -> bool {
        match self.0 {
            RegionSetKind::Any => true,
            RegionSetKind::Only(v) => strictly_sorted(region_views(v@)) && v@.len() > 0,
            RegionSetKind::Except(v) => strictly_sorted(region_views(v@)) && v@.len() > 0,
        }
    }

    /// Construct an unrestricted region set.
    pub fn any() -> (r: RegionSet)
        ensures
            r@ == RegionSetView::Any,
    {
        RegionSet(RegionSetKind::Any)
    }

    fn collect(regions: Vec<Region>) -> (r: Vec<Region>)
        ensures
            sorted_set_of(region_views(r@), region_views(regions@)),
            r.len() > 0 <==> regions.len() > 0,
    {
        let ghost all = region_views(regions@);
        let mut r: Vec<Region> = Vec::new();
        let n = regions.len();
        let mut k: usize = 0;
        while k < n
            invariant
                n == all.len(),
                all == region_views(regions@),
                k <= n,
                strictly_sorted(region_views(r@)),
                forall|x: Seq<char>|
                    region_views(r@).contains(x) <==> all.take(k as int).contains(x),
                k > 0 ==> r.len() > 0,
            decreases n - k,
        {
            let item = regions[k].clone();
            insert_region(&mut r, item);
            proof {
                assert(all.take(k + 1) =~= all.take(k as int).push(all[k as int]));
                assert(all[k as int] == regions@[k as int]@);
                assert(region_views(r@).contains(all[k as int]));
                assert(region_views(r@).len() > 0);
            }
            k = k + 1;
        }
        assert(all.take(n as int) =~= all);
        proof {
            if n == 0 && r.len() > 0 {
                assert(region_views(r@).contains(region_views(r@)[0]));
                assert(all.take(0) =~= Seq::<Seq<char>>::empty());
            }
        }
        r
    }

    /// Construct availability limited to a non-empty set of regions.
    pub fn only(regions: Vec<Region>) -> (r: Result<RegionSet, String>)
        ensures
            r is Ok <==> regions.len() > 0,
            r matches Ok(s) ==> (s@ matches RegionSetView::Only(q) && sorted_set_of(
                q,
                region_views(regions@),
            )),
            r matches Err(e) ==> e@ == "a region list must not be empty"@,
    {
        let v = RegionSet::collect(regions);
        if v.len() == 0 {
            Err("a region list must not be empty".to_owned())
        } else {
            Ok(RegionSet(RegionSetKind::Only(v)))
        }
    }

    /// Construct availability in every region except a non-empty set.
    pub fn except(regions: Vec<Region>) -> (r: Result<RegionSet, String>)
        ensures
            r is Ok <==> regions.len() > 0,
            r matches Ok(s) ==> (s@ matches RegionSetView::Except(q) && sorted_set_of(
                q,
                region_views(regions@),
            )),
            r matches Err(e) ==> e@ == "an exception list must not be empty"@,
    {
        let v = RegionSet::collect(regions);
        if v.len() == 0 {
            Err("an exception list must not be empty".to_owned())
        } else {
            Ok(RegionSet(RegionSetKind::Except(v)))
        }
    }

    fn parse_values(values: &[String]) -> (r: Result<Vec<Region>, String>)
        ensures
            r is Ok <==> region_list_problem(string_views(values@)) is None,
            r matches Ok(v) ==> sorted_set_of(region_views(v@), string_views(values@)) && v.len()
                > 0,
            r matches Err(e) ==> region_list_problem(string_views(values@)) == Some(e@),
    {
        let ghost vals = string_views(values@);
        if values.len() == 0 {
            return Err("regions must contain at least one value".to_owned());
        }
        let mut concrete: Vec<Region> = Vec::new();
        let mut i: usize = 0;
        while i < values.len()
            invariant
                vals == string_views(values@),
                vals.len() == values@.len(),
                0 < values.len(),
                i <= values.len(),
                region_scan_problem(vals, 0) == region_scan_problem(vals, i as int),
                strictly_sorted(region_views(concrete@)),
                forall|x: Seq<char>|
                    region_views(concrete@).contains(x) <==> vals.subrange(0, i as int).contains(
                        x,
                    ),
                i > 0 ==> concrete.len() > 0,
            decreases values.len() - i,
        {
            let value = &values[i];
            assert(vals[i as int] == value@);
            let region = match Region::parse(value.as_str()) {
                Ok(region) => region,
                Err(message) => {
                    return Err(message);
                },
            };
            let ghost before = region_views(concrete@);
            if !insert_region(&mut concrete, region) {
                let mut message = "duplicate region `".to_owned();
                message.append(value.as_str());
                message.append("`");
                return Err(message);
            }
            proof {
                assert(vals.subrange(0, i + 1) =~= vals.subrange(0, i as int).push(vals[i as int]));
                assert(region_views(concrete@).contains(vals[i as int]));
                assert(region_views(concrete@).len() > 0);
            }
            i = i + 1;
        }
        assert(vals.subrange(0, values.len() as int) =~= vals);
        Ok(concrete)
    }

    /// Parse a source list of permitted regions.
    pub fn parse_only(values: &[String]) -> (r: Result<RegionSet, String>)
        ensures
            r is Ok <==> region_list_problem(string_views(values@)) is None,
            r matches Ok(s) ==> (s@ matches RegionSetView::Only(q) && sorted_set_of(
                q,
                string_views(values@),
            )),
            r matches Err(e) ==> region_list_problem(string_views(values@)) == Some(e@),
    {
        match RegionSet::parse_values(values) {
            Ok(v) => Ok(RegionSet(RegionSetKind::Only(v))),
            Err(e) => Err(e),
        }
    }

    /// Parse a source list of excluded regions.
    pub fn parse_except(values: &[String]) -> (r: Result<RegionSet, String>)
        ensures
            r is Ok <==> region_list_problem(string_views(values@)) is None,
            r matches Ok(s) ==> (s@ matches RegionSetView::Except(q) && sorted_set_of(
                q,
                string_views(values@),
            )),
            r matches Err(e) ==> region_list_problem(string_views(values@)) == Some(e@),
    {
        match RegionSet::parse_values(values) {
            Ok(v) => Ok(RegionSet(RegionSetKind::Except(v))),
            Err(e) => Err(e),
        }
    }

    /// Whether this region set is unrestricted.
    pub fn is_any(&self) -> (r: bool)
        ensures
            r == (self@ == RegionSetView::Any),
    {
        match &self.0 {
            RegionSetKind::Any => true,
            _ => false,
        }
    }

    /// Whether this set contains exactly one specified concrete region.
    pub fn is_only(&self, region: &Region) -> (r: bool)
        ensures
            r == set_is_only(self@, region@),
    {
        match &self.0 {
            RegionSetKind::Only(v) => v.len() == 1 && v[0].same(region),
            _ => false,
        }
    }

    /// Whether this restricted set permits a region; unrestricted sets permit none here.
    pub fn contains(&self, region: &Region) -> (r: bool)
        ensures
            r == set_contains(self@, region@),
    {
        match &self.0 {
            RegionSetKind::Any => false,
            RegionSetKind::Only(v) => has_region(v, region),
            RegionSetKind::Except(v) => !has_region(v, region),
        }
    }

    /// Whether this restricted set rejects a region; unrestricted sets reject none.
    pub fn excludes(&self, region: &Region) -> (r: bool)
        ensures
            r == set_excludes(self@, region@),
    {
        match &self.0 {
            RegionSetKind::Any => false,
            RegionSetKind::Only(v) => !has_region(v, region),
            RegionSetKind::Except(v) => has_region(v, region),
        }
    }

    /// The explicitly mentioned regions in increasing order; unrestricted sets mention none.
    pub fn mentioned_regions(&self) -> (r: Vec<Region>)
        ensures
            region_views(r@) == mentioned(self@),
            strictly_sorted(region_views(r@)),
    {
        proof {
            use_type_invariant(self);
        }
        match &self.0 {
            RegionSetKind::Any => {
                let r: Vec<Region> = Vec::new();
                assert(region_views(r@) =~= Seq::<Seq<char>>::empty());
                r
            },
            RegionSetKind::Only(v) => clone_regions(v),
            RegionSetKind::Except(v) => clone_regions(v),
        }
    }

    /// Whether this set names `region` explicitly.
    pub fn mentions(&self, region: &Region) -> (r: bool)
        ensures
            r == mentioned(self@).contains(region@),
    {
        match &self.0 {
            RegionSetKind::Any => false,
            RegionSetKind::Only(v) => has_region(v, region),
            RegionSetKind::Except(v) => has_region(v, region),
        }
    }

    /// Whether two region sets are equal.
    pub fn same(&self, other: &RegionSet) -> (r: bool)
        ensures
            r == (self@ == other@),
    {
        match (&self.0, &other.0) {
            (RegionSetKind::Any, RegionSetKind::Any) => true,
            (RegionSetKind::Only(a), RegionSetKind::Only(b)) => same_regions(a, b),
            (RegionSetKind::Except(a), RegionSetKind::Except(b)) => same_regions(a, b),
            _ => false,
        }
    }

    /// The human-readable form: `any`, `a, b`, or `except a, b`.
    pub fn render(&self) -> (r: String)
        ensures
            r@ == region_set_text(self@),
    {
        match &self.0 {
            RegionSetKind::Any => "any".to_owned(),
            RegionSetKind::Only(v) => join_region_names(v),
            RegionSetKind::Except(v) => {
                let mut r = "except ".to_owned();
                let joined = join_region_names(v);
                r.append(joined.as_str());
                r
            },
        }
    }
}

impl Clone for RegionSet {
    fn clone(&self) -> (r: RegionSet)
        ensures
            r@ == self@,
    {
        proof {
            use_type_invariant(self);
        }
        match &self.0 {
            RegionSetKind::Any => RegionSet(RegionSetKind::Any),
            RegionSetKind::Only(v) => RegionSet(RegionSetKind::Only(clone_regions(v))),
            RegionSetKind::Except(v) => RegionSet(RegionSetKind::Except(clone_regions(v))),
        }
    }
}

fn same_regions(a: &Vec<Region>, b: &Vec<Region>) -> (r: bool)
    ensures
        r == (region_views(a@) == region_views(b@)),
{
    if a.len() != b.len() {
        assert(region_views(a@).len() != region_views(b@).len());
        return false;
    }
    let mut i: usize = 0;
    while i < a.len()
        invariant
            i <= a.len(),
            a.len() == b.len(),
            forall|j: int| 0 <= j < i ==> a@[j]@ == b@[j]@,
        decreases a.len() - i,
    {
        if !a[i].same(&b[i]) {
            assert(region_views(a@)[i as int] == a@[i as int]@);
            assert(region_views(b@)[i as int] == b@[i as int]@);
            return false;
        }
        i = i + 1;
    }
    assert(region_views(a@) =~= region_views(b@));
    true
}

fn join_region_names(v: &Vec<Region>) -> (r: String)
    ensures
        r@ == comma_joined(region_views(v@)),
{
    let ghost q = region_views(v@);
    let mut r = String::new();
    let mut i: usize = 0;
    while i < v.len()
        invariant
            q == region_views(v@),
            i <= v.len(),
            r@ == comma_joined(q.take(i as int)),
        decreases v.len() - i,
    {
        assert(q.take(i + 1).drop_last() =~= q.take(i as int));
        if i > 0 {
            r.append(", ");
        } else {
            assert(q.take(1) =~= seq![q[0]]);
            assert(r@ =~= Seq::<char>::empty());
        }
        r.append(v[i].as_str());
        proof {
            if i > 0 {
                assert(q.take(i + 1).last() == v@[i as int]@);
            }
        }
        i = i + 1;
    }
    assert(q.take(v.len() as int) =~= q);
    r
}

/// Two strictly increasing lists with the same members are equal.
pub proof fn lemma_sorted_lists_equal(a: Seq<Seq<char>>, b: Seq<Seq<char>>)
    requires
        strictly_sorted(a),
        strictly_sorted(b),
        forall|x: Seq<char>| a.contains(x) <==> b.contains(x),
    ensures
        a == b,
    decreases a.len() + b.len(),
{
    if a.len() == 0 {
        if b.len() > 0 {
            assert(b.contains(b[0]));
        }
        assert(a =~= b);
    } else if b.len() == 0 {
        assert(a.contains(a[0]));
    } else {
        assert(a.contains(a[0]));
        assert(b.contains(b[0]));
        let i = choose|i: int| 0 <= i < b.len() && b[i] == a[0];
        let j = choose|j: int| 0 <= j < a.len() && a[j] == b[0];
        if i > 0 {
            assert(lex_less(b[0], b[i]));
            if j > 0 {
                assert(lex_less(a[0], a[j]));
                lemma_lex_asymmetric(a[0], b[0]);
            } else {
                lemma_lex_irreflexive(a[0]);
            }
        }
        assert(a[0] == b[0]);
        let a1 = a.drop_first();
        let b1 = b.drop_first();
        assert forall|x: Seq<char>| a1.contains(x) <==> b1.contains(x) by {
            if a1.contains(x) {
                let k = choose|k: int| 0 <= k < a1.len() && a1[k] == x;
                assert(lex_less(a[0], a[k + 1]));
                lemma_lex_irreflexive(x);
                assert(b.contains(x));
                let m = choose|m: int| 0 <= m < b.len() && b[m] == x;
                assert(m != 0);
                assert(b1[m - 1] == x);
            }
            if b1.contains(x) {
                let k = choose|k: int| 0 <= k < b1.len() && b1[k] == x;
                assert(lex_less(b[0], b[k + 1]));
                lemma_lex_irreflexive(x);
                assert(a.contains(x));
                let m = choose|m: int| 0 <= m < a.len() && a[m] == x;
                assert(m != 0);
                assert(a1[m - 1] == x);
            }
        }
        assert(strictly_sorted(a1)) by {
            assert forall|p: int, q: int| 0 <= p < q < a1.len() implies lex_less(
                #[trigger] a1[p],
                #[trigger] a1[q],
            ) by {
                assert(lex_less(a[p + 1], a[q + 1]));
            }
        }
        assert(strictly_sorted(b1)) by {
            assert forall|p: int, q: int| 0 <= p < q < b1.len() implies lex_less(
                #[trigger] b1[p],
                #[trigger] b1[q],
            ) by {
                assert(lex_less(b[p + 1], b[q + 1]));
            }
        }
        lemma_sorted_lists_equal(a1, b1);
        assert(a =~= seq![a[0]] + a1);
        assert(b =~= seq![b[0]] + b1);
    }
}

/// The members of `items`, distinct and in strictly increasing order.
pub open spec fn sorted_members(items: Seq<Seq<char>>) -> Seq<Seq<char>> {
    choose|q: Seq<Seq<char>>| sorted_set_of(q, items)
}

/// A sorted member list is the sorted member list.
pub proof fn lemma_sorted_members(q: Seq<Seq<char>>, items: Seq<Seq<char>>)
    requires
        sorted_set_of(q, items),
    ensures
        sorted_members(items) == q,
{
    let c = sorted_members(items);
    assert(sorted_set_of(c, items));
    lemma_sorted_lists_equal(c, q);
}

} // verus!
