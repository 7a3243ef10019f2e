//! Nucleotide letters, their 2-bit codes, and groups of four codes packed in a byte.
use vstd::prelude::*;

verus! {

/// True of the letters A, C, G, T in either case.
pub open spec fn is_nucleotide(b: u8) -> bool {
    b == 65 || b == 97 || b == 67 || b == 99 || b == 71 || b == 103 || b == 84 || b == 116
}

/// The 2-bit code of a nucleotide letter: A = 0, C = 1, G = 2, T = 3 (0 for any other byte).
pub open spec fn code_of(b: u8) -> u8 {
    if b == 67 || b == 99 {
        1
    } else if b == 71 || b == 103 {
        2
    } else if b == 84 || b == 116 {
        3
    } else {
        0
    }
}

/// The upper-case letter of a 2-bit code.
pub open spec fn code_letter(c: u8) -> u8 {
    if c == 0 {
        65
    } else if c == 1 {
        67
    } else if c == 2 {
        71
    } else {
        84
    }
}

/// Four 2-bit codes in one byte, the first in the two most significant bits.
pub open spec fn pack_codes(a: u8, b: u8, c: u8, d: u8) -> u8 {
    ((a << 6u8) | (b << 4u8) | (c << 2u8) | d) as u8
}

/// The `j`-th 2-bit code of a byte, counting from the most significant bits.
pub open spec fn slot(x: u8, j: int) -> u8 {
    if j == 0 {
        (x >> 6u8) & 3u8
    } else if j == 1 {
        (x >> 4u8) & 3u8
    } else if j == 2 {
        (x >> 2u8) & 3u8
    } else {
        x & 3u8
    }
}

/// What a group of four letters packs to, if all four are nucleotides.
pub open spec fn quartet_byte(q: Seq<u8>) -> Option<u8> {
    if is_nucleotide(q[0]) && is_nucleotide(q[1]) && is_nucleotide(q[2]) && is_nucleotide(q[3]) {
        Some(pack_codes(code_of(q[0]), code_of(q[1]), code_of(q[2]), code_of(q[3])))
    } else {
        None
    }
}

/// The four upper-case letters that a byte unpacks to.
pub open spec fn quartet_letters(x: u8) -> Seq<u8> {
    seq![
        code_letter(slot(x, 0)),
        code_letter(slot(x, 1)),
        code_letter(slot(x, 2)),
        code_letter(slot(x, 3)),
    ]
}

/// Unpacking four packed codes gives each code back.
pub proof fn lemma_slots_of_pack(a: u8, b: u8, c: u8, d: u8)
    requires
        a < 4,
        b < 4,
        c < 4,
        d < 4,
    ensures
        slot(pack_codes(a, b, c, d), 0) == a,
        slot(pack_codes(a, b, c, d), 1) == b,
        slot(pack_codes(a, b, c, d), 2) == c,
        slot(pack_codes(a, b, c, d), 3) == d,
{
    assert((((a << 6u8) | (b << 4u8) | (c << 2u8) | d) as u8 >> 6u8) & 3u8 == a) by (bit_vector)
        requires
            a < 4,
            b < 4,
            c < 4,
            d < 4,
    ;
    assert((((a << 6u8) | (b << 4u8) | (c << 2u8) | d) as u8 >> 4u8) & 3u8 == b) by (bit_vector)
        requires
            a < 4,
            b < 4,
            c < 4,
            d < 4,
    ;
    assert((((a << 6u8) | (b << 4u8) | (c << 2u8) | d) as u8 >> 2u8) & 3u8 == c) by (bit_vector)
        requires
            a < 4,
            b < 4,
            c < 4,
            d < 4,
    ;
    assert(((a << 6u8) | (b << 4u8) | (c << 2u8) | d) as u8 & 3u8 == d) by (bit_vector)
        requires
            a < 4,
            b < 4,
            c < 4,
            d < 4,
    ;
}

/// Packing the four codes of a byte gives the byte back.
pub proof fn lemma_pack_of_slots(x: u8)
    ensures
        pack_codes(slot(x, 0), slot(x, 1), slot(x, 2), slot(x, 3)) == x,
        slot(x, 0) < 4,
        slot(x, 1) < 4,
        slot(x, 2) < 4,
        slot(x, 3) < 4,
{
    assert((((((x >> 6u8) & 3u8) << 6u8) | (((x >> 4u8) & 3u8) << 4u8) | (((x >> 2u8) & 3u8)
        << 2u8) | (x & 3u8)) as u8) == x) by (bit_vector);
    assert((x >> 6u8) & 3u8 < 4 && (x >> 4u8) & 3u8 < 4 && (x >> 2u8) & 3u8 < 4 && x & 3u8 < 4)
        by (bit_vector);
}

/// The 2-bit code of one letter, or `None` for a byte that is not a nucleotide.
pub fn nucleotide_code(b: u8) -> (r: Option<u8>)
    ensures
        r == (if is_nucleotide(b) {
            Some(code_of(b))
        } else {
            None::<u8>
        }),
{
    match b {
        65 | 97 => Some(0),
        67 | 99 => Some(1),
        71 | 103 => Some(2),
        84 | 116 => Some(3),
        _ => None,
    }
}

/// Packs four nucleotide letters into one byte, or `None` if one of them is not a nucleotide.
pub fn dna_quartet2u8(q: &[u8]) -> (r: Option<u8>)
    requires
        q@.len() == 4,
    ensures
        r == quartet_byte(q@),
{
    let a = match nucleotide_code(q[0]) {
        Some(c) => c,
        None => return None,
    };
    let b = match nucleotide_code(q[1]) {
        Some(c) => c,
        None => return None,
    };
    let c = match nucleotide_code(q[2]) {
        Some(c) => c,
        None => return None,
    };
    let d = match nucleotide_code(q[3]) {
        Some(c) => c,
        None => return None,
    };
    Some((a << 6u8) | (b << 4u8) | (c << 2u8) | d)
}

/// The upper-case letter of a 2-bit code.
pub fn letter_of_code(c: u8) -> (r: u8)
    requires
        c < 4,
    ensures
        r == code_letter(c),
{
    if c == 0 {
        65
    } else if c == 1 {
        67
    } else if c == 2 {
        71
    } else {
        84
    }
}

/// Unpacks a byte into its four upper-case nucleotide letters.
pub fn u82dna_quartet(x: u8) -> (r: [u8; 4])
    ensures
        r@ == quartet_letters(x),
{
    proof {
        lemma_pack_of_slots(x);
    }
    let r = [
        letter_of_code((x >> 6u8) & 3u8),
        letter_of_code((x >> 4u8) & 3u8),
        letter_of_code((x >> 2u8) & 3u8),
        letter_of_code(x & 3u8),
    ];
    assert(r@ =~= quartet_letters(x));
    r
}

} // verus!
