use hapkmer::kmer2bit::Kmer2bit;
use hapkmer::nucleotide::{dna_quartet2u8, nucleotide_code, u82dna_quartet};

#[test]
fn packs_most_significant_first() {
    let k = Kmer2bit::<1>::from_string("ACGT").unwrap();
    assert_eq!(k.vec, [0b0001_1011]);
    let k = Kmer2bit::<2>::from_string("TTTTAAAA").unwrap();
    assert_eq!(k.vec, [255, 0]);
}

#[test]
fn lower_case_is_accepted() {
    let a = Kmer2bit::<2>::from_string("acgtTGCA").unwrap();
    let b = Kmer2bit::<2>::from_string("ACGTtgca").unwrap();
    assert_eq!(a, b);
}

#[test]
fn decode_gives_upper_case() {
    let k = Kmer2bit::<2>::from_string("gattacaA").unwrap();
    assert_eq!(k.get_kmer_string(), Some("GATTACAA".to_string()));
}

#[test]
fn round_trip_every_quartet_in_mixed_case() {
    let letters = [b'A', b'C', b'G', b'T', b'a', b'c', b'g', b't'];
    for a in letters {
        for b in letters {
            for c in letters {
                for d in letters {
                    let s = String::from_utf8(vec![a, b, c, d]).unwrap();
                    let k = Kmer2bit::<1>::from_string(&s).unwrap();
                    assert_eq!(k.get_kmer_string().unwrap(), s.to_uppercase());
                }
            }
        }
    }
}

#[test]
fn rejects_any_other_letter() {
    assert!(Kmer2bit::<1>::from_string("ACGN").is_none());
    assert!(Kmer2bit::<1>::from_string("NACG").is_none());
    assert!(Kmer2bit::<2>::from_string("ACGTACG-").is_none());
    assert!(Kmer2bit::<2>::from_string("uCGTACGT").is_none());
    assert!(Kmer2bit::<1>::from_bytes(&[b'A', b'C', 0xC3, b'G']).is_none());
}

#[test]
fn reencoding_decoded_bytes_is_identity() {
    for x in 0..=255u8 {
        for y in [0u8, 17, 128, 255] {
            let k = Kmer2bit::<2> { vec: [x, y] };
            let s = k.get_kmer_string().unwrap();
            assert_eq!(Kmer2bit::<2>::from_string(&s), Some(k));
        }
    }
}

#[test]
fn key_is_big_endian() {
    let k = Kmer2bit::<2> { vec: [1, 2] };
    assert_eq!(k.key(), 258);
    let k = Kmer2bit::<8> { vec: [255; 8] };
    assert_eq!(k.key(), u64::MAX);
}

#[test]
fn quartet_helpers() {
    assert_eq!(dna_quartet2u8(b"TTTT"), Some(255));
    assert_eq!(dna_quartet2u8(b"acgt"), Some(27));
    assert_eq!(dna_quartet2u8(b"ACGX"), None);
    assert_eq!(u82dna_quartet(27), *b"ACGT");
    assert_eq!(nucleotide_code(b'g'), Some(2));
    assert_eq!(nucleotide_code(b'N'), None);
}
