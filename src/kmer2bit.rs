//! Fixed-width DNA k-mers: `4 * K` nucleotides packed into `K` bytes.
use vstd::prelude::*;
use vstd::string::StringSliceAdditionalSpecFns;
use crate::nucleotide::{
    is_nucleotide, code_of, code_letter, pack_codes, slot,
    lemma_slots_of_pack, lemma_pack_of_slots, dna_quartet2u8, u82dna_quartet,
};

verus! {

/// True when every byte of `s` is a nucleotide letter.
pub open spec fn all_nucleotides(s: Seq<u8>) -> bool {
    forall|i: int| 0 <= i < s.len() ==> #[trigger] is_nucleotide(s[i])
}

/// The byte that the `j`-th group of four letters of `s` packs to.
pub open spec fn packed_quartet(s: Seq<u8>, j: int) -> u8 {
    pack_codes(code_of(s[4 * j]), code_of(s[4 * j + 1]), code_of(s[4 * j + 2]), code_of(s[4 * j + 3]))
}

/// The `k` packed bytes of a string of `4 * k` nucleotide letters; `None` if the string has
/// another length or holds a byte that is not a nucleotide.
pub open spec fn encode_kmer(s: Seq<u8>, k: nat) -> Option<Seq<u8>> {
    if s.len() == 4 * k && all_nucleotides(s) {
        Some(Seq::new(k, |j: int| packed_quartet(s, j)))
    } else {
        None
    }
}

/// The upper-case letters that packed bytes stand for, four per byte.
pub open spec fn decode_kmer(e: Seq<u8>) -> Seq<u8> {
    Seq::new(4 * e.len(), |i: int| code_letter(slot(e[i / 4], i % 4)))
}

/// A nucleotide string in upper case.
pub open spec fn upper_nucleotides(s: Seq<u8>) -> Seq<u8> {
    Seq::new(s.len(), |i: int| code_letter(code_of(s[i])))
}

/// Bytes read as the characters of the same code point.
pub open spec fn chars_of(s: Seq<u8>) -> Seq<char> {
    Seq::new(s.len(), |i: int| s[i] as char)
}

proof fn lemma_div_mod_four(i: int)
    requires
        0 <= i,
    ensures
        i == 4 * (i / 4) + i % 4,
        0 <= i % 4 < 4,
        0 <= i / 4,
{
}

proof fn lemma_four_j_plus(j: int, r: int)
    requires
        0 <= j,
        0 <= r < 4,
    ensures
        (4 * j + r) / 4 == j,
        (4 * j + r) % 4 == r,
{
}

/// Decoding what a nucleotide string encodes to gives the string in upper case.
pub proof fn lemma_round_trip(s: Seq<u8>, k: nat)
    requires
        s.len() == 4 * k,
        all_nucleotides(s),
    ensures
        encode_kmer(s, k) is Some,
        decode_kmer(encode_kmer(s, k)->0) == upper_nucleotides(s),
{
    let e = encode_kmer(s, k)->0;
    assert forall|i: int| 0 <= i < s.len() implies #[trigger] decode_kmer(e)[i] == upper_nucleotides(s)[i] by {
        lemma_div_mod_four(i);
        let j = i / 4;
        assert(code_of(s[4 * j]) < 4 && code_of(s[4 * j + 1]) < 4);
        assert(code_of(s[4 * j + 2]) < 4 && code_of(s[4 * j + 3]) < 4);
        lemma_slots_of_pack(code_of(s[4 * j]), code_of(s[4 * j + 1]), code_of(s[4 * j + 2]), code_of(s[4 * j + 3]));
    }
    assert(decode_kmer(e) =~= upper_nucleotides(s));
}

/// A string of `4 * k` bytes, one of which is not a nucleotide letter, has no encoding.
pub proof fn lemma_rejects_non_nucleotide(s: Seq<u8>, k: nat, i: int)
    requires
        s.len() == 4 * k,
        0 <= i < s.len(),
        !is_nucleotide(s[i]),
    ensures
        encode_kmer(s, k) is None,
{
}

/// Encoding the letters that packed bytes decode to gives the same bytes back.
pub proof fn lemma_reencode_decoded(e: Seq<u8>)
    ensures
        encode_kmer(decode_kmer(e), e.len()) == Some(e),
{
    let d = decode_kmer(e);
    assert forall|i: int| 0 <= i < d.len() implies #[trigger] is_nucleotide(d[i]) by {
        lemma_div_mod_four(i);
        lemma_pack_of_slots(e[i / 4]);
    }
    assert forall|j: int| 0 <= j < e.len() implies #[trigger] packed_quartet(d, j) == e[j] by {
        lemma_four_j_plus(j, 0);
        lemma_four_j_plus(j, 1);
        lemma_four_j_plus(j, 2);
        lemma_four_j_plus(j, 3);
        lemma_pack_of_slots(e[j]);
    }
    assert(Seq::new(e.len(), |j: int| packed_quartet(d, j)) =~= e);
}

/// The packed bytes read as one big-endian number.
pub open spec fn key_of(e: Seq<u8>) -> nat
    decreases e.len(),
{
    if e.len() == 0 {
        0
    } else {
        key_of(e.drop_last()) * 256 + e.last() as nat
    }
}

/// 256 to the power `n`.
pub open spec fn pow256(n: nat) -> nat
    decreases n,
{
    if n == 0 {
        1
    } else {
        256 * pow256((n - 1) as nat)
    }
}

proof fn lemma_key_bound(e: Seq<u8>)
    ensures
        key_of(e) < pow256(e.len()),
    decreases e.len(),
{
    if e.len() > 0 {
        lemma_key_bound(e.drop_last());
        let k = key_of(e.drop_last());
        let p = pow256(e.drop_last().len());
        let l = e.last() as nat;
        assert(k * 256 + l < 256 * p) by (nonlinear_arith)
            requires
                k < p,
                l < 256,
        ;
    }
}

proof fn lemma_pow256_bound(n: nat)
    requires
        n <= 8,
    ensures
        pow256(n) <= 0x1_0000_0000_0000_0000,
    decreases 8 - n,
{
    if n < 8 {
        lemma_pow256_bound(n + 1);
        assert(pow256(n + 1) == 256 * pow256(n));
    } else {
        assert(pow256(0) == 1);
        assert(pow256(1) == 0x100);
        assert(pow256(2) == 0x1_0000);
        assert(pow256(3) == 0x100_0000);
        assert(pow256(4) == 0x1_0000_0000);
        assert(pow256(5) == 0x100_0000_0000);
        assert(pow256(6) == 0x1_0000_0000_0000);
        assert(pow256(7) == 0x100_0000_0000_0000);
        assert(pow256(8) == 0x1_0000_0000_0000_0000);
    }
}

/// The key of at most eight packed bytes fits in 64 bits.
pub proof fn lemma_key_fits(e: Seq<u8>)
    requires
        e.len() <= 8,
    ensures
        key_of(e) < 0x1_0000_0000_0000_0000,
{
    lemma_key_bound(e);
    lemma_pow256_mono(e.len(), 8);
    lemma_pow256_bound(8);
}

proof fn lemma_pow256_mono(a: nat, b: nat)
    requires
        a <= b,
    ensures
        pow256(a) <= pow256(b),
    decreases b - a,
{
    if a < b {
        lemma_pow256_mono(a, (b - 1) as nat);
    }
}

/// Two packed k-mers of one length with the same key are equal.
pub proof fn lemma_key_injective(a: Seq<u8>, b: Seq<u8>)
    requires
        a.len() == b.len(),
        key_of(a) == key_of(b),
    ensures
        a == b,
    decreases a.len(),
{
    if a.len() > 0 {
        let ka = key_of(a.drop_last());
        let kb = key_of(b.drop_last());
        let la = a.last() as nat;
        let lb = b.last() as nat;
        assert(ka == kb && la == lb) by (nonlinear_arith)
            requires
                ka * 256 + la == kb * 256 + lb,
                la < 256,
                lb < 256,
        ;
        lemma_key_injective(a.drop_last(), b.drop_last());
        assert(a =~= a.drop_last().push(a.last()));
        assert(b =~= b.drop_last().push(b.last()));
    } else {
        assert(a =~= b);
    }
}

/// Encoding the string that packed bytes decode to gives the same bytes back.
pub proof fn lemma_reencode_string(e: Seq<u8>, s: &str)
    requires
        s@ == chars_of(decode_kmer(e)),
    ensures
        s.spec_bytes() == decode_kmer(e),
        encode_kmer(s.spec_bytes(), e.len()) == Some(e),
{
    let d = decode_kmer(e);
    assert forall|i: int| 0 <= i < s@.len() implies '\0' <= #[trigger] s@[i] <= '\u{7f}' by {
        lemma_div_mod_four(i);
        lemma_pack_of_slots(e[i / 4]);
    }
    assert(vstd::string::is_ascii(s));
    vstd::string::is_ascii_spec_bytes(s);
    assert(s.spec_bytes() =~= d);
    lemma_reencode_decoded(e);
}

/// A k-mer of `4 * K` nucleotides, two bits each, four to a byte.
#[derive(Clone, Copy, PartialEq, Eq, Hash, Debug)]
pub struct Kmer2bit<const K: usize> {
    pub vec: [u8; K],
}

impl<const K: usize> View for Kmer2bit<K> {
    type V = Seq<u8>;

    open spec fn view(&self) -> Seq<u8> {
        self.vec@
    }
}

/// The packed bytes of an optional k-mer.
pub open spec fn kmer_view<const K: usize>(r: Option<Kmer2bit<K>>) -> Option<Seq<u8>> {
    match r {
        Some(k) => Some(k@),
        None => None,
    }
}

impl<const K: usize> Kmer2bit<K> {
    /// Encodes `4 * K` nucleotide bytes; `None` if one of them is not A, C, G or T (either case).
    pub fn from_bytes(b: &[u8]) -> (r: Option<Self>)
        requires
            b@.len() == 4 * K,
        ensures
            kmer_view(r) == encode_kmer(b@, K as nat),
    {
        let n = b.len();
        let mut twobit_array: [u8; K] = [0u8; K];
        let mut i: usize = 0;
        while i < K
            invariant
                b@.len() == 4 * K,
                n == 4 * K,
                i <= K,
                twobit_array@.len() == K,
                all_nucleotides(b@.subrange(0, 4 * i as int)),
                forall|j: int| 0 <= j < i ==> twobit_array@[j] == packed_quartet(b@, j),
            decreases K - i,
        {
            let tkmer = &b[(4 * i)..(4 * i + 4)];
            match dna_quartet2u8(tkmer) {
                Some(n) => {
                    assert(tkmer@ =~= b@.subrange(4 * i as int, 4 * i + 4));
                    twobit_array[i] = n;
                    assert forall|t: int| 0 <= t < 4 * (i + 1) implies #[trigger] is_nucleotide(
                        b@.subrange(0, 4 * (i + 1) as int)[t],
                    ) by {
                        if t < 4 * i {
                            assert(b@.subrange(0, 4 * i as int)[t] == b@[t]);
                        } else {
                            assert(tkmer@[t - 4 * i] == b@[t]);
                        }
                    }
                },
                None => {
                    assert(tkmer@ =~= b@.subrange(4 * i as int, 4 * i + 4));
                    proof {
                        let t = if !is_nucleotide(tkmer@[0]) {
                            0
                        } else if !is_nucleotide(tkmer@[1]) {
                            1
                        } else if !is_nucleotide(tkmer@[2]) {
                            2int
                        } else {
                            3int
                        };
                        assert(!is_nucleotide(b@[4 * i + t]));
                    }
                    return None;
                },
            }
            i = i + 1;
        }
        assert(b@.subrange(0, 4 * K as int) =~= b@);
        assert(twobit_array@ =~= Seq::new(K as nat, |j: int| packed_quartet(b@, j)));
        Some(Kmer2bit { vec: twobit_array })
    }

    /// Encodes a string of `4 * K` nucleotide letters; `None` if one of them is not A, C, G or
    /// T (either case).
    pub fn from_string(kmer: &str) -> (r: Option<Self>)
        requires
            kmer.spec_bytes().len() == 4 * K,
        ensures
            kmer_view(r) == encode_kmer(kmer.spec_bytes(), K as nat),
    {
        Self::from_bytes(kmer.as_bytes())
    }

    /// The packed bytes as one big-endian number; distinct k-mers have distinct keys.
    pub fn key(&self) -> (r: u64)
        requires
            K <= 8,
        ensures
            r == key_of(self@),
    {
        let mut key: u64 = 0;
        let mut i: usize = 0;
        proof {
            lemma_pow256_bound(K as nat);
        }
        while i < K
            invariant
                i <= K,
                K <= 8,
                self@.len() == K,
                key == key_of(self@.subrange(0, i as int)),
                pow256(K as nat) <= 0x1_0000_0000_0000_0000,
            decreases K - i,
        {
            proof {
                let e = self@.subrange(0, i + 1);
                assert(e.drop_last() =~= self@.subrange(0, i as int));
                lemma_key_bound(e);
                lemma_pow256_mono((i + 1) as nat, K as nat);
            }
            key = key * 256 + self.vec[i] as u64;
            i = i + 1;
        }
        assert(self@.subrange(0, K as int) =~= self@);
        key
    }

    /// The `4 * K` upper-case letters of this k-mer.
    pub fn to_bytes(&self) -> (r: Vec<u8>)
        ensures
            r@ == decode_kmer(self@),
    {
        let mut out: Vec<u8> = Vec::new();
        let mut i: usize = 0;
        while i < K
            invariant
                i <= K,
                self@.len() == K,
                out@ == decode_kmer(self@.subrange(0, i as int)),
            decreases K - i,
        {
            let q = u82dna_quartet(self.vec[i]);
            out.push(q[0]);
            out.push(q[1]);
            out.push(q[2]);
            out.push(q[3]);
            proof {
                let e = self@.subrange(0, i + 1);
                assert forall|t: int| 0 <= t < 4 * (i + 1) implies #[trigger] out@[t] == decode_kmer(e)[t] by {
                    lemma_div_mod_four(t);
                    if t >= 4 * i {
                        lemma_four_j_plus(i as int, t - 4 * i);
                    }
                }
                assert(out@ =~= decode_kmer(e));
            }
            i = i + 1;
        }
        assert(self@.subrange(0, K as int) =~= self@);
        out
    }

    /// The `4 * K` upper-case letters of this k-mer, as a string.
    pub fn get_kmer_string(&self) -> (r: Option<String>)
        ensures
            r is Some,
            r->0@ == chars_of(decode_kmer(self@)),
    {
        let letters = self.to_bytes();
        let mut s = String::new();
        let mut i: usize = 0;
        while i < letters.len()
            invariant
                i <= letters@.len(),
                letters@ == decode_kmer(self@),
                s@ == chars_of(letters@.subrange(0, i as int)),
            decreases letters@.len() - i,
        {
            let c = letters[i];
            proof {
                lemma_div_mod_four(i as int);
                lemma_pack_of_slots(self@[i as int / 4]);
            }
            if c == 65 {
                s.append("A");
            } else if c == 67 {
                s.append("C");
            } else if c == 71 {
                s.append("G");
            } else {
                s.append("T");
            }
            proof {
                reveal_strlit("A");
                reveal_strlit("C");
                reveal_strlit("G");
                reveal_strlit("T");
                assert(s@ =~= chars_of(letters@.subrange(0, i + 1)));
            }
            i = i + 1;
        }
        assert(letters@.subrange(0, letters@.len() as int) =~= letters@);
        Some(s)
    }
}

} // verus!
