//! Sliding windows over a sequence, their reverse complements, and the k-mers they encode to.
use vstd::prelude::*;
use crate::kmer2bit::encode_kmer;

verus! {

/// How many windows of length `w` a sequence of length `len` yields: one per offset
/// `0 ..= len - w - 1`, none when `len <= w`.
pub open spec fn n_windows(len: int, w: int) -> int {
    if len > w {
        len - w
    } else {
        0
    }
}

/// The window of length `w` at offset `i`.
pub open spec fn window(s: Seq<u8>, i: int, w: int) -> Seq<u8> {
    s.subrange(i, i + w)
}

/// The IUPAC complement of a DNA letter, case kept; bytes outside that alphabet (and the
/// self-complementary W, S, N) are their own complement.
pub open spec fn dna_complement(b: u8) -> u8 {
    match b {
        65 => 84,
        84 => 65,
        67 => 71,
        71 => 67,
        89 => 82,
        82 => 89,
        75 => 77,
        77 => 75,
        68 => 72,
        72 => 68,
        86 => 66,
        66 => 86,
        97 => 116,
        116 => 97,
        99 => 103,
        103 => 99,
        121 => 114,
        114 => 121,
        107 => 109,
        109 => 107,
        100 => 104,
        104 => 100,
        118 => 98,
        98 => 118,
        _ => b,
    }
}

/// The reverse complement: complement each letter, then reverse.
pub open spec fn reverse_complement_of(s: Seq<u8>) -> Seq<u8> {
    Seq::new(s.len(), |i: int| dna_complement(s[s.len() - 1 - i]))
}

/// Relies on bio::alphabets::dna::revcomp: the bytes in reverse order, each mapped through
/// bio's IUPAC complement table (case kept, other bytes unchanged).
#[verifier::external_body]
pub(crate) fn reverse_complement(w: &[u8]) -> (r: Vec<u8>)
    ensures
        r@ == reverse_complement_of(w@),
{
    bio::alphabets::dna::revcomp(w)
}

/// The one k-mer that an encoding yields, or none.
pub open spec fn encoded_list(o: Option<Seq<u8>>) -> Seq<Seq<u8>> {
    match o {
        Some(e) => seq![e],
        None => Seq::empty(),
    }
}

/// The k-mers that the window at offset `i` contributes: its own encoding, then, with
/// `with_rc`, that of its reverse complement; a window that fails to encode contributes nothing.
pub open spec fn window_kmers(s: Seq<u8>, k: nat, i: int, with_rc: bool) -> Seq<Seq<u8>> {
    let w = window(s, i, (4 * k) as int);
    encoded_list(encode_kmer(w, k)) + if with_rc {
        encoded_list(encode_kmer(reverse_complement_of(w), k))
    } else {
        Seq::empty()
    }
}

/// The k-mers of the first `n` windows of `s`, in order.
pub open spec fn prefix_kmers(s: Seq<u8>, k: nat, with_rc: bool, n: int) -> Seq<Seq<u8>>
    decreases n,
{
    if n <= 0 {
        Seq::empty()
    } else {
        prefix_kmers(s, k, with_rc, n - 1) + window_kmers(s, k, n - 1, with_rc)
    }
}

/// The k-mers of all windows of `s`, in order.
pub open spec fn sequence_kmers(s: Seq<u8>, k: nat, with_rc: bool) -> Seq<Seq<u8>> {
    prefix_kmers(s, k, with_rc, n_windows(s.len() as int, (4 * k) as int))
}

/// The k-mers of all windows of all sequences, in order.
pub open spec fn collection_kmers(seqs: Seq<Seq<u8>>, k: nat, with_rc: bool) -> Seq<Seq<u8>>
    decreases seqs.len(),
{
    if seqs.len() == 0 {
        Seq::empty()
    } else {
        collection_kmers(seqs.drop_last(), k, with_rc) + sequence_kmers(seqs.last(), k, with_rc)
    }
}

/// How many times `m` occurs in `l`.
pub open spec fn occurrences(l: Seq<Seq<u8>>, m: Seq<u8>) -> nat
    decreases l.len(),
{
    if l.len() == 0 {
        0
    } else {
        occurrences(l.drop_last(), m) + if l.last() == m {
            1nat
        } else {
            0nat
        }
    }
}

/// Appending one k-mer adds one to its own count and leaves the others.
pub proof fn lemma_occurrences_push(l: Seq<Seq<u8>>, x: Seq<u8>, m: Seq<u8>)
    ensures
        occurrences(l.push(x), m) == occurrences(l, m) + if x == m {
            1nat
        } else {
            0nat
        },
{
    assert(l.push(x).drop_last() =~= l);
}

/// No k-mer occurs more often than the list is long.
pub proof fn lemma_occurrences_bound(l: Seq<Seq<u8>>, m: Seq<u8>)
    ensures
        occurrences(l, m) <= l.len(),
    decreases l.len(),
{
    if l.len() > 0 {
        lemma_occurrences_bound(l.drop_last(), m);
    }
}

proof fn lemma_prefix_kmers_len(s: Seq<u8>, k: nat, with_rc: bool, n: int)
    ensures
        prefix_kmers(s, k, with_rc, n).len() <= 2 * (if n > 0 { n } else { 0 }),
    decreases n,
{
    if n > 0 {
        lemma_prefix_kmers_len(s, k, with_rc, n - 1);
    }
}

/// A sequence yields at most two k-mers per byte.
pub proof fn lemma_sequence_kmers_len(s: Seq<u8>, k: nat, with_rc: bool)
    ensures
        sequence_kmers(s, k, with_rc).len() <= 2 * s.len(),
{
    lemma_prefix_kmers_len(s, k, with_rc, n_windows(s.len() as int, (4 * k) as int));
}

/// A sequence no longer than a window yields no window, hence no k-mer.
pub proof fn lemma_short_sequence_no_kmers(s: Seq<u8>, k: nat, with_rc: bool)
    requires
        s.len() <= 4 * k,
    ensures
        sequence_kmers(s, k, with_rc) == Seq::<Seq<u8>>::empty(),
{
}

} // verus!
