//! Read binning: count, for each read, the forward windows that match each haplotype's k-mers.
use vstd::prelude::*;
use vstd::string::StringSliceAdditionalSpecFns;
use vstd::slice::slice_to_vec;
use std::collections::HashSet;
use crate::kmer2bit::{
    Kmer2bit, key_of, lemma_key_injective, lemma_key_fits, encode_kmer, decode_kmer,
    lemma_round_trip, upper_nucleotides,
};
use crate::windows::{n_windows, window};
use crate::discovery::KmerRow;
use vstd::utf8::encode_utf8;

verus! {

broadcast use vstd::std_specs::hash::group_hash_axioms;

/// True of the upper-case letters A, C, G, T.
pub open spec fn is_upper_nucleotide(b: u8) -> bool {
    b == 65 || b == 67 || b == 71 || b == 84
}

/// `4 * k` upper-case nucleotide letters: the strings that discovery writes.
pub open spec fn is_upper_kmer(s: Seq<u8>, k: nat) -> bool {
    s.len() == 4 * k && forall|i: int| 0 <= i < s.len() ==> #[trigger] is_upper_nucleotide(s[i])
}

/// How many of the first `n` windows of length `w` of `s` are in `set`.
pub open spec fn prefix_matches(s: Seq<u8>, set: Set<Seq<u8>>, w: int, n: int) -> nat
    decreases n,
{
    if n <= 0 {
        0
    } else {
        prefix_matches(s, set, w, n - 1) + if set.contains(window(s, n - 1, w)) {
            1nat
        } else {
            0nat
        }
    }
}

/// How many windows of length `w` of `s` are in `set`.
pub open spec fn window_matches(s: Seq<u8>, set: Set<Seq<u8>>, w: int) -> nat {
    prefix_matches(s, set, w, n_windows(s.len() as int, w))
}

proof fn lemma_upper_kmer_round_trip(s: Seq<u8>, k: nat)
    requires
        is_upper_kmer(s, k),
    ensures
        encode_kmer(s, k) is Some,
        decode_kmer(encode_kmer(s, k)->0) == s,
{
    assert forall|i: int| 0 <= i < s.len() implies #[trigger] crate::nucleotide::is_nucleotide(s[i]) by {
        assert(is_upper_nucleotide(s[i]));
    }
    lemma_round_trip(s, k);
    assert forall|i: int| 0 <= i < s.len() implies #[trigger] upper_nucleotides(s)[i] == s[i] by {
        assert(is_upper_nucleotide(s[i]));
    }
    assert(upper_nucleotides(s) =~= s);
}

/// The k-mer strings of one haplotype: upper-case k-mers by the key of their encoding, any
/// other string as it is.
pub struct KmerSet<const K: usize> {
    keys: HashSet<u64>,
    others: Vec<Vec<u8>>,
    members: Ghost<Set<Seq<u8>>>,
}

impl<const K: usize> View for KmerSet<K> {
    type V = Set<Seq<u8>>;

    closed spec fn view(&self) -> Set<Seq<u8>> {
        self.members@
    }
}

impl<const K: usize> KmerSet<K> {
    /// Each upper-case member's key is in `keys`, each key belongs to an upper-case member, and
    /// `others` lists the other members.
    pub closed spec fn wf(&self) -> bool {
        &&& K <= 8
        &&& forall|key: u64| #[trigger]
            self.keys@.contains(key) ==> exists|s: Seq<u8>|
                #[trigger] self.members@.contains(s) && is_upper_kmer(s, K as nat) && key_of(
                    encode_kmer(s, K as nat)->0,
                ) == key
        &&& forall|s: Seq<u8>|
            #[trigger] self.members@.contains(s) && is_upper_kmer(s, K as nat) ==> self.keys@.contains(
                key_of(encode_kmer(s, K as nat)->0) as u64,
            )
        &&& forall|i: int|
            0 <= i < self.others@.len() ==> self.members@.contains(#[trigger] self.others@[i]@)
                && !is_upper_kmer(self.others@[i]@, K as nat)
        &&& forall|s: Seq<u8>|
            #[trigger] self.members@.contains(s) && !is_upper_kmer(s, K as nat) ==> exists|i: int|
                0 <= i < self.others@.len() && #[trigger] self.others@[i]@ == s
    }

    /// An empty set.
    pub fn new() -> (r: Self)
        requires
            K <= 8,
        ensures
            r.wf(),
            r@ == Set::<Seq<u8>>::empty(),
    {
        KmerSet { keys: HashSet::new(), others: Vec::new(), members: Ghost(Set::empty()) }
    }

    /// Adds the string `s`.
    pub fn insert(&mut self, s: &[u8])
        requires
            old(self).wf(),
        ensures
            final(self).wf(),
            final(self)@ == old(self)@.insert(s@),
    {
        let ghost k = K as nat;
        let ghost m0 = self.members@;
        let upper = is_upper_kmer_exec::<K>(s);
        if upper {
            let km = Kmer2bit::<K>::from_bytes(s);
            proof {
                lemma_upper_kmer_round_trip(s@, k);
            }
            match km {
                Some(km) => {
                    let key = km.key();
                    self.keys.insert(key);
                    proof {
                        lemma_key_fits(km@);
                    }
                },
                None => {},
            }
        } else {
            self.others.push(slice_to_vec(s));
        }
        self.members = Ghost(m0.insert(s@));
        proof {
            assert forall|key: u64| #[trigger] self.keys@.contains(key) implies exists|t: Seq<u8>|
                #[trigger] self.members@.contains(t) && is_upper_kmer(t, k) && key_of(
                    encode_kmer(t, k)->0,
                ) == key by {
                if !upper || key != key_of(encode_kmer(s@, k)->0) {
                    let t = choose|t: Seq<u8>|
                        #[trigger] m0.contains(t) && is_upper_kmer(t, k) && key_of(
                            encode_kmer(t, k)->0,
                        ) == key;
                    assert(self.members@.contains(t));
                } else {
                    assert(self.members@.contains(s@));
                }
            }
            assert forall|i: int| 0 <= i < self.others@.len() implies self.members@.contains(
                #[trigger] self.others@[i]@,
            ) && !is_upper_kmer(self.others@[i]@, k) by {
                if i < old(self).others@.len() {
                    assert(old(self).others@[i] == self.others@[i]);
                }
            }
            assert forall|t: Seq<u8>|
                #[trigger] self.members@.contains(t) && !is_upper_kmer(t, k) implies exists|i: int|
                0 <= i < self.others@.len() && #[trigger] self.others@[i]@ == t by {
                if t == s@ {
                    assert(self.others@[self.others@.len() - 1]@ == t);
                } else {
                    assert(m0.contains(t));
                    let i = choose|i: int| 0 <= i < old(self).others@.len() && #[trigger] old(self).others@[i]@ == t;
                    assert(self.others@[i] == old(self).others@[i]);
                }
            }
        }
    }

    /// Whether the set holds the string `w` of `4 * K` bytes.
    pub fn contains(&self, w: &[u8]) -> (r: bool)
        requires
            self.wf(),
            w@.len() == 4 * K,
        ensures
            r == self@.contains(w@),
    {
        let ghost k = K as nat;
        if is_upper_kmer_exec::<K>(w) {
            proof {
                lemma_upper_kmer_round_trip(w@, k);
            }
            match Kmer2bit::<K>::from_bytes(w) {
                Some(km) => {
                    let key = km.key();
                    let r = self.keys.contains(&key);
                    proof {
                        lemma_key_fits(km@);
                        if r {
                            let t = choose|t: Seq<u8>|
                                #[trigger] self.members@.contains(t) && is_upper_kmer(t, k) && key_of(
                                    encode_kmer(t, k)->0,
                                ) == key;
                            lemma_upper_kmer_round_trip(t, k);
                            lemma_key_injective(encode_kmer(t, k)->0, km@);
                        }
                    }
                    r
                },
                None => false,
            }
        } else {
            let mut i: usize = 0;
            while i < self.others.len()
                invariant
                    self.wf(),
                    !is_upper_kmer(w@, k),
                    k == K,
                    i <= self.others@.len(),
                    forall|j: int| 0 <= j < i ==> self.others@[j]@ != w@,
                decreases self.others@.len() - i,
            {
                if bytes_equal(self.others[i].as_slice(), w) {
                    return true;
                }
                i = i + 1;
            }
            proof {
                if self.members@.contains(w@) {
                    let j = choose|j: int| 0 <= j < self.others@.len() && #[trigger] self.others@[j]@ == w@;
                }
            }
            false
        }
    }
}


/// The two k-mer sets after one more table line. Each count column decides on its own: the
/// k-mer joins haplotype 1 when its first count is positive, and haplotype 2 when its second
/// count is.
pub open spec fn with_row(
    t: (Set<Seq<u8>>, Set<Seq<u8>>),
    kmer: Seq<u8>,
    count_hap1: u64,
    count_hap2: u64,
) -> (Set<Seq<u8>>, Set<Seq<u8>>) {
    (
        if count_hap1 > 0 {
            t.0.insert(kmer)
        } else {
            t.0
        },
        if count_hap2 > 0 {
            t.1.insert(kmer)
        } else {
            t.1
        },
    )
}

/// The two k-mer sets (as UTF-8 bytes) that a list of table lines gives.
pub open spec fn sets_of_rows(rows: Seq<KmerRow>) -> (Set<Seq<u8>>, Set<Seq<u8>>)
    decreases rows.len(),
{
    if rows.len() == 0 {
        (Set::empty(), Set::empty())
    } else {
        with_row(
            sets_of_rows(rows.drop_last()),
            encode_utf8(rows.last().kmer@),
            rows.last().count_hap1,
            rows.last().count_hap2,
        )
    }
}

/// The haplotype-specific k-mer table, read back as one set of k-mer strings per haplotype.
/// Upper-case k-mers are looked up by the `u64` key of their packed form, so `K` is at most 8
/// (k-mers of up to 32 nucleotides).
pub struct BinTable<const K: usize> {
    hap1: KmerSet<K>,
    hap2: KmerSet<K>,
}

impl<const K: usize> View for BinTable<K> {
    /// The k-mer strings (as bytes) of haplotype 1 and of haplotype 2.
    type V = (Set<Seq<u8>>, Set<Seq<u8>>);

    closed spec fn view(&self) -> (Set<Seq<u8>>, Set<Seq<u8>>) {
        (self.hap1@, self.hap2@)
    }
}

impl<const K: usize> BinTable<K> {
    /// Both haplotype sets are well formed.
    pub closed spec fn wf(&self) -> bool {
        self.hap1.wf() && self.hap2.wf()
    }

    /// A table with no k-mer.
    pub fn new() -> (r: Self)
        requires
            K <= 8,
        ensures
            r.wf(),
            r@ == (Set::<Seq<u8>>::empty(), Set::<Seq<u8>>::empty()),
    {
        BinTable { hap1: KmerSet::new(), hap2: KmerSet::new() }
    }

    /// Takes in one table line: the k-mer goes to haplotype 1 when its first count is positive,
    /// and to haplotype 2 when its second count is; a line with both counts positive feeds both.
    pub fn add_row(&mut self, kmer: &str, count_hap1: u64, count_hap2: u64)
        requires
            old(self).wf(),
        ensures
            final(self).wf(),
            final(self)@ == with_row(old(self)@, kmer.spec_bytes(), count_hap1, count_hap2),
    {
        if count_hap1 > 0 {
            self.hap1.insert(kmer.as_bytes());
        }
        if count_hap2 > 0 {
            self.hap2.insert(kmer.as_bytes());
        }
    }

    /// The table of a list of lines, as discovery writes them.
    pub fn from_rows(rows: &Vec<KmerRow>) -> (r: Self)
        requires
            K <= 8,
        ensures
            r.wf(),
            r@ == sets_of_rows(rows@),
    {
        let mut table = Self::new();
        let mut i: usize = 0;
        while i < rows.len()
            invariant
                table.wf(),
                i <= rows@.len(),
                table@ == sets_of_rows(rows@.subrange(0, i as int)),
            decreases rows@.len() - i,
        {
            let row = &rows[i];
            table.add_row(row.kmer.as_str(), row.count_hap1, row.count_hap2);
            assert(rows@.subrange(0, i + 1).drop_last() =~= rows@.subrange(0, i as int));
            i = i + 1;
        }
        assert(rows@.subrange(0, rows@.len() as int) =~= rows@);
        table
    }

    /// For one read, how many of its forward windows of `4 * K` bytes are haplotype-1 k-mers and
    /// how many are haplotype-2 k-mers.
    pub fn bin_read(&self, seq: &[u8]) -> (r: (u64, u64))
        requires
            self.wf(),
        ensures
            r.0 == window_matches(seq@, self@.0, 4 * K),
            r.1 == window_matches(seq@, self@.1, 4 * K),
    {
        let w: usize = 4 * K;
        let len = seq.len();
        let n: usize = if len > w {
            len - w
        } else {
            0
        };
        let mut c1: u64 = 0;
        let mut c2: u64 = 0;
        let mut i: usize = 0;
        while i < n
            invariant
                self.wf(),
                w == 4 * K,
                len == seq@.len(),
                n == n_windows(seq@.len() as int, 4 * K),
                i <= n,
                c1 == prefix_matches(seq@, self@.0, 4 * K, i as int),
                c2 == prefix_matches(seq@, self@.1, 4 * K, i as int),
                c1 <= i,
                c2 <= i,
            decreases n - i,
        {
            let win = &seq[i..i + w];
            assert(win@ == window(seq@, i as int, 4 * K));
            if self.hap1.contains(win) {
                c1 = c1 + 1;
            }
            if self.hap2.contains(win) {
                c2 = c2 + 1;
            }
            i = i + 1;
        }
        (c1, c2)
    }

    /// `bin_read` of each read, in the order of the reads.
    pub fn bin_reads(&self, reads: &Vec<Vec<u8>>) -> (r: Vec<(u64, u64)>)
        requires
            self.wf(),
        ensures
            is_binning(r@, self@, seqs_of_reads(reads@), K as nat),
    {
        let mut out: Vec<(u64, u64)> = Vec::new();
        let mut i: usize = 0;
        while i < reads.len()
            invariant
                self.wf(),
                i <= reads@.len(),
                out@.len() == i,
                forall|j: int|
                    0 <= j < i ==> #[trigger] out@[j] == (
                        window_matches(reads@[j]@, self@.0, 4 * K) as u64,
                        window_matches(reads@[j]@, self@.1, 4 * K) as u64,
                    ),
            decreases reads@.len() - i,
        {
            let r = self.bin_read(reads[i].as_slice());
            out.push(r);
            i = i + 1;
        }
        out
    }
}

/// The byte sequences of a list of reads.
pub open spec fn seqs_of_reads(v: Seq<Vec<u8>>) -> Seq<Seq<u8>> {
    Seq::new(v.len(), |i: int| v[i]@)
}

/// `out` holds, for each read in order, its window matches in each haplotype's set.
pub open spec fn is_binning(
    out: Seq<(u64, u64)>,
    table: (Set<Seq<u8>>, Set<Seq<u8>>),
    reads: Seq<Seq<u8>>,
    k: nat,
) -> bool {
    &&& out.len() == reads.len()
    &&& forall|j: int|
        0 <= j < out.len() ==> #[trigger] out[j] == (
            window_matches(reads[j], table.0, (4 * k) as int) as u64,
            window_matches(reads[j], table.1, (4 * k) as int) as u64,
        )
}

/// Binning is a function of the table and the reads: two runs on the same inputs give the
/// same counts, read for read, in the same order.
pub proof fn lemma_binning_deterministic(
    out1: Seq<(u64, u64)>,
    out2: Seq<(u64, u64)>,
    table: (Set<Seq<u8>>, Set<Seq<u8>>),
    reads: Seq<Seq<u8>>,
    k: nat,
)
    requires
        is_binning(out1, table, reads, k),
        is_binning(out2, table, reads, k),
    ensures
        out1 == out2,
{
    assert(out1 =~= out2);
}

/// A read no longer than a window matches nothing in either set.
pub proof fn lemma_short_read_no_matches(s: Seq<u8>, set: Set<Seq<u8>>, k: nat)
    requires
        s.len() <= 4 * k,
    ensures
        window_matches(s, set, (4 * k) as int) == 0,
{
}

/// Whether `s` is `4 * K` upper-case nucleotide letters.
fn is_upper_kmer_exec<const K: usize>(s: &[u8]) -> (r: bool)
    requires
        K <= 8,
    ensures
        r == is_upper_kmer(s@, K as nat),
{
    if s.len() != 4 * K {
        return false;
    }
    let mut i: usize = 0;
    while i < s.len()
        invariant
            i <= s@.len(),
            s@.len() == 4 * K,
            forall|j: int| 0 <= j < i ==> #[trigger] is_upper_nucleotide(s@[j]),
        decreases s@.len() - i,
    {
        let b = s[i];
        if !(b == 65 || b == 67 || b == 71 || b == 84) {
            assert(!is_upper_nucleotide(s@[i as int]));
            return false;
        }
        i = i + 1;
    }
    true
}

/// Whether two byte strings are equal.
fn bytes_equal(a: &[u8], b: &[u8]) -> (r: bool)
    ensures
        r == (a@ == b@),
{
    if a.len() != b.len() {
        return false;
    }
    let mut i: usize = 0;
    while i < a.len()
        invariant
            a@.len() == b@.len(),
            i <= a@.len(),
            forall|j: int| 0 <= j < i ==> a@[j] == b@[j],
        decreases a@.len() - i,
    {
        if a[i] != b[i] {
            return false;
        }
        i = i + 1;
    }
    assert(a@ =~= b@);
    true
}

} // verus!
