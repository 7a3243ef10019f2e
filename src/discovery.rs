//! Haplotype-specific k-mer discovery: count each encoded k-mer per haplotype, then keep those
//! seen in exactly one of the two.
use vstd::prelude::*;
use std::collections::HashMap;
use crate::kmer2bit::{
    encode_kmer,
    Kmer2bit, key_of, lemma_key_injective, lemma_key_fits, decode_kmer, chars_of, kmer_view, lemma_reencode_decoded,
};
use crate::windows::{
    n_windows, window, window_kmers, prefix_kmers, sequence_kmers, collection_kmers, occurrences,
    lemma_occurrences_push, lemma_occurrences_bound, reverse_complement, reverse_complement_of,
    encoded_list, lemma_sequence_kmers_len,
};

verus! {

broadcast use vstd::std_specs::hash::group_hash_axioms;

/// One line of the k-mer table: the k-mer's letters and its count in each haplotype.
pub struct KmerRow {
    pub kmer: String,
    pub count_hap1: u64,
    pub count_hap2: u64,
}

/// Exactly one of two counts is zero.
pub open spec fn exclusive(c1: nat, c2: nat) -> bool {
    (c1 == 0 && c2 > 0) || (c1 > 0 && c2 == 0)
}

/// `row` is the table line of the packed k-mer `m` under the observations `l1` and `l2`.
pub open spec fn row_of(row: KmerRow, m: Seq<u8>, l1: Seq<Seq<u8>>, l2: Seq<Seq<u8>>) -> bool {
    &&& row.kmer@ == chars_of(decode_kmer(m))
    &&& row.count_hap1 == occurrences(l1, m)
    &&& row.count_hap2 == occurrences(l2, m)
}

/// `row` is the table line of some packed k-mer of length `k` that occurs in exactly one of
/// `l1` and `l2`.
pub open spec fn is_exclusive_row(row: KmerRow, l1: Seq<Seq<u8>>, l2: Seq<Seq<u8>>, k: nat) -> bool {
    exists|m: Seq<u8>|
        m.len() == k && exclusive(occurrences(l1, m), occurrences(l2, m)) && #[trigger] row_of(
            row,
            m,
            l1,
            l2,
        )
}

/// `rows` lists, once each and in some order, every packed k-mer of length `k` that occurs in
/// exactly one of `l1` and `l2`, with its two counts.
pub open spec fn is_exclusive_table(
    rows: Seq<KmerRow>,
    l1: Seq<Seq<u8>>,
    l2: Seq<Seq<u8>>,
    k: nat,
) -> bool {
    &&& forall|t: int| 0 <= t < rows.len() ==> #[trigger] is_exclusive_row(rows[t], l1, l2, k)
    &&& forall|m: Seq<u8>|
        m.len() == k && exclusive(#[trigger] occurrences(l1, m), occurrences(l2, m)) ==> exists|
            t: int,
        | 0 <= t < rows.len() && #[trigger] row_of(rows[t], m, l1, l2)
    &&& forall|t: int, u: int| 0 <= t < u < rows.len() ==> rows[t].kmer@ != rows[u].kmer@
}

/// Distinct packed k-mers of one length have distinct letters.
pub proof fn lemma_letters_distinct(a: Seq<u8>, b: Seq<u8>)
    requires
        a.len() == b.len(),
        a != b,
    ensures
        chars_of(decode_kmer(a)) != chars_of(decode_kmer(b)),
{
    lemma_reencode_decoded(a);
    lemma_reencode_decoded(b);
    if chars_of(decode_kmer(a)) == chars_of(decode_kmer(b)) {
        assert forall|i: int| 0 <= i < decode_kmer(a).len() implies decode_kmer(a)[i]
            == decode_kmer(b)[i] by {
            assert(chars_of(decode_kmer(a))[i] == chars_of(decode_kmer(b))[i]);
        }
        assert(decode_kmer(a) =~= decode_kmer(b));
    }
}

/// The rows picked out of a list of distinct k-mers, each exclusive one once, form the table.
proof fn lemma_table_from_rows(
    rows: Seq<KmerRow>,
    src: Seq<int>,
    ord: Seq<Seq<u8>>,
    h1: Seq<Seq<u8>>,
    h2: Seq<Seq<u8>>,
    k: nat,
)
    requires
        src.len() == rows.len(),
        forall|i: int| 0 <= i < ord.len() ==> #[trigger] ord[i].len() == k,
        forall|i: int, j: int| 0 <= i < j < ord.len() ==> ord[i] != ord[j],
        forall|x: Seq<u8>|
            #![trigger occurrences(h1, x)]
            #![trigger occurrences(h2, x)]
            occurrences(h1, x) > 0 || occurrences(h2, x) > 0 ==> exists|i: int|
                0 <= i < ord.len() && #[trigger] ord[i] == x,
        forall|t: int|
            0 <= t < rows.len() ==> 0 <= #[trigger] src[t] < ord.len() && row_of(
                rows[t],
                ord[src[t]],
                h1,
                h2,
            ) && exclusive(occurrences(h1, ord[src[t]]), occurrences(h2, ord[src[t]])),
        forall|t: int, u: int| 0 <= t < u < rows.len() ==> src[t] < src[u],
        forall|idx: int|
            0 <= idx < ord.len() && exclusive(
                occurrences(h1, #[trigger] ord[idx]),
                occurrences(h2, ord[idx]),
            ) ==> exists|t: int| 0 <= t < rows.len() && src[t] == idx,
    ensures
        is_exclusive_table(rows, h1, h2, k),
{
    assert forall|t: int| 0 <= t < rows.len() implies #[trigger] is_exclusive_row(rows[t], h1, h2, k) by {
        let m = ord[src[t]];
        assert(row_of(rows[t], m, h1, h2));
    }
    assert forall|m: Seq<u8>|
        m.len() == k && exclusive(#[trigger] occurrences(h1, m), occurrences(h2, m)) implies exists|
        t: int,
    | 0 <= t < rows.len() && #[trigger] row_of(rows[t], m, h1, h2) by {
        let idx = choose|idx: int| 0 <= idx < ord.len() && #[trigger] ord[idx] == m;
        let t = choose|t: int| 0 <= t < rows.len() && src[t] == idx;
        assert(row_of(rows[t], m, h1, h2));
    }
    assert forall|t: int, u: int| 0 <= t < u < rows.len() implies rows[t].kmer@ != rows[u].kmer@ by {
        lemma_letters_distinct(ord[src[t]], ord[src[u]]);
    }
}

/// Each line of the table has exactly one zero count, and no k-mer of length `k` seen in both
/// haplotypes has a line.
pub proof fn lemma_table_exclusive(
    rows: Seq<KmerRow>,
    l1: Seq<Seq<u8>>,
    l2: Seq<Seq<u8>>,
    k: nat,
    m: Seq<u8>,
)
    requires
        is_exclusive_table(rows, l1, l2, k),
        m.len() == k,
    ensures
        forall|t: int|
            0 <= t < rows.len() ==> exclusive(
                #[trigger] rows[t].count_hap1 as nat,
                rows[t].count_hap2 as nat,
            ),
        occurrences(l1, m) > 0 && occurrences(l2, m) > 0 ==> forall|t: int|
            0 <= t < rows.len() ==> #[trigger] rows[t].kmer@ != chars_of(decode_kmer(m)),
{
    assert forall|t: int| 0 <= t < rows.len() implies exclusive(
        #[trigger] rows[t].count_hap1 as nat,
        rows[t].count_hap2 as nat,
    ) by {
        assert(is_exclusive_row(rows[t], l1, l2, k));
    }
    if occurrences(l1, m) > 0 && occurrences(l2, m) > 0 {
        assert forall|t: int| 0 <= t < rows.len() implies #[trigger] rows[t].kmer@ != chars_of(
            decode_kmer(m),
        ) by {
            assert(is_exclusive_row(rows[t], l1, l2, k));
            let m2 = choose|m2: Seq<u8>|
                m2.len() == k && exclusive(occurrences(l1, m2), occurrences(l2, m2))
                    && #[trigger] row_of(rows[t], m2, l1, l2);
            if m2 != m {
                lemma_letters_distinct(m2, m);
            }
        }
    }
}

/// Adding a sequence no longer than a window to a haplotype's collection changes none of its
/// k-mer counts, hence not the table.
pub proof fn lemma_short_sequence_adds_nothing(seqs: Seq<Seq<u8>>, s: Seq<u8>, k: nat, with_rc: bool)
    requires
        s.len() <= 4 * k,
    ensures
        collection_kmers(seqs.push(s), k, with_rc) == collection_kmers(seqs, k, with_rc),
{
    assert(seqs.push(s).drop_last() =~= seqs);
    assert(sequence_kmers(s, k, with_rc) =~= Seq::<Seq<u8>>::empty());
    assert(collection_kmers(seqs, k, with_rc) + Seq::<Seq<u8>>::empty() =~= collection_kmers(
        seqs,
        k,
        with_rc,
    ));
}

/// Total number of bytes in a collection of sequences.
pub open spec fn total_len(seqs: Seq<Seq<u8>>) -> nat
    decreases seqs.len(),
{
    if seqs.len() == 0 {
        0
    } else {
        total_len(seqs.drop_last()) + seqs.last().len()
    }
}

/// The byte sequences of a collection of vectors.
pub open spec fn seqs_of(v: Seq<Vec<u8>>) -> Seq<Seq<u8>> {
    Seq::new(v.len(), |i: int| v[i]@)
}

proof fn lemma_total_len_prefix(seqs: Seq<Seq<u8>>, i: int, n: int)
    requires
        0 <= i <= n <= seqs.len(),
    ensures
        total_len(seqs.subrange(0, i)) <= total_len(seqs.subrange(0, n)),
    decreases n - i,
{
    if i < n {
        lemma_total_len_prefix(seqs, i, n - 1);
        assert(seqs.subrange(0, n).drop_last() =~= seqs.subrange(0, n - 1));
    }
}

proof fn lemma_collection_step(seqs: Seq<Seq<u8>>, i: int, k: nat, with_rc: bool)
    requires
        0 <= i < seqs.len(),
    ensures
        collection_kmers(seqs.subrange(0, i + 1), k, with_rc) == collection_kmers(
            seqs.subrange(0, i),
            k,
            with_rc,
        ) + sequence_kmers(seqs[i], k, with_rc),
        total_len(seqs.subrange(0, i + 1)) == total_len(seqs.subrange(0, i)) + seqs[i].len(),
{
    assert(seqs.subrange(0, i + 1).drop_last() =~= seqs.subrange(0, i));
}

proof fn lemma_collection_len(seqs: Seq<Seq<u8>>, k: nat, with_rc: bool)
    ensures
        collection_kmers(seqs, k, with_rc).len() <= 2 * total_len(seqs),
    decreases seqs.len(),
{
    if seqs.len() > 0 {
        lemma_collection_len(seqs.drop_last(), k, with_rc);
        lemma_sequence_kmers_len(seqs.last(), k, with_rc);
    }
}

/// The haplotype-specific k-mer table of two sequence collections: every k-mer (with `with_rc`,
/// also those of reverse-complemented windows) that occurs in exactly one collection, with its
/// count in each. The counts are keyed by the packed k-mer read as a `u64`, so `K` is at most 8
/// (k-mers of up to 32 nucleotides).
pub fn discover<const K: usize>(hap1: &Vec<Vec<u8>>, hap2: &Vec<Vec<u8>>, with_rc: bool) -> (rows:
    Vec<KmerRow>)
    requires
        K <= 8,
        2 * (total_len(seqs_of(hap1@)) + total_len(seqs_of(hap2@))) < 0x1_0000_0000_0000_0000,
    ensures
        is_exclusive_table(
            rows@,
            collection_kmers(seqs_of(hap1@), K as nat, with_rc),
            collection_kmers(seqs_of(hap2@), K as nat, with_rc),
            K as nat,
        ),
{
    let ghost k = K as nat;
    let ghost s1 = seqs_of(hap1@);
    let ghost s2 = seqs_of(hap2@);
    proof {
        assert(s1.subrange(0, s1.len() as int) =~= s1);
        assert(s2.subrange(0, s2.len() as int) =~= s2);
        lemma_collection_len(s1, k, with_rc);
    }
    let mut counter = KmerCounter::<K>::new();
    let mut i: usize = 0;
    while i < hap1.len()
        invariant
            counter.wf(),
            K <= 8,
            k == K,
            s1 == seqs_of(hap1@),
            s2 == seqs_of(hap2@),
            s1.subrange(0, s1.len() as int) == s1,
            2 * (total_len(s1) + total_len(s2)) < 0x1_0000_0000_0000_0000,
            i <= hap1@.len(),
            counter@.0 == collection_kmers(s1.subrange(0, i as int), k, with_rc),
            counter@.1 == Seq::<Seq<u8>>::empty(),
        decreases hap1@.len() - i,
    {
        proof {
            lemma_collection_step(s1, i as int, k, with_rc);
            lemma_collection_len(s1.subrange(0, i as int), k, with_rc);
            lemma_total_len_prefix(s1, i + 1, s1.len() as int);
        }
        counter.add_sequence(hap1[i].as_slice(), true, with_rc);
        i = i + 1;
    }
    let mut j: usize = 0;
    while j < hap2.len()
        invariant
            counter.wf(),
            K <= 8,
            k == K,
            s2 == seqs_of(hap2@),
            s2.subrange(0, s2.len() as int) == s2,
            2 * (total_len(s1) + total_len(s2)) < 0x1_0000_0000_0000_0000,
            collection_kmers(s1, k, with_rc).len() <= 2 * total_len(s1),
            j <= hap2@.len(),
            counter@.0 == collection_kmers(s1, k, with_rc),
            counter@.1 == collection_kmers(s2.subrange(0, j as int), k, with_rc),
        decreases hap2@.len() - j,
    {
        proof {
            lemma_collection_step(s2, j as int, k, with_rc);
            lemma_collection_len(s2.subrange(0, j as int), k, with_rc);
            lemma_total_len_prefix(s2, j + 1, s2.len() as int);
        }
        counter.add_sequence(hap2[j].as_slice(), false, with_rc);
        j = j + 1;
    }
    counter.exclusive_rows()
}

/// Per-haplotype counts of encoded k-mers. The map is keyed by the packed k-mer read as a `u64`,
/// so `K` is at most 8 (k-mers of up to 32 nucleotides).
pub struct KmerCounter<const K: usize> {
    counts: HashMap<u64, (u64, u64)>,
    order: Vec<Kmer2bit<K>>,
    hap1: Ghost<Seq<Seq<u8>>>,
    hap2: Ghost<Seq<Seq<u8>>>,
}

impl<const K: usize> View for KmerCounter<K> {
    /// The packed k-mers observed in haplotype 1 and in haplotype 2, in order of observation.
    type V = (Seq<Seq<u8>>, Seq<Seq<u8>>);

    closed spec fn view(&self) -> (Seq<Seq<u8>>, Seq<Seq<u8>>) {
        (self.hap1@, self.hap2@)
    }
}

impl<const K: usize> KmerCounter<K> {
    /// The map holds, under each observed k-mer's key, its two counts; `order` lists each
    /// observed k-mer once.
    pub closed spec fn wf(&self) -> bool {
        &&& K <= 8
        &&& self.hap1@.len() + self.hap2@.len() < 0x1_0000_0000_0000_0000
        &&& forall|m: Seq<u8>|
            #![trigger self.hap1@.contains(m)]
            #![trigger self.hap2@.contains(m)]
            self.hap1@.contains(m) || self.hap2@.contains(m) ==> m.len() == K
        &&& forall|i: int|
            0 <= i < self.order@.len() ==> #[trigger] self.counts@.contains_key(
                key_of(self.order@[i]@) as u64,
            ) && self.counts@[key_of(self.order@[i]@) as u64] == (
                occurrences(self.hap1@, self.order@[i]@) as u64,
                occurrences(self.hap2@, self.order@[i]@) as u64,
            )
        &&& forall|key: u64| #[trigger]
            self.counts@.contains_key(key) ==> exists|i: int|
                0 <= i < self.order@.len() && key_of(#[trigger] self.order@[i]@) == key
        &&& forall|i: int, j: int|
            0 <= i < j < self.order@.len() ==> self.order@[i]@ != self.order@[j]@
        &&& forall|m: Seq<u8>|
            #![trigger occurrences(self.hap1@, m)]
            #![trigger occurrences(self.hap2@, m)]
            occurrences(self.hap1@, m) > 0 || occurrences(self.hap2@, m) > 0 ==> exists|i: int| 0 <= i < self.order@.len() && #[trigger] self.order@[i]@ == m
    }

    /// An empty counter.
    pub fn new() -> (r: Self)
        requires
            K <= 8,
        ensures
            r.wf(),
            r@.0 == Seq::<Seq<u8>>::empty(),
            r@.1 == Seq::<Seq<u8>>::empty(),
    {
        KmerCounter {
            counts: HashMap::new(),
            order: Vec::new(),
            hap1: Ghost(Seq::empty()),
            hap2: Ghost(Seq::empty()),
        }
    }

    /// Every k-mer counted in exactly one haplotype, once each, with its letters and both
    /// counts, in the order in which the k-mers were first seen.
    pub fn exclusive_rows(&self) -> (rows: Vec<KmerRow>)
        requires
            self.wf(),
        ensures
            is_exclusive_table(rows@, self@.0, self@.1, K as nat),
    {
        let ghost h1 = self.hap1@;
        let ghost h2 = self.hap2@;
        let ghost order = self.order@;
        let mut rows: Vec<KmerRow> = Vec::new();
        let ghost mut src: Seq<int> = Seq::empty();
        let mut j: usize = 0;
        while j < self.order.len()
            invariant
                self.wf(),
                h1 == self.hap1@,
                h2 == self.hap2@,
                order == self.order@,
                j <= order.len(),
                src.len() == rows@.len(),
                forall|t: int|
                    0 <= t < rows@.len() ==> 0 <= #[trigger] src[t] < j && row_of(
                        rows@[t],
                        order[src[t]]@,
                        h1,
                        h2,
                    ) && exclusive(occurrences(h1, order[src[t]]@), occurrences(h2, order[src[t]]@)),
                forall|t: int, u: int| 0 <= t < u < rows@.len() ==> src[t] < src[u],
                forall|idx: int|
                    0 <= idx < j && exclusive(
                        occurrences(h1, #[trigger] order[idx]@),
                        occurrences(h2, order[idx]@),
                    ) ==> exists|t: int| 0 <= t < rows@.len() && src[t] == idx,
            decreases order.len() - j,
        {
            let km = self.order[j];
            let key = km.key();
            proof {
                assert(self.counts@.contains_key(key_of(order[j as int]@) as u64));
            }
            let c: (u64, u64) = match self.counts.get(&key) {
                Some(c) => *c,
                None => (0, 0),
            };
            proof {
                lemma_occurrences_bound(h1, km@);
                lemma_occurrences_bound(h2, km@);
                assert(km@ == order[j as int]@);
                assert(c.0 == occurrences(h1, km@));
                assert(c.1 == occurrences(h2, km@));
            }
            let ghost rows0 = rows@;
            let ghost src0 = src;
            if (c.0 == 0 && c.1 > 0) || (c.0 > 0 && c.1 == 0) {
                let letters = km.get_kmer_string();
                let kmer = match letters {
                    Some(l) => l,
                    None => String::new(),
                };
                rows.push(KmerRow { kmer, count_hap1: c.0, count_hap2: c.1 });
                proof {
                    src = src.push(j as int);
                    assert(src[src.len() - 1] == j);
                }
            }
            proof {
                assert forall|idx: int|
                    0 <= idx <= j && exclusive(
                        occurrences(h1, #[trigger] order[idx]@),
                        occurrences(h2, order[idx]@),
                    ) implies exists|t: int| 0 <= t < rows@.len() && src[t] == idx by {
                    if idx < j {
                        let t = choose|t: int| 0 <= t < rows0.len() && src0[t] == idx;
                        assert(src[t] == idx);
                    } else {
                        assert(src[rows@.len() - 1] == idx);
                    }
                }
            }
            j = j + 1;
        }
        proof {
            let ord = Seq::new(order.len(), |i: int| order[i]@);
            assert forall|x: Seq<u8>|
                #![trigger occurrences(h1, x)]
                #![trigger occurrences(h2, x)]
                occurrences(h1, x) > 0 || occurrences(h2, x) > 0 implies exists|i: int|
                0 <= i < ord.len() && #[trigger] ord[i] == x by {
                let i = choose|i: int| 0 <= i < order.len() && #[trigger] order[i]@ == x;
                assert(ord[i] == x);
            }
            assert forall|i: int| 0 <= i < ord.len() implies #[trigger] ord[i].len() == K by {
                assert(order[i]@.len() == K);
            }
            lemma_table_from_rows(rows@, src, ord, h1, h2, K as nat);
        }
        rows
    }

    /// Counts the k-mers of every window of `seq` (and, with `with_rc`, of each window's reverse
    /// complement) in haplotype 1 when `first`, else in haplotype 2. A window or reverse
    /// complement holding a byte other than A, C, G, T (either case) is skipped.
    pub fn add_sequence(&mut self, seq: &[u8], first: bool, with_rc: bool)
        requires
            old(self).wf(),
            old(self)@.0.len() + old(self)@.1.len() + 2 * seq@.len() < 0x1_0000_0000_0000_0000,
        ensures
            final(self).wf(),
            final(self)@ == (if first {
                (old(self)@.0 + sequence_kmers(seq@, K as nat, with_rc), old(self)@.1)
            } else {
                (old(self)@.0, old(self)@.1 + sequence_kmers(seq@, K as nat, with_rc))
            }),
    {
        let ghost s0 = self@;
        let ghost k = K as nat;
        let w: usize = 4 * K;
        let len = seq.len();
        let n: usize = if len > w {
            len - w
        } else {
            0
        };
        let mut i: usize = 0;
        while i < n
            invariant
                self.wf(),
                K <= 8,
                w == 4 * K,
                k == K,
                len == seq@.len(),
                n == n_windows(seq@.len() as int, 4 * K),
                i <= n,
                s0.0.len() + s0.1.len() + 2 * seq@.len() < 0x1_0000_0000_0000_0000,
                prefix_kmers(seq@, k, with_rc, i as int).len() <= 2 * i,
                self@ == (if first {
                    (s0.0 + prefix_kmers(seq@, k, with_rc, i as int), s0.1)
                } else {
                    (s0.0, s0.1 + prefix_kmers(seq@, k, with_rc, i as int))
                }),
            decreases n - i,
        {
            let ghost before = self@;
            let ghost p = prefix_kmers(seq@, k, with_rc, i as int);
            let win = &seq[i..i + w];
            assert(win@ == window(seq@, i as int, (4 * k) as int));
            let fwd = Kmer2bit::<K>::from_bytes(win);
            let ghost l_fwd = encoded_list(kmer_view(fwd));
            match fwd {
                Some(km) => {
                    self.observe(km, first);
                },
                None => {},
            }
            proof {
                if first {
                    assert(self@.0 =~= before.0 + l_fwd);
                } else {
                    assert(self@.1 =~= before.1 + l_fwd);
                }
            }
            let ghost mid = self@;
            let ghost l_rc = Seq::<Seq<u8>>::empty();
            if with_rc {
                let rc = reverse_complement(win);
                let back = Kmer2bit::<K>::from_bytes(rc.as_slice());
                proof {
                    l_rc = encoded_list(kmer_view(back));
                }
                match back {
                    Some(km) => {
                        self.observe(km, first);
                    },
                    None => {},
                }
            }
            proof {
                assert(l_rc == (if with_rc {
                    encoded_list(encode_kmer(reverse_complement_of(win@), k))
                } else {
                    Seq::<Seq<u8>>::empty()
                }));
                assert(window_kmers(seq@, k, i as int, with_rc) == l_fwd + l_rc);
                assert(prefix_kmers(seq@, k, with_rc, i + 1) == p + (l_fwd + l_rc));
                if first {
                    assert(self@.0 =~= mid.0 + l_rc);
                    assert(self@.0 =~= s0.0 + prefix_kmers(seq@, k, with_rc, i + 1));
                } else {
                    assert(self@.1 =~= mid.1 + l_rc);
                    assert(self@.1 =~= s0.1 + prefix_kmers(seq@, k, with_rc, i + 1));
                }
            }
            i = i + 1;
        }
    }

    /// Counts one more occurrence of `kmer`, in haplotype 1 when `first`, else in haplotype 2.
    pub fn observe(&mut self, kmer: Kmer2bit<K>, first: bool)
        requires
            old(self).wf(),
            old(self)@.0.len() + old(self)@.1.len() + 1 < 0x1_0000_0000_0000_0000,
        ensures
            final(self).wf(),
            final(self)@ == (if first {
                (old(self)@.0.push(kmer@), old(self)@.1)
            } else {
                (old(self)@.0, old(self)@.1.push(kmer@))
            }),
    {
        let key = kmer.key();
        let ghost h1 = self.hap1@;
        let ghost h2 = self.hap2@;
        let ghost order0 = self.order@;
        let ghost counts0 = self.counts@;
        let ghost m = kmer@;
        proof {
            lemma_occurrences_bound(h1, kmer@);
            lemma_occurrences_bound(h2, kmer@);
        }
        let found = match self.counts.get(&key) {
            Some(c) => Some(*c),
            None => None,
        };
        match found {
            Some(c) => {
                proof {
                    let i = choose|i: int| 0 <= i < order0.len() && key_of(#[trigger] order0[i]@) == key;
                    lemma_key_injective(order0[i]@, kmer@);
                    assert(counts0.contains_key(key_of(order0[i]@) as u64));
                    assert(c == counts0[key]);
                    assert(c.0 == occurrences(h1, m));
                    assert(c.1 == occurrences(h2, m));
                }
                let nc = if first {
                    (c.0 + 1, c.1)
                } else {
                    (c.0, c.1 + 1)
                };
                self.counts.insert(key, nc);
            },
            None => {
                proof {
                    assert forall|i: int| 0 <= i < order0.len() implies #[trigger] order0[i]@ != kmer@ by {
                        if order0[i]@ == kmer@ {
                            assert(counts0.contains_key(key_of(order0[i]@) as u64));
                        }
                    }
                    if occurrences(h1, kmer@) > 0 || occurrences(h2, kmer@) > 0 {
                        let i = choose|i: int| 0 <= i < order0.len() && #[trigger] order0[i]@ == kmer@;
                        assert(order0[i]@ != kmer@);
                    }
                }
                let nc: (u64, u64) = if first {
                    (1, 0)
                } else {
                    (0, 1)
                };
                self.counts.insert(key, nc);
                self.order.push(kmer);
            },
        }
        if first {
            self.hap1 = Ghost(h1.push(m));
        } else {
            self.hap2 = Ghost(h2.push(m));
        }
        proof {
            let n1 = self.hap1@;
            let n2 = self.hap2@;
            if first {
                lemma_occurrences_push(h1, m, m);
                assert(n2 == h2);
            } else {
                lemma_occurrences_push(h2, m, m);
                assert(n1 == h1);
            }
            assert(self.counts@.contains_key(key));
            assert(self.counts@[key] == (occurrences(n1, m) as u64, occurrences(n2, m) as u64));
            assert forall|x: Seq<u8>|
                occurrences(n1, x) == occurrences(h1, x) + (if first && x == m { 1nat } else { 0nat })
                && occurrences(n2, x) == occurrences(h2, x) + (if !first && x == m { 1nat } else { 0nat }) by {
                if first {
                    lemma_occurrences_push(h1, m, x);
                } else {
                    lemma_occurrences_push(h2, m, x);
                }
            }
            assert forall|x: Seq<u8>|
                #![trigger n1.contains(x)]
                #![trigger n2.contains(x)]
                n1.contains(x) || n2.contains(x) implies x.len() == K by {
                if n1.contains(x) {
                    assert(h1.contains(x) ==> x.len() == K);
                    let j = choose|j: int| 0 <= j < n1.len() && n1[j] == x;
                    if j < h1.len() {
                        assert(h1[j] == x);
                        assert(h1.contains(x));
                    }
                }
                if n2.contains(x) {
                    assert(h2.contains(x) ==> x.len() == K);
                    let j = choose|j: int| 0 <= j < n2.len() && n2[j] == x;
                    if j < h2.len() {
                        assert(h2[j] == x);
                        assert(h2.contains(x));
                    }
                }
            }
            let order = self.order@;
            assert forall|i: int| 0 <= i < order.len() implies #[trigger] self.counts@.contains_key(
                key_of(order[i]@) as u64,
            ) && self.counts@[key_of(order[i]@) as u64] == (
                occurrences(n1, order[i]@) as u64,
                occurrences(n2, order[i]@) as u64,
            ) by {
                lemma_key_fits(order[i]@);
                lemma_key_fits(m);
                if order[i]@ != m {
                    if key_of(order[i]@) == key_of(m) {
                        lemma_key_injective(order[i]@, m);
                    }
                    assert(i < order0.len());
                    assert(order0[i] == order[i]);
                    assert(counts0.contains_key(key_of(order0[i]@) as u64));
                    assert(self.counts@[key_of(order[i]@) as u64] == counts0[key_of(order[i]@) as u64]);
                    assert(occurrences(n1, order[i]@) == occurrences(h1, order[i]@));
                    assert(occurrences(n2, order[i]@) == occurrences(h2, order[i]@));
                } else {
                    assert(key_of(order[i]@) as u64 == key);
                }
            }
            assert forall|k2: u64| #[trigger] self.counts@.contains_key(k2) implies exists|i: int|
                0 <= i < order.len() && key_of(#[trigger] order[i]@) == k2 by {
                if k2 == key {
                    if !counts0.contains_key(key) {
                        assert(order[order.len() - 1]@ == m);
                    } else {
                        let i = choose|i: int| 0 <= i < order0.len() && key_of(#[trigger] order0[i]@) == key;
                        assert(order[i] == order0[i]);
                    }
                } else {
                    let i = choose|i: int| 0 <= i < order0.len() && key_of(#[trigger] order0[i]@) == k2;
                    assert(order[i] == order0[i]);
                }
            }
            assert forall|x: Seq<u8>|
                #![trigger occurrences(n1, x)]
                #![trigger occurrences(n2, x)]
                occurrences(n1, x) > 0 || occurrences(n2, x) > 0 implies exists|i: int| 0 <= i < order.len() && #[trigger] order[i]@ == x by {
                if x == m {
                    if counts0.contains_key(key) {
                        let i = choose|i: int| 0 <= i < order0.len() && key_of(#[trigger] order0[i]@) == key;
                        lemma_key_injective(order0[i]@, m);
                        assert(order[i] == order0[i]);
                    } else {
                        assert(order[order.len() - 1]@ == m);
                    }
                } else {
                    assert(occurrences(h1, x) > 0 || occurrences(h2, x) > 0);
                    let i = choose|i: int| 0 <= i < order0.len() && #[trigger] order0[i]@ == x;
                    assert(order[i] == order0[i]);
                }
            }
        }
    }
}

} // verus!
