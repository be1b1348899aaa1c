//! Window counting and the partitioned counting pipeline.
//!
//! Every length-k window of every sequence is canonicalized, packed into its
//! 2-bit key and tallied.  The partitioned counter splits the sequence list
//! into near-equal contiguous shards by ceiling division, counts each shard
//! into a private table and merges the shard tables; its contract does not
//! mention the shard count, so the resulting totals are independent of it.

use vstd::prelude::*;
use crate::canonical::{canonical_spec, canonical_kmer};
use crate::codec::{encode_spec, hash_kmer, lemma_encode_fits_u64};
use crate::table::{
    CountTable, entries_count, sum_counts, table_wf, occ, lemma_occ_step, lemma_occ_concat,
};

verus! {

/// Number of length-k windows of a sequence; zero when the sequence is
/// shorter than k.
pub open spec fn num_windows(s: Seq<u8>, k: nat) -> nat {
    if k <= s.len() {
        (s.len() - k + 1) as nat
    } else {
        0
    }
}

/// The counting key of one window: its canonical form, packed.
pub open spec fn kmer_key(w: Seq<u8>) -> nat {
    encode_spec(canonical_spec(w))
}

/// The keys of all windows of one sequence, in window order.
pub open spec fn window_keys(s: Seq<u8>, k: nat) -> Seq<u64> {
    Seq::new(num_windows(s, k), |i: int| kmer_key(s.subrange(i, i + k)) as u64)
}

/// The keys of all windows of all sequences, in order.
pub open spec fn all_keys(seqs: Seq<Seq<u8>>, k: nat) -> Seq<u64>
    decreases seqs.len(),
{
    if seqs.len() == 0 {
        Seq::empty()
    } else {
        all_keys(seqs.drop_last(), k) + window_keys(seqs.last(), k)
    }
}

/// The total number of windows over all sequences.
pub open spec fn total_windows(seqs: Seq<Seq<u8>>, k: nat) -> nat
    decreases seqs.len(),
{
    if seqs.len() == 0 {
        0
    } else {
        total_windows(seqs.drop_last(), k) + num_windows(seqs.last(), k)
    }
}

/// Keys and window totals distribute over concatenation of sequence lists.
proof fn lemma_all_keys_concat(a: Seq<Seq<u8>>, b: Seq<Seq<u8>>, k: nat)
    ensures
        all_keys(a + b, k) == all_keys(a, k) + all_keys(b, k),
        total_windows(a + b, k) == total_windows(a, k) + total_windows(b, k),
    decreases b.len(),
{
    if b.len() == 0 {
        assert(a + b =~= a);
        assert(all_keys(a, k) + all_keys(b, k) =~= all_keys(a, k));
    } else {
        assert((a + b).drop_last() =~= a + b.drop_last());
        assert((a + b).last() == b.last());
        lemma_all_keys_concat(a, b.drop_last(), k);
        assert(all_keys(a, k) + all_keys(b.drop_last(), k) + window_keys(b.last(), k) =~= all_keys(
            a,
            k,
        ) + (all_keys(b.drop_last(), k) + window_keys(b.last(), k)));
    }
}

/// Splitting a range of the sequence list splits its keys and window totals.
proof fn lemma_all_keys_split(seqs: Seq<Seq<u8>>, lo: int, mid: int, hi: int, k: nat)
    requires
        0 <= lo <= mid <= hi <= seqs.len(),
    ensures
        all_keys(seqs.subrange(lo, hi), k) == all_keys(seqs.subrange(lo, mid), k) + all_keys(
            seqs.subrange(mid, hi),
            k,
        ),
        total_windows(seqs.subrange(lo, hi), k) == total_windows(seqs.subrange(lo, mid), k)
            + total_windows(seqs.subrange(mid, hi), k),
{
    assert(seqs.subrange(lo, hi) =~= seqs.subrange(lo, mid) + seqs.subrange(mid, hi));
    lemma_all_keys_concat(seqs.subrange(lo, mid), seqs.subrange(mid, hi), k);
}

/// The keys of a single-sequence range are that sequence's window keys.
proof fn lemma_all_keys_single(seqs: Seq<Seq<u8>>, j: int, k: nat)
    requires
        0 <= j < seqs.len(),
    ensures
        all_keys(seqs.subrange(j, j + 1), k) == window_keys(seqs[j], k),
        total_windows(seqs.subrange(j, j + 1), k) == num_windows(seqs[j], k),
{
    reveal_with_fuel(all_keys, 2);
    reveal_with_fuel(total_windows, 2);
    let sub = seqs.subrange(j, j + 1);
    assert(sub.len() == 1);
    assert(sub.drop_last() =~= Seq::<Seq<u8>>::empty());
    assert(sub.last() == seqs[j]);
    assert(all_keys(sub.drop_last(), k) =~= Seq::<u64>::empty());
    assert(all_keys(sub, k) =~= window_keys(seqs[j], k));
}

/// The element view of a vector of sequences matches its deep view.
pub proof fn lemma_deep_view_index(v: Seq<Vec<u8>>, j: int)
    requires
        0 <= j < v.len(),
    ensures
        Seq::new(v.len(), |i: int| v[i].deep_view())[j] == v[j]@,
{
    assert(v[j].deep_view() =~= v[j]@);
}

/// Count the canonical k-mers of one sequence into a fresh table.
///
/// A sequence shorter than k yields the empty table: it has no windows, and
/// no subtraction on its length is ever taken.
pub fn count_canonical_kmers(sequence: &[u8], k: usize) -> (t: CountTable)
    requires
        1 <= k <= 32,
    ensures
        table_wf(t@),
        forall|y: u64| #[trigger]
            entries_count(t@, y) == occ(window_keys(sequence@, k as nat), y),
        sum_counts(t@) == num_windows(sequence@, k as nat),
{
    let mut t = CountTable::new();
    let ghost wk = window_keys(sequence@, k as nat);
    if sequence.len() < k {
        proof {
            assert(wk.len() == 0);
            assert forall|y: u64| #[trigger] entries_count(t@, y) == occ(wk, y) by {
                assert(occ(wk, y) == 0);
            }
        }
        return t;
    }
    let n = sequence.len() - k + 1;
    proof {
        assert(wk.len() == n);
    }
    let mut i: usize = 0;
    while i < n
        invariant
            1 <= k <= 32,
            k <= sequence@.len() <= usize::MAX,
            n == num_windows(sequence@, k as nat),
            n == sequence@.len() - k + 1,
            wk == window_keys(sequence@, k as nat),
            i <= n,
            table_wf(t@),
            forall|y: u64| #[trigger]
                entries_count(t@, y) == occ(wk.subrange(0, i as int), y),
            sum_counts(t@) == i,
        decreases n - i,
    {
        let w = vstd::slice::slice_subrange(sequence, i, i + k);
        let ck = canonical_kmer(w);
        let key = hash_kmer(ck.as_slice());
        proof {
            lemma_encode_fits_u64(ck@);
            assert(wk[i as int] == key);
            assert(i + 1 <= u64::MAX);
        }
        t.add(key, 1);
        proof {
            assert forall|y: u64| #[trigger]
                entries_count(t@, y) == occ(wk.subrange(0, i + 1), y) by {
                lemma_occ_step(wk, i as int, y);
            }
        }
        i += 1;
    }
    proof {
        assert(wk.subrange(0, n as int) =~= wk);
    }
    t
}

/// Count the canonical k-mers of the sequences in positions
/// `start .. end` into a fresh table: one worker's share of the input.
pub fn count_sequences(sequences: &Vec<Vec<u8>>, start: usize, end: usize, k: usize) -> (t:
    CountTable)
    requires
        1 <= k <= 32,
        start <= end <= sequences@.len(),
        total_windows(sequences.deep_view().subrange(start as int, end as int), k as nat)
            <= u64::MAX,
    ensures
        table_wf(t@),
        forall|y: u64| #[trigger]
            entries_count(t@, y) == occ(
                all_keys(sequences.deep_view().subrange(start as int, end as int), k as nat),
                y,
            ),
        sum_counts(t@) == total_windows(
            sequences.deep_view().subrange(start as int, end as int),
            k as nat,
        ),
{
    let ghost dv = sequences.deep_view();
    let mut t = CountTable::new();
    let mut j: usize = start;
    proof {
        assert(dv.subrange(start as int, start as int) =~= Seq::<Seq<u8>>::empty());
        assert forall|y: u64| #[trigger]
            entries_count(t@, y) == occ(all_keys(dv.subrange(start as int, start as int), k as nat), y) by {
        }
    }
    while j < end
        invariant
            1 <= k <= 32,
            start <= j <= end <= sequences@.len(),
            dv == sequences.deep_view(),
            dv.len() == sequences@.len(),
            total_windows(dv.subrange(start as int, end as int), k as nat) <= u64::MAX,
            table_wf(t@),
            forall|y: u64| #[trigger]
                entries_count(t@, y) == occ(
                    all_keys(dv.subrange(start as int, j as int), k as nat),
                    y,
                ),
            sum_counts(t@) == total_windows(dv.subrange(start as int, j as int), k as nat),
        decreases end - j,
    {
        let local = count_canonical_kmers(sequences[j].as_slice(), k);
        proof {
            lemma_deep_view_index(sequences@, j as int);
            assert(dv[j as int] == sequences@[j as int]@);
            // one more sequence extends the range's keys by its window keys
            lemma_all_keys_split(dv, start as int, j as int, j + 1, k as nat);
            lemma_all_keys_single(dv, j as int, k as nat);
            // the merge stays within the range's total
            lemma_all_keys_split(dv, start as int, j + 1, end as int, k as nat);
        }
        t.merge_from(&local);
        proof {
            assert forall|y: u64| #[trigger]
                entries_count(t@, y) == occ(
                    all_keys(dv.subrange(start as int, j + 1), k as nat),
                    y,
                ) by {
                lemma_occ_concat(
                    all_keys(dv.subrange(start as int, j as int), k as nat),
                    window_keys(dv[j as int], k as nat),
                    y,
                );
            }
        }
        j += 1;
    }
    t
}

/// Count the canonical k-mers of all sequences, processing the list as
/// `num_shards` contiguous, near-equal shards that are each counted into a
/// private table and then merged.
///
/// The contract does not mention `num_shards`: the per-key totals and the
/// grand total depend only on the sequences and k, so any shard count —
/// including one per worker thread — produces the same table contents.
pub fn count_kmers_partitioned(sequences: &Vec<Vec<u8>>, k: usize, num_shards: usize) -> (t:
    CountTable)
    requires
        1 <= k <= 32,
        num_shards >= 1,
        total_windows(sequences.deep_view(), k as nat) <= u64::MAX,
    ensures
        table_wf(t@),
        forall|y: u64| #[trigger]
            entries_count(t@, y) == occ(all_keys(sequences.deep_view(), k as nat), y),
        sum_counts(t@) == total_windows(sequences.deep_view(), k as nat),
{
    let ghost dv = sequences.deep_view();
    let len = sequences.len();
    proof {
        assert(dv.len() == len);
    }
    let q = len / num_shards;
    let r = len % num_shards;
    proof {
        let ns = num_shards as int;
        let l = len as int;
        vstd::arithmetic::div_mod::lemma_fundamental_div_mod(l, ns);
        vstd::arithmetic::div_mod::lemma_mod_division_less_than_divisor(l, ns);
        vstd::arithmetic::div_mod::lemma_div_pos_is_pos(l, ns);
        assert(q <= ns * q) by (nonlinear_arith)
            requires
                ns >= 1,
                q >= 0,
        ;
    }
    let chunk = if r == 0 {
        q
    } else {
        q + 1
    };
    proof {
        // num_shards * chunk covers the whole list
        let ns = num_shards as int;
        let l = len as int;
        if r != 0 {
            assert(ns * (q + 1) == ns * q + ns) by (nonlinear_arith);
        }
        assert(ns * chunk >= l);
    }
    let mut t = CountTable::new();
    let mut start: usize = 0;
    let mut w: usize = 0;
    proof {
        assert(dv.subrange(0, 0) =~= Seq::<Seq<u8>>::empty());
        assert(0 == min_int(0 * chunk, len as int)) by (nonlinear_arith);
    }
    while w < num_shards
        invariant
            1 <= k <= 32,
            num_shards >= 1,
            dv == sequences.deep_view(),
            dv.len() == sequences@.len(),
            len == sequences@.len(),
            num_shards * chunk >= len,
            w <= num_shards,
            start as int == min_int(w as int * chunk as int, len as int),
            start <= len,
            total_windows(dv, k as nat) <= u64::MAX,
            table_wf(t@),
            forall|y: u64| #[trigger]
                entries_count(t@, y) == occ(all_keys(dv.subrange(0, start as int), k as nat), y),
            sum_counts(t@) == total_windows(dv.subrange(0, start as int), k as nat),
        decreases num_shards - w,
    {
        let end = if chunk < len - start {
            start + chunk
        } else {
            len
        };
        proof {
            assert(dv.subrange(0, len as int) =~= dv);
            lemma_all_keys_split(dv, 0, start as int, end as int, k as nat);
            lemma_all_keys_split(dv, 0, end as int, len as int, k as nat);
        }
        let local = count_sequences(sequences, start, end, k);
        t.merge_from(&local);
        proof {
            assert forall|y: u64| #[trigger]
                entries_count(t@, y) == occ(all_keys(dv.subrange(0, end as int), k as nat), y) by {
                lemma_occ_concat(
                    all_keys(dv.subrange(0, start as int), k as nat),
                    all_keys(dv.subrange(start as int, end as int), k as nat),
                    y,
                );
            }
            // the next shard starts where this one ended
            assert((w + 1) * chunk == w * chunk + chunk) by (nonlinear_arith);
            assert(end as int == min_int((w + 1) as int * chunk as int, len as int));
        }
        start = end;
        w += 1;
    }
    proof {
        // every shard processed: the covered prefix is the whole list
        assert(num_shards as int * chunk as int >= len as int);
        assert(start == len);
        assert(dv.subrange(0, len as int) =~= dv);
    }
    t
}

/// The smaller of two integers.
pub(crate) open spec fn min_int(a: int, b: int) -> int {
    if a < b {
        a
    } else {
        b
    }
}

/// Order independence of the pipeline: any two tables that count the same
/// sequence list — whatever shard count or merge order produced them — hold
/// the same multiset of key/count pairs.
pub proof fn lemma_partition_independent(
    t1: Seq<(u64, u64)>,
    t2: Seq<(u64, u64)>,
    seqs: Seq<Seq<u8>>,
    k: nat,
)
    requires
        table_wf(t1),
        table_wf(t2),
        forall|y: u64| #[trigger] entries_count(t1, y) == occ(all_keys(seqs, k), y),
        forall|y: u64| #[trigger] entries_count(t2, y) == occ(all_keys(seqs, k), y),
    ensures
        t1.to_multiset() == t2.to_multiset(),
{
    crate::table::lemma_equal_counts_same_table(t1, t2);
}

} // verus!
