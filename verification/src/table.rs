//! Key/count tables.
//!
//! A table is a vector of key/count entries with pairwise distinct keys and
//! strictly positive counts.  Its meaning is the per-key total given by
//! [`entries_count`]; two well-formed tables with the same per-key totals
//! hold exactly the same entries, only possibly in another order, which is
//! what makes the counting pipeline deterministic under resharding.  Counts
//! are widened to 64 bits, so adding never wraps as long as the grand total
//! fits in a `u64`.

use vstd::prelude::*;
use vstd::seq_lib::group_seq_properties;
use vstd::seq_lib::group_to_multiset_ensures;
use vstd::multiset::group_multiset_axioms;

verus! {

/// How many times `x` occurs in `s`.
pub open spec fn occ<A>(s: Seq<A>, x: A) -> nat
    decreases s.len(),
{
    if s.len() == 0 {
        0
    } else {
        occ(s.drop_last(), x) + if s.last() == x {
            1nat
        } else {
            0nat
        }
    }
}

/// The total that a table's entries give to `key`.
pub open spec fn entries_count<K>(s: Seq<(K, u64)>, key: K) -> nat
    decreases s.len(),
{
    if s.len() == 0 {
        0
    } else {
        entries_count(s.drop_last(), key) + if s.last().0 == key {
            s.last().1 as nat
        } else {
            0nat
        }
    }
}

/// The sum of all counts in a table.
pub open spec fn sum_counts<K>(s: Seq<(K, u64)>) -> nat
    decreases s.len(),
{
    if s.len() == 0 {
        0
    } else {
        sum_counts(s.drop_last()) + s.last().1 as nat
    }
}

/// Pairwise distinct keys: each key owns at most one entry.
pub open spec fn keys_distinct<K>(s: Seq<(K, u64)>) -> bool {
    forall|i: int, j: int| 0 <= i < j < s.len() ==> s[i].0 != s[j].0
}

/// Well-formed table: keys pairwise distinct, every count at least one.
pub open spec fn table_wf<K>(s: Seq<(K, u64)>) -> bool {
    keys_distinct(s) && (forall|i: int| 0 <= i < s.len() ==> s[i].1 >= 1)
}

/// Whether some entry carries `key`.
pub open spec fn has_key<K>(s: Seq<(K, u64)>, key: K) -> bool {
    exists|i: int| 0 <= i < s.len() && s[i].0 == key
}

/// Occurrences in a prefix extended by one element.
pub proof fn lemma_occ_step<A>(s: Seq<A>, i: int, x: A)
    requires
        0 <= i < s.len(),
    ensures
        occ(s.subrange(0, i + 1), x) == occ(s.subrange(0, i), x) + if s[i] == x {
            1nat
        } else {
            0nat
        },
{
    assert(s.subrange(0, i + 1).drop_last() =~= s.subrange(0, i));
    assert(s.subrange(0, i + 1).last() == s[i]);
}

/// Occurrences distribute over concatenation.
pub proof fn lemma_occ_concat<A>(a: Seq<A>, b: Seq<A>, x: A)
    ensures
        occ(a + b, x) == occ(a, x) + occ(b, x),
    decreases b.len(),
{
    if b.len() == 0 {
        assert(a + b =~= a);
    } else {
        assert((a + b).drop_last() =~= a + b.drop_last());
        assert((a + b).last() == b.last());
        lemma_occ_concat(a, b.drop_last(), x);
    }
}

/// Key presence in a prefix extended by one entry.
pub proof fn lemma_has_key_step<K>(s: Seq<(K, u64)>, i: int, key: K)
    requires
        0 <= i < s.len(),
    ensures
        has_key(s.subrange(0, i + 1), key) == (has_key(s.subrange(0, i), key) || s[i].0 == key),
{
    if has_key(s.subrange(0, i + 1), key) {
        let w = choose|w: int| 0 <= w < i + 1 && (#[trigger] s.subrange(0, i + 1)[w]).0 == key;
        if w < i {
            assert(s.subrange(0, i)[w].0 == key);
        } else {
            assert(s[i].0 == key);
        }
    }
    if has_key(s.subrange(0, i), key) {
        let w = choose|w: int| 0 <= w < i && (#[trigger] s.subrange(0, i)[w]).0 == key;
        assert(s.subrange(0, i + 1)[w].0 == key);
    }
    if s[i].0 == key {
        assert(s.subrange(0, i + 1)[i].0 == key);
    }
}

/// No entry carries `key`: its total is zero.
pub proof fn lemma_absent_count_zero<K>(s: Seq<(K, u64)>, key: K)
    requires
        forall|i: int| 0 <= i < s.len() ==> s[i].0 != key,
    ensures
        entries_count(s, key) == 0,
    decreases s.len(),
{
    if s.len() > 0 {
        lemma_absent_count_zero(s.drop_last(), key);
    }
}

/// With distinct keys the entry at `i` carries the whole total of its key.
pub proof fn lemma_wf_index_count<K>(s: Seq<(K, u64)>, i: int)
    requires
        keys_distinct(s),
        0 <= i < s.len(),
    ensures
        entries_count(s, s[i].0) == s[i].1 as nat,
    decreases s.len(),
{
    if i == s.len() - 1 {
        assert forall|j: int| 0 <= j < s.drop_last().len() implies s.drop_last()[j].0 != s[i].0 by {
            assert(s.drop_last()[j] == s[j]);
        }
        lemma_absent_count_zero(s.drop_last(), s[i].0);
    } else {
        assert(keys_distinct(s.drop_last())) by {
            assert forall|p: int, q: int|
                0 <= p < q < s.drop_last().len() implies s.drop_last()[p].0
                != s.drop_last()[q].0 by {
                assert(s.drop_last()[p] == s[p]);
                assert(s.drop_last()[q] == s[q]);
            }
        }
        lemma_wf_index_count(s.drop_last(), i);
        assert(s.last().0 != s[i].0);
    }
}

/// A single key's total never exceeds the sum of all counts.
pub proof fn lemma_count_le_sum<K>(s: Seq<(K, u64)>, key: K)
    ensures
        entries_count(s, key) <= sum_counts(s),
    decreases s.len(),
{
    if s.len() > 0 {
        lemma_count_le_sum(s.drop_last(), key);
    }
}

/// Updating the count at index `i` raises its key's total by `amount` and
/// leaves every other key's total unchanged.
pub proof fn lemma_update_count<K>(s: Seq<(K, u64)>, i: int, amount: u64, key: K)
    requires
        0 <= i < s.len(),
        s[i].1 + amount <= u64::MAX,
    ensures
        entries_count(s.update(i, (s[i].0, (s[i].1 + amount) as u64)), key) == entries_count(
            s,
            key,
        ) + if s[i].0 == key {
            amount as nat
        } else {
            0nat
        },
        sum_counts(s.update(i, (s[i].0, (s[i].1 + amount) as u64))) == sum_counts(s)
            + amount as nat,
    decreases s.len(),
{
    let t = s.update(i, (s[i].0, (s[i].1 + amount) as u64));
    if i == s.len() - 1 {
        assert(t.drop_last() =~= s.drop_last());
    } else {
        assert(t.drop_last() =~= s.drop_last().update(i, (s[i].0, (s[i].1 + amount) as u64)));
        assert(s.drop_last()[i] == s[i]);
        lemma_update_count(s.drop_last(), i, amount, key);
        assert(t.last() == s.last());
    }
}

/// Inserting an entry at position `p` adds its count to its key's total and
/// leaves every other key's total unchanged.
pub proof fn lemma_insert_count<K>(s: Seq<(K, u64)>, p: int, e: (K, u64), key: K)
    requires
        0 <= p <= s.len(),
    ensures
        entries_count(s.insert(p, e), key) == entries_count(s, key) + if e.0 == key {
            e.1 as nat
        } else {
            0nat
        },
        sum_counts(s.insert(p, e)) == sum_counts(s) + e.1 as nat,
    decreases s.len(),
{
    let t = s.insert(p, e);
    if p == s.len() {
        assert(t.drop_last() =~= s);
        assert(t.last() == e);
    } else {
        assert(t.drop_last() =~= s.drop_last().insert(p, e));
        assert(t.last() == s.last());
        lemma_insert_count(s.drop_last(), p, e, key);
    }
}

/// A positive total comes from one entry holding exactly that total.
proof fn lemma_count_pos_witness<K>(s: Seq<(K, u64)>, key: K)
    requires
        keys_distinct(s),
        entries_count(s, key) >= 1,
    ensures
        exists|i: int|
            0 <= i < s.len() && #[trigger] s[i].0 == key && s[i].1 as nat == entries_count(s, key),
    decreases s.len(),
{
    if s.last().0 == key {
        assert forall|j: int| 0 <= j < s.drop_last().len() implies s.drop_last()[j].0 != key by {
            assert(s.drop_last()[j] == s[j]);
            assert(s.last() == s[s.len() - 1]);
        }
        lemma_absent_count_zero(s.drop_last(), key);
        assert(s[s.len() - 1].0 == key);
    } else {
        assert(keys_distinct(s.drop_last())) by {
            assert forall|p: int, q: int|
                0 <= p < q < s.drop_last().len() implies s.drop_last()[p].0
                != s.drop_last()[q].0 by {
                assert(s.drop_last()[p] == s[p]);
                assert(s.drop_last()[q] == s[q]);
            }
        }
        lemma_count_pos_witness(s.drop_last(), key);
        let i = choose|i: int|
            0 <= i < s.drop_last().len() && #[trigger] s.drop_last()[i].0 == key
                && s.drop_last()[i].1 as nat == entries_count(s.drop_last(), key);
        assert(s[i] == s.drop_last()[i]);
        assert(s[i].0 == key);
    }
}

/// Determinism of the table representation: two well-formed tables with the
/// same total for every key hold the same multiset of key/count pairs.
pub proof fn lemma_equal_counts_same_table<K>(t1: Seq<(K, u64)>, t2: Seq<(K, u64)>)
    requires
        table_wf(t1),
        table_wf(t2),
        forall|key: K| #[trigger] entries_count(t1, key) == entries_count(t2, key),
    ensures
        t1.to_multiset() == t2.to_multiset(),
{
    broadcast use group_seq_properties;
    broadcast use group_to_multiset_ensures;
    broadcast use group_multiset_axioms;

    assert(t1.no_duplicates()) by {
        assert forall|i: int, j: int| 0 <= i < j < t1.len() implies t1[i] != t1[j] by {
            assert(t1[i].0 != t1[j].0);
        }
    }
    assert(t2.no_duplicates()) by {
        assert forall|i: int, j: int| 0 <= i < j < t2.len() implies t2[i] != t2[j] by {
            assert(t2[i].0 != t2[j].0);
        }
    }
    assert forall|p: (K, u64)| t1.contains(p) implies t2.contains(p) by {
        lemma_mem_other(t1, t2, p);
    }
    assert forall|p: (K, u64)| t2.contains(p) implies t1.contains(p) by {
        lemma_mem_other(t2, t1, p);
    }
    t1.lemma_multiset_has_no_duplicates();
    t2.lemma_multiset_has_no_duplicates();
    assert forall|p: (K, u64)| t1.to_multiset().count(p) == t2.to_multiset().count(p) by {
        if t1.to_multiset().count(p) > 0 {
            assert(t1.contains(p));
        }
        if t2.to_multiset().count(p) > 0 {
            assert(t2.contains(p));
        }
    }
    assert(t1.to_multiset() =~= t2.to_multiset());
}

/// An entry of one table occurs in any other well-formed table with the same
/// per-key totals.
proof fn lemma_mem_other<K>(t1: Seq<(K, u64)>, t2: Seq<(K, u64)>, p: (K, u64))
    requires
        table_wf(t1),
        table_wf(t2),
        forall|key: K| #[trigger] entries_count(t1, key) == entries_count(t2, key),
        t1.contains(p),
    ensures
        t2.contains(p),
{
    let i = choose|i: int| 0 <= i < t1.len() && t1[i] == p;
    lemma_wf_index_count(t1, i);
    assert(entries_count(t2, p.0) == p.1 as nat);
    lemma_count_pos_witness(t2, p.0);
    let j = choose|j: int|
        0 <= j < t2.len() && #[trigger] t2[j].0 == p.0 && t2[j].1 as nat == entries_count(
            t2,
            p.0,
        );
    assert(t2[j] == p);
}

/// A table of canonical-key counts.
///
/// The entry order is unspecified; the meaning of a value is solely the
/// per-key totals of its entries.
pub struct CountTable {
    entries: Vec<(u64, u64)>,
}

impl View for CountTable {
    type V = Seq<(u64, u64)>;

    closed spec fn view(&self) -> Seq<(u64, u64)> {
        self.entries@
    }
}

impl CountTable {
    /// The empty table.
    pub fn new() -> (t: Self)
        ensures
            t@ =~= Seq::<(u64, u64)>::empty(),
            table_wf(t@),
    {
        CountTable { entries: Vec::new() }
    }

    /// Number of entries.
    pub fn num_entries(&self) -> (n: usize)
        ensures
            n == self@.len(),
    {
        self.entries.len()
    }

    /// The total recorded for `key`; zero when the key is absent.
    pub fn count_of(&self, key: u64) -> (c: u64)
        requires
            table_wf(self@),
        ensures
            c as nat == entries_count(self@, key),
    {
        let n = self.entries.len();
        let mut i: usize = 0;
        while i < n
            invariant
                i <= n,
                n == self@.len(),
                table_wf(self@),
                forall|j: int| 0 <= j < i ==> self@[j].0 != key,
            decreases n - i,
        {
            let e = self.entries[i];
            if e.0 == key {
                proof {
                    lemma_wf_index_count(self@, i as int);
                }
                return e.1;
            }
            i += 1;
        }
        proof {
            lemma_absent_count_zero(self@, key);
        }
        0
    }

    /// Sum of all counts in the table.
    pub fn total(&self) -> (s: u64)
        requires
            sum_counts(self@) <= u64::MAX,
        ensures
            s as nat == sum_counts(self@),
    {
        let n = self.entries.len();
        let mut acc: u64 = 0;
        let mut i: usize = 0;
        while i < n
            invariant
                i <= n,
                n == self@.len(),
                sum_counts(self@) <= u64::MAX,
                acc as nat == sum_counts(self@.subrange(0, i as int)),
            decreases n - i,
        {
            proof {
                lemma_sum_prefix_step(self@, i as int);
                lemma_sum_prefix_le(self@, i + 1);
            }
            acc = acc + self.entries[i].1;
            i += 1;
        }
        proof {
            assert(self@.subrange(0, n as int) =~= self@);
        }
        acc
    }

    /// Raise the total of `key` by `amount`: bump the entry that holds the
    /// key, or append a fresh entry when the key is new.
    pub fn add(&mut self, key: u64, amount: u64)
        requires
            table_wf(old(self)@),
            amount >= 1,
            sum_counts(old(self)@) + amount <= u64::MAX,
        ensures
            table_wf(final(self)@),
            forall|y: u64| #[trigger]
                entries_count(final(self)@, y) == entries_count(old(self)@, y) + if y == key {
                    amount as nat
                } else {
                    0nat
                },
            sum_counts(final(self)@) == sum_counts(old(self)@) + amount as nat,
    {
        let ghost s0 = self@;
        let n = self.entries.len();
        let mut i: usize = 0;
        while i < n
            invariant
                s0 == old(self)@,
                i <= n,
                self@ == s0,
                n == s0.len(),
                table_wf(s0),
                sum_counts(s0) + amount <= u64::MAX,
                forall|j: int| 0 <= j < i ==> s0[j].0 != key,
            decreases n - i,
        {
            let e = self.entries[i];
            if e.0 == key {
                proof {
                    lemma_wf_index_count(s0, i as int);
                    lemma_count_le_sum(s0, key);
                }
                self.entries[i] = (e.0, e.1 + amount);
                proof {
                    assert forall|y: u64| #[trigger]
                        entries_count(self@, y) == entries_count(s0, y) + if y == key {
                            amount as nat
                        } else {
                            0nat
                        } by {
                        lemma_update_count(s0, i as int, amount, y);
                    }
                    lemma_update_count(s0, i as int, amount, key);
                    assert(table_wf(self@)) by {
                        assert forall|p: int, q: int|
                            0 <= p < q < self@.len() implies self@[p].0 != self@[q].0 by {
                            assert(s0[p].0 != s0[q].0);
                        }
                    }
                }
                return ;
            }
            i += 1;
        }
        self.entries.push((key, amount));
        proof {
            assert(self@ =~= s0.insert(s0.len() as int, (key, amount)));
            assert forall|y: u64| #[trigger]
                entries_count(self@, y) == entries_count(s0, y) + if y == key {
                    amount as nat
                } else {
                    0nat
                } by {
                lemma_insert_count(s0, s0.len() as int, (key, amount), y);
            }
            lemma_insert_count(s0, s0.len() as int, (key, amount), key);
            assert(table_wf(self@)) by {
                assert forall|p: int, q: int|
                    0 <= p < q < self@.len() implies self@[p].0 != self@[q].0 by {
                    if q < s0.len() {
                        assert(s0[p].0 != s0[q].0);
                    } else {
                        assert(s0[p].0 != key);
                    }
                }
            }
        }
    }

    /// Merge another table into this one by adding its per-key totals.
    pub fn merge_from(&mut self, other: &CountTable)
        requires
            table_wf(old(self)@),
            table_wf(other@),
            sum_counts(old(self)@) + sum_counts(other@) <= u64::MAX,
        ensures
            table_wf(final(self)@),
            forall|y: u64| #[trigger]
                entries_count(final(self)@, y) == entries_count(old(self)@, y) + entries_count(
                    other@,
                    y,
                ),
            sum_counts(final(self)@) == sum_counts(old(self)@) + sum_counts(other@),
    {
        let ghost s0 = self@;
        let n = other.entries.len();
        let mut i: usize = 0;
        proof {
            assert(other@.subrange(0, 0) =~= Seq::<(u64, u64)>::empty());
        }
        while i < n
            invariant
                s0 == old(self)@,
                i <= n,
                n == other@.len(),
                table_wf(self@),
                table_wf(other@),
                sum_counts(s0) + sum_counts(other@) <= u64::MAX,
                forall|y: u64| #[trigger]
                    entries_count(self@, y) == entries_count(s0, y) + entries_count(
                        other@.subrange(0, i as int),
                        y,
                    ),
                sum_counts(self@) == sum_counts(s0) + sum_counts(other@.subrange(0, i as int)),
            decreases n - i,
        {
            let e = other.entries[i];
            proof {
                lemma_sum_prefix_step(other@, i as int);
                lemma_sum_prefix_le(other@, i + 1);
                assert(e.1 >= 1);
            }
            self.add(e.0, e.1);
            proof {
                assert forall|y: u64| #[trigger]
                    entries_count(self@, y) == entries_count(s0, y) + entries_count(
                        other@.subrange(0, i + 1),
                        y,
                    ) by {
                    lemma_entries_prefix_step(other@, i as int, y);
                }
            }
            i += 1;
        }
        proof {
            assert(other@.subrange(0, n as int) =~= other@);
        }
    }

    /// All entries as plain pairs, in table order.
    pub fn pairs(&self) -> (r: Vec<(u64, u64)>)
        ensures
            r@ == self@,
    {
        let n = self.entries.len();
        let mut r: Vec<(u64, u64)> = Vec::new();
        let mut i: usize = 0;
        while i < n
            invariant
                i <= n,
                n == self@.len(),
                r@ =~= self@.subrange(0, i as int),
            decreases n - i,
        {
            r.push(self.entries[i]);
            proof {
                assert(r@ =~= self@.subrange(0, i + 1));
            }
            i += 1;
        }
        proof {
            assert(r@ =~= self@);
        }
        r
    }
}

/// Entry totals of a prefix extended by one entry.
pub proof fn lemma_entries_prefix_step<K>(s: Seq<(K, u64)>, i: int, key: K)
    requires
        0 <= i < s.len(),
    ensures
        entries_count(s.subrange(0, i + 1), key) == entries_count(s.subrange(0, i), key) + if s[i].0
            == key {
            s[i].1 as nat
        } else {
            0nat
        },
{
    assert(s.subrange(0, i + 1).drop_last() =~= s.subrange(0, i));
    assert(s.subrange(0, i + 1).last() == s[i]);
}

/// Sum of a prefix extended by one entry.
pub proof fn lemma_sum_prefix_step<K>(s: Seq<(K, u64)>, i: int)
    requires
        0 <= i < s.len(),
    ensures
        sum_counts(s.subrange(0, i + 1)) == sum_counts(s.subrange(0, i)) + s[i].1 as nat,
{
    assert(s.subrange(0, i + 1).drop_last() =~= s.subrange(0, i));
    assert(s.subrange(0, i + 1).last() == s[i]);
}

/// A prefix's sum never exceeds the whole table's sum.
pub proof fn lemma_sum_prefix_le<K>(s: Seq<(K, u64)>, i: int)
    requires
        0 <= i <= s.len(),
    ensures
        sum_counts(s.subrange(0, i)) <= sum_counts(s),
    decreases s.len() - i,
{
    if i == s.len() {
        assert(s.subrange(0, i) =~= s);
    } else {
        lemma_sum_prefix_step(s, i);
        lemma_sum_prefix_le(s, i + 1);
    }
}

} // verus!
