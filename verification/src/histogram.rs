//! Count-table text lines and the frequency histogram.
//!
//! A count line holds two whitespace-separated columns, a token and an
//! unsigned decimal count with an optional leading plus sign; any further
//! columns are ignored and a missing or non-numeric count makes the line
//! malformed.  Aggregation sums the counts of equal tokens, widened to
//! 64 bits; a token whose counts sum to zero keeps its entry.  The
//! histogram builder tallies how many entries share each count value and
//! reports the pairs in ascending count order.

use vstd::prelude::*;
use crate::table::{
    entries_count, sum_counts, table_wf, keys_distinct, has_key, occ, lemma_occ_step,
    lemma_absent_count_zero, lemma_wf_index_count, lemma_count_le_sum, lemma_update_count,
    lemma_insert_count, lemma_has_key_step,
};

verus! {

/// ASCII whitespace: space, tab, line feed, vertical tab, form feed,
/// carriage return.
pub open spec fn is_ws(b: u8) -> bool {
    b == 32 || (9 <= b <= 13)
}

/// First index at or after `i` that does not hold whitespace.
pub open spec fn skip_ws(s: Seq<u8>, i: nat) -> nat
    decreases s.len() - i,
{
    if i < s.len() && is_ws(s[i as int]) {
        skip_ws(s, i + 1)
    } else {
        i
    }
}

/// First index at or after `i` that holds whitespace (or the end).
pub open spec fn skip_tok(s: Seq<u8>, i: nat) -> nat
    decreases s.len() - i,
{
    if i < s.len() && !is_ws(s[i as int]) {
        skip_tok(s, i + 1)
    } else {
        i
    }
}

/// Start of the first column.
pub open spec fn tok1_start(s: Seq<u8>) -> nat {
    skip_ws(s, 0)
}

/// End of the first column.
pub open spec fn tok1_end(s: Seq<u8>) -> nat {
    skip_tok(s, tok1_start(s))
}

/// Start of the second column.
pub open spec fn tok2_start(s: Seq<u8>) -> nat {
    skip_ws(s, tok1_end(s))
}

/// End of the second column.
pub open spec fn tok2_end(s: Seq<u8>) -> nat {
    skip_tok(s, tok2_start(s))
}

/// The token column of a line.
pub open spec fn line_token(s: Seq<u8>) -> Seq<u8> {
    s.subrange(tok1_start(s) as int, tok1_end(s) as int)
}

/// The count column of a line.
pub open spec fn count_token(s: Seq<u8>) -> Seq<u8> {
    s.subrange(tok2_start(s) as int, tok2_end(s) as int)
}

/// ASCII code of '+', accepted as an optional sign before the count.
pub const SIGN_PLUS: u8 = 43;

/// The digits of the count column, after an optional leading plus sign.
pub open spec fn count_digits(s: Seq<u8>) -> Seq<u8> {
    let t = count_token(s);
    if t.len() > 0 && t[0] == SIGN_PLUS {
        t.drop_first()
    } else {
        t
    }
}

/// Whether a byte is a decimal digit.
pub open spec fn is_digit(b: u8) -> bool {
    48 <= b <= 57
}

/// Whether every byte of a sequence is a decimal digit.
pub open spec fn all_digits(s: Seq<u8>) -> bool {
    forall|i: int| 0 <= i < s.len() ==> is_digit(s[i])
}

/// The value of a digit string.
pub open spec fn digits_val(s: Seq<u8>) -> nat
    decreases s.len(),
{
    if s.len() == 0 {
        0
    } else {
        (10 * digits_val(s.drop_last()) + (s.last() - 48)) as nat
    }
}

/// A line is well formed when both columns are present and the count
/// column, after an optional leading plus sign, is a decimal number that
/// fits an unsigned 32-bit integer.
pub open spec fn line_ok(s: Seq<u8>) -> bool {
    line_token(s).len() > 0 && count_digits(s).len() > 0 && all_digits(count_digits(s))
        && digits_val(count_digits(s)) <= u32::MAX
}

/// The count a well-formed line carries.
pub open spec fn line_count(s: Seq<u8>) -> nat {
    digits_val(count_digits(s))
}

/// A digit string's prefix never exceeds the whole string's value.
pub proof fn lemma_digits_prefix_le(t: Seq<u8>, m: int)
    requires
        all_digits(t),
        0 <= m <= t.len(),
    ensures
        digits_val(t.subrange(0, m)) <= digits_val(t),
    decreases t.len(),
{
    if m < t.len() {
        assert(t.subrange(0, m) =~= t.drop_last().subrange(0, m));
        assert(all_digits(t.drop_last())) by {
            assert(forall|i: int| 0 <= i < t.len() - 1 ==> t.drop_last()[i] == t[i]);
        }
        lemma_digits_prefix_le(t.drop_last(), m);
        assert(is_digit(t.last()));
    } else {
        assert(t.subrange(0, m) =~= t);
    }
}

/// Whether a byte is whitespace.
fn is_ws_byte(b: u8) -> (r: bool)
    ensures
        r == is_ws(b),
{
    b == 32 || (9 <= b && b <= 13)
}

/// First index at or after `from` holding no whitespace.
fn skip_ws_from(line: &[u8], from: usize) -> (r: usize)
    requires
        from <= line@.len(),
    ensures
        r as nat == skip_ws(line@, from as nat),
        from <= r <= line@.len(),
{
    let n = line.len();
    let mut i: usize = from;
    loop
        invariant
            from <= i <= n,
            n == line@.len(),
            skip_ws(line@, from as nat) == skip_ws(line@, i as nat),
        decreases n - i,
    {
        if i == n {
            return i;
        }
        if !is_ws_byte(line[i]) {
            return i;
        }
        i += 1;
    }
}

/// First index at or after `from` holding whitespace, or the end.
fn skip_tok_from(line: &[u8], from: usize) -> (r: usize)
    requires
        from <= line@.len(),
    ensures
        r as nat == skip_tok(line@, from as nat),
        from <= r <= line@.len(),
{
    let n = line.len();
    let mut i: usize = from;
    loop
        invariant
            from <= i <= n,
            n == line@.len(),
            skip_tok(line@, from as nat) == skip_tok(line@, i as nat),
        decreases n - i,
    {
        if i == n {
            return i;
        }
        if is_ws_byte(line[i]) {
            return i;
        }
        i += 1;
    }
}

/// Split one count line into its token and its count.
///
/// Returns the token bytes and the parsed count exactly when the line is
/// well formed, and nothing otherwise.
pub fn parse_count_line(line: &[u8]) -> (r: Option<(Vec<u8>, u32)>)
    ensures
        r.is_some() == line_ok(line@),
        r.is_some() ==> r.unwrap().0@ == line_token(line@),
        r.is_some() ==> r.unwrap().1 as nat == line_count(line@),
{
    let i0 = skip_ws_from(line, 0);
    let i1 = skip_tok_from(line, i0);
    if i1 == i0 {
        proof {
            assert(line_token(line@).len() == 0);
        }
        return None;
    }
    let i2 = skip_ws_from(line, i1);
    let i3 = skip_tok_from(line, i2);
    if i3 == i2 {
        proof {
            assert(count_token(line@).len() == 0);
            assert(count_digits(line@).len() == 0);
        }
        return None;
    }
    let token = vstd::slice::slice_to_vec(vstd::slice::slice_subrange(line, i0, i1));
    proof {
        assert(count_token(line@) =~= line@.subrange(i2 as int, i3 as int));
    }
    let dstart = if line[i2] == SIGN_PLUS {
        i2 + 1
    } else {
        i2
    };
    if dstart == i3 {
        proof {
            // a bare sign carries no digits
            assert(count_digits(line@).len() == 0);
        }
        return None;
    }
    let ghost t = count_digits(line@);
    proof {
        assert(t =~= line@.subrange(dstart as int, i3 as int));
    }
    let mut val: u64 = 0;
    let mut j: usize = dstart;
    proof {
        assert(t.subrange(0, 0) =~= Seq::<u8>::empty());
    }
    while j < i3
        invariant
            dstart <= j <= i3 <= line@.len(),
            dstart < i3,
            t == count_digits(line@),
            t =~= line@.subrange(dstart as int, i3 as int),
            t.len() == i3 - dstart,
            val <= u32::MAX,
            forall|m: int| 0 <= m < j - dstart ==> is_digit(t[m]),
            val as nat == digits_val(t.subrange(0, j - dstart)),
        decreases i3 - j,
    {
        let b = line[j];
        proof {
            assert(t[j - dstart] == line@[j as int]);
        }
        if !(48 <= b && b <= 57) {
            proof {
                assert(!is_digit(t[j - dstart]));
                assert(!all_digits(t));
            }
            return None;
        }
        let d = (b - 48) as u64;
        let newval = val * 10 + d;
        proof {
            assert(t.subrange(0, j - dstart + 1).drop_last() =~= t.subrange(0, j - dstart));
            assert(t.subrange(0, j - dstart + 1).last() == t[j - dstart]);
        }
        if newval > 0xffff_ffff {
            proof {
                // a well-formed line would contradict the running value
                if line_ok(line@) {
                    lemma_digits_prefix_le(t, j - dstart + 1);
                }
            }
            return None;
        }
        val = newval;
        j += 1;
    }
    proof {
        assert(t.subrange(0, i3 - dstart) =~= t);
        assert(all_digits(t));
        assert(line_ok(line@));
    }
    Some((token, val as u32))
}

/// A token/count table keyed by token bytes.
///
/// The entry order is unspecified; the meaning of a value is the per-token
/// totals of its entries together with the set of tokens present.  A token
/// may be present with a total of zero.
pub struct TokenCounts {
    entries: Vec<(Vec<u8>, u64)>,
}

impl View for TokenCounts {
    type V = Seq<(Seq<u8>, u64)>;

    closed spec fn view(&self) -> Seq<(Seq<u8>, u64)> {
        Seq::new(self.entries@.len(), |i: int| (self.entries@[i].0@, self.entries@[i].1))
    }
}

/// Byte-wise equality of two slices.
fn bytes_eq(a: &[u8], b: &[u8]) -> (r: bool)
    ensures
        r == (a@ == b@),
{
    let n = a.len();
    if n != b.len() {
        proof {
            assert(a@.len() != b@.len());
        }
        return false;
    }
    let mut i: usize = 0;
    while i < n
        invariant
            i <= n,
            n == a@.len(),
            n == b@.len(),
            forall|j: int| 0 <= j < i ==> a@[j] == b@[j],
        decreases n - i,
    {
        if a[i] != b[i] {
            return false;
        }
        i += 1;
    }
    proof {
        assert(a@ =~= b@);
    }
    true
}

impl TokenCounts {
    /// The empty table.
    pub fn new() -> (t: Self)
        ensures
            t@ =~= Seq::<(Seq<u8>, u64)>::empty(),
            keys_distinct(t@),
    {
        TokenCounts { entries: Vec::new() }
    }

    /// Number of entries.
    pub fn num_entries(&self) -> (n: usize)
        ensures
            n == self@.len(),
    {
        self.entries.len()
    }

    /// All counts, in entry order.
    pub fn counts(&self) -> (r: Vec<u64>)
        ensures
            r@.len() == self@.len(),
            forall|i: int| 0 <= i < r@.len() ==> r@[i] == self@[i].1,
    {
        let n = self.entries.len();
        let mut r: Vec<u64> = Vec::new();
        let mut i: usize = 0;
        while i < n
            invariant
                i <= n,
                n == self@.len(),
                r@.len() == i,
                forall|j: int| 0 <= j < i ==> r@[j] == self@[j].1,
            decreases n - i,
        {
            r.push(self.entries[i].1);
            i += 1;
        }
        r
    }

    /// The total recorded for a token; zero when the token is absent.
    pub fn count_of(&self, token: &[u8]) -> (c: u64)
        requires
            keys_distinct(self@),
        ensures
            c as nat == entries_count(self@, token@),
    {
        let n = self.entries.len();
        let mut i: usize = 0;
        while i < n
            invariant
                i <= n,
                n == self@.len(),
                keys_distinct(self@),
                forall|j: int| 0 <= j < i ==> self@[j].0 != token@,
            decreases n - i,
        {
            if bytes_eq(self.entries[i].0.as_slice(), token) {
                proof {
                    lemma_wf_index_count(self@, i as int);
                }
                return self.entries[i].1;
            }
            i += 1;
        }
        proof {
            lemma_absent_count_zero(self@, token@);
        }
        0
    }

    /// Raise the total of `token` by `amount`; an amount of zero still
    /// records the token.
    pub fn add(&mut self, token: &[u8], amount: u64)
        requires
            keys_distinct(old(self)@),
            sum_counts(old(self)@) + amount <= u64::MAX,
        ensures
            keys_distinct(final(self)@),
            forall|y: Seq<u8>| #[trigger]
                entries_count(final(self)@, y) == entries_count(old(self)@, y) + if y == token@ {
                    amount as nat
                } else {
                    0nat
                },
            forall|y: Seq<u8>| #[trigger]
                has_key(final(self)@, y) == (has_key(old(self)@, y) || y == token@),
            sum_counts(final(self)@) == sum_counts(old(self)@) + amount as nat,
    {
        let ghost s0 = self@;
        let n = self.entries.len();
        let mut i: usize = 0;
        while i < n
            invariant
                s0 == old(self)@,
                i <= n,
                self@ == s0,
                n == s0.len(),
                keys_distinct(s0),
                sum_counts(s0) + amount <= u64::MAX,
                forall|j: int| 0 <= j < i ==> s0[j].0 != token@,
            decreases n - i,
        {
            if bytes_eq(self.entries[i].0.as_slice(), token) {
                proof {
                    lemma_wf_index_count(s0, i as int);
                    lemma_count_le_sum(s0, s0[i as int].0);
                }
                let c = self.entries[i].1;
                let key = vstd::slice::slice_to_vec(token);
                self.entries[i] = (key, c + amount);
                proof {
                    assert(self@ =~= s0.update(i as int, (s0[i as int].0, (s0[i as int].1
                        + amount) as u64)));
                    assert forall|y: Seq<u8>| #[trigger]
                        entries_count(self@, y) == entries_count(s0, y) + if y == token@ {
                            amount as nat
                        } else {
                            0nat
                        } by {
                        lemma_update_count(s0, i as int, amount, y);
                    }
                    lemma_update_count(s0, i as int, amount, token@);
                    assert(keys_distinct(self@)) by {
                        assert forall|p: int, q: int|
                            0 <= p < q < self@.len() implies self@[p].0 != self@[q].0 by {
                            assert(s0[p].0 != s0[q].0);
                        }
                    }
                    assert forall|y: Seq<u8>| #[trigger]
                        has_key(self@, y) == (has_key(s0, y) || y == token@) by {
                        if has_key(self@, y) {
                            let w = choose|w: int| 0 <= w < self@.len() && self@[w].0 == y;
                            assert(s0[w].0 == y);
                        }
                        if has_key(s0, y) {
                            let w = choose|w: int| 0 <= w < s0.len() && s0[w].0 == y;
                            assert(self@[w].0 == y);
                        }
                        if y == token@ {
                            assert(s0[i as int].0 == y);
                        }
                    }
                }
                return ;
            }
            i += 1;
        }
        let key = vstd::slice::slice_to_vec(token);
        self.entries.push((key, amount));
        proof {
            assert(self@ =~= s0.insert(s0.len() as int, (token@, amount)));
            assert forall|y: Seq<u8>| #[trigger]
                entries_count(self@, y) == entries_count(s0, y) + if y == token@ {
                    amount as nat
                } else {
                    0nat
                } by {
                lemma_insert_count(s0, s0.len() as int, (token@, amount), y);
            }
            lemma_insert_count(s0, s0.len() as int, (token@, amount), token@);
            assert(keys_distinct(self@)) by {
                assert forall|p: int, q: int|
                    0 <= p < q < self@.len() implies self@[p].0 != self@[q].0 by {
                    if q < s0.len() {
                        assert(s0[p].0 != s0[q].0);
                    } else {
                        assert(s0[p].0 != token@);
                    }
                }
            }
            assert forall|y: Seq<u8>| #[trigger]
                has_key(self@, y) == (has_key(s0, y) || y == token@) by {
                if has_key(self@, y) {
                    let w = choose|w: int| 0 <= w < self@.len() && self@[w].0 == y;
                    if w < s0.len() {
                        assert(s0[w].0 == y);
                    }
                }
                if has_key(s0, y) {
                    let w = choose|w: int| 0 <= w < s0.len() && s0[w].0 == y;
                    assert(self@[w].0 == y);
                }
                if y == token@ {
                    assert(self@[s0.len() as int].0 == y);
                }
            }
        }
    }

    /// Merge another token table into this one by adding its totals; every
    /// token of either table is present afterwards.
    pub fn merge_from(&mut self, other: &TokenCounts)
        requires
            keys_distinct(old(self)@),
            keys_distinct(other@),
            sum_counts(old(self)@) + sum_counts(other@) <= u64::MAX,
        ensures
            keys_distinct(final(self)@),
            forall|y: Seq<u8>| #[trigger]
                entries_count(final(self)@, y) == entries_count(old(self)@, y) + entries_count(
                    other@,
                    y,
                ),
            forall|y: Seq<u8>| #[trigger]
                has_key(final(self)@, y) == (has_key(old(self)@, y) || has_key(other@, y)),
            sum_counts(final(self)@) == sum_counts(old(self)@) + sum_counts(other@),
    {
        let ghost s0 = self@;
        let n = other.entries.len();
        let mut i: usize = 0;
        proof {
            assert(other@.subrange(0, 0) =~= Seq::<(Seq<u8>, u64)>::empty());
        }
        while i < n
            invariant
                s0 == old(self)@,
                i <= n,
                n == other@.len(),
                keys_distinct(self@),
                keys_distinct(other@),
                sum_counts(s0) + sum_counts(other@) <= u64::MAX,
                forall|y: Seq<u8>| #[trigger]
                    entries_count(self@, y) == entries_count(s0, y) + entries_count(
                        other@.subrange(0, i as int),
                        y,
                    ),
                forall|y: Seq<u8>| #[trigger]
                    has_key(self@, y) == (has_key(s0, y) || has_key(
                        other@.subrange(0, i as int),
                        y,
                    )),
                sum_counts(self@) == sum_counts(s0) + sum_counts(other@.subrange(0, i as int)),
            decreases n - i,
        {
            proof {
                crate::table::lemma_sum_prefix_step(other@, i as int);
                crate::table::lemma_sum_prefix_le(other@, i + 1);
            }
            self.add(other.entries[i].0.as_slice(), other.entries[i].1);
            proof {
                assert forall|y: Seq<u8>| #[trigger]
                    entries_count(self@, y) == entries_count(s0, y) + entries_count(
                        other@.subrange(0, i + 1),
                        y,
                    ) by {
                    crate::table::lemma_entries_prefix_step(other@, i as int, y);
                }
                assert forall|y: Seq<u8>| #[trigger]
                    has_key(self@, y) == (has_key(s0, y) || has_key(
                        other@.subrange(0, i + 1),
                        y,
                    )) by {
                    lemma_has_key_step(other@, i as int, y);
                }
            }
            i += 1;
        }
        proof {
            assert(other@.subrange(0, n as int) =~= other@);
        }
    }
}

/// The summed counts of all well-formed lines; malformed lines weigh zero.
pub open spec fn lines_weight(ls: Seq<Seq<u8>>) -> nat
    decreases ls.len(),
{
    if ls.len() == 0 {
        0
    } else {
        lines_weight(ls.drop_last()) + if line_ok(ls.last()) {
            line_count(ls.last())
        } else {
            0nat
        }
    }
}

/// The summed counts that well-formed lines give to one token.
pub open spec fn token_total(ls: Seq<Seq<u8>>, tok: Seq<u8>) -> nat
    decreases ls.len(),
{
    if ls.len() == 0 {
        0
    } else {
        token_total(ls.drop_last(), tok) + if line_ok(ls.last()) && line_token(ls.last()) == tok {
            line_count(ls.last())
        } else {
            0nat
        }
    }
}

/// Whether some line of the list carries `tok` in its token column.
pub open spec fn some_line_token(ls: Seq<Seq<u8>>, tok: Seq<u8>) -> bool {
    exists|j: int| 0 <= j < ls.len() && (#[trigger] line_token(ls[j])) == tok
}

/// Weight, token totals and token presence of a range extended by one line.
pub proof fn lemma_lines_range_step(ls: Seq<Seq<u8>>, lo: int, i: int, tok: Seq<u8>)
    requires
        0 <= lo <= i < ls.len(),
    ensures
        lines_weight(ls.subrange(lo, i + 1)) == lines_weight(ls.subrange(lo, i)) + (if line_ok(
            ls[i],
        ) {
            line_count(ls[i])
        } else {
            0nat
        }),
        token_total(ls.subrange(lo, i + 1), tok) == token_total(ls.subrange(lo, i), tok) + (
        if line_ok(ls[i]) && line_token(ls[i]) == tok {
            line_count(ls[i])
        } else {
            0nat
        }),
        some_line_token(ls.subrange(lo, i + 1), tok) == (some_line_token(ls.subrange(lo, i), tok)
            || line_token(ls[i]) == tok),
{
    let a = ls.subrange(lo, i);
    let b = ls.subrange(lo, i + 1);
    assert(b.drop_last() =~= a);
    assert(b.last() == ls[i]);
    if some_line_token(b, tok) {
        let w = choose|w: int| 0 <= w < b.len() && (#[trigger] line_token(b[w])) == tok;
        if w < a.len() {
            assert(line_token(a[w]) == tok);
        } else {
            assert(line_token(ls[i]) == tok);
        }
    }
    if some_line_token(a, tok) {
        let w = choose|w: int| 0 <= w < a.len() && (#[trigger] line_token(a[w])) == tok;
        assert(line_token(b[w]) == tok);
    }
    if line_token(ls[i]) == tok {
        assert(line_token(b[i - lo]) == tok);
    }
}

/// A range prefix's weight never exceeds the whole range's weight.
pub proof fn lemma_lines_weight_range_le(ls: Seq<Seq<u8>>, lo: int, i: int, hi: int)
    requires
        0 <= lo <= i <= hi <= ls.len(),
    ensures
        lines_weight(ls.subrange(lo, i)) <= lines_weight(ls.subrange(lo, hi)),
    decreases hi - i,
{
    if i < hi {
        lemma_lines_range_step(ls, lo, i, Seq::empty());
        lemma_lines_weight_range_le(ls, lo, i + 1, hi);
    }
}

/// Weight and token totals distribute over concatenation of line lists.
proof fn lemma_lines_concat(a: Seq<Seq<u8>>, b: Seq<Seq<u8>>, tok: Seq<u8>)
    ensures
        lines_weight(a + b) == lines_weight(a) + lines_weight(b),
        token_total(a + b, tok) == token_total(a, tok) + token_total(b, tok),
    decreases b.len(),
{
    if b.len() == 0 {
        assert(a + b =~= a);
    } else {
        assert((a + b).drop_last() =~= a + b.drop_last());
        assert((a + b).last() == b.last());
        lemma_lines_concat(a, b.drop_last(), tok);
    }
}

/// Splitting a range of the line list splits its weight, its token totals
/// and its token presence.
pub proof fn lemma_lines_split(ls: Seq<Seq<u8>>, lo: int, mid: int, hi: int, tok: Seq<u8>)
    requires
        0 <= lo <= mid <= hi <= ls.len(),
    ensures
        lines_weight(ls.subrange(lo, hi)) == lines_weight(ls.subrange(lo, mid)) + lines_weight(
            ls.subrange(mid, hi),
        ),
        token_total(ls.subrange(lo, hi), tok) == token_total(ls.subrange(lo, mid), tok)
            + token_total(ls.subrange(mid, hi), tok),
        some_line_token(ls.subrange(lo, hi), tok) == (some_line_token(ls.subrange(lo, mid), tok)
            || some_line_token(ls.subrange(mid, hi), tok)),
{
    let a = ls.subrange(lo, mid);
    let b = ls.subrange(mid, hi);
    let c = ls.subrange(lo, hi);
    assert(c =~= a + b);
    lemma_lines_concat(a, b, tok);
    if some_line_token(c, tok) {
        let w = choose|w: int| 0 <= w < c.len() && (#[trigger] line_token(c[w])) == tok;
        if w < a.len() {
            assert(line_token(a[w]) == tok);
        } else {
            assert(line_token(b[w - a.len()]) == tok);
        }
    }
    if some_line_token(a, tok) {
        let w = choose|w: int| 0 <= w < a.len() && (#[trigger] line_token(a[w])) == tok;
        assert(line_token(c[w]) == tok);
    }
    if some_line_token(b, tok) {
        let w = choose|w: int| 0 <= w < b.len() && (#[trigger] line_token(b[w])) == tok;
        assert(line_token(c[a.len() + w]) == tok);
    }
}

/// Aggregate the count lines in positions `start .. end` into per-token
/// totals: one worker's share of the input.
///
/// Succeeds exactly when every line of the range is well formed; the table
/// then holds exactly the tokens of the range, each with its summed count.
pub fn aggregate_range(lines: &Vec<Vec<u8>>, start: usize, end: usize) -> (r: Option<TokenCounts>)
    requires
        start <= end <= lines@.len(),
        lines_weight(lines.deep_view().subrange(start as int, end as int)) <= u64::MAX,
    ensures
        r.is_some() == (forall|i: int| start <= i < end ==> line_ok(lines.deep_view()[i])),
        r.is_some() ==> keys_distinct(r.unwrap()@),
        r.is_some() ==> forall|tok: Seq<u8>| #[trigger]
            entries_count(r.unwrap()@, tok) == token_total(
                lines.deep_view().subrange(start as int, end as int),
                tok,
            ),
        r.is_some() ==> forall|tok: Seq<u8>| #[trigger]
            has_key(r.unwrap()@, tok) == some_line_token(
                lines.deep_view().subrange(start as int, end as int),
                tok,
            ),
        r.is_some() ==> sum_counts(r.unwrap()@) == lines_weight(
            lines.deep_view().subrange(start as int, end as int),
        ),
{
    let ghost lv = lines.deep_view();
    let n = lines.len();
    let mut t = TokenCounts::new();
    let mut i: usize = start;
    proof {
        assert(lv.len() == n);
        assert(lv.subrange(start as int, start as int) =~= Seq::<Seq<u8>>::empty());
    }
    while i < end
        invariant
            start <= i <= end <= n,
            n == lines@.len(),
            lv == lines.deep_view(),
            lv.len() == n,
            lines_weight(lv.subrange(start as int, end as int)) <= u64::MAX,
            keys_distinct(t@),
            forall|j: int| start <= j < i ==> line_ok(lv[j]),
            forall|tok: Seq<u8>| #[trigger]
                entries_count(t@, tok) == token_total(lv.subrange(start as int, i as int), tok),
            forall|tok: Seq<u8>| #[trigger]
                has_key(t@, tok) == some_line_token(lv.subrange(start as int, i as int), tok),
            sum_counts(t@) == lines_weight(lv.subrange(start as int, i as int)),
        decreases end - i,
    {
        proof {
            crate::counter::lemma_deep_view_index(lines@, i as int);
            assert(lv[i as int] == lines@[i as int]@);
        }
        let parsed = parse_count_line(lines[i].as_slice());
        match parsed {
            None => {
                proof {
                    assert(!line_ok(lv[i as int]));
                }
                return None;
            },
            Some(pair) => {
                proof {
                    lemma_lines_range_step(lv, start as int, i as int, pair.0@);
                    lemma_lines_weight_range_le(lv, start as int, i + 1, end as int);
                }
                t.add(pair.0.as_slice(), pair.1 as u64);
                proof {
                    assert forall|tok: Seq<u8>| #[trigger]
                        entries_count(t@, tok) == token_total(
                            lv.subrange(start as int, i + 1),
                            tok,
                        ) by {
                        lemma_lines_range_step(lv, start as int, i as int, tok);
                    }
                    assert forall|tok: Seq<u8>| #[trigger]
                        has_key(t@, tok) == some_line_token(
                            lv.subrange(start as int, i + 1),
                            tok,
                        ) by {
                        lemma_lines_range_step(lv, start as int, i as int, tok);
                    }
                }
            },
        }
        i += 1;
    }
    Some(t)
}

/// Aggregate all count lines into per-token totals.
///
/// Succeeds exactly when every line is well formed; the table then holds
/// exactly the tokens that occur, each with its summed count — a token
/// whose counts sum to zero is still present, with total zero.
pub fn aggregate_counts(lines: &Vec<Vec<u8>>) -> (r: Option<TokenCounts>)
    requires
        lines_weight(lines.deep_view()) <= u64::MAX,
    ensures
        r.is_some() == (forall|i: int|
            0 <= i < lines.deep_view().len() ==> line_ok(lines.deep_view()[i])),
        r.is_some() ==> keys_distinct(r.unwrap()@),
        r.is_some() ==> forall|tok: Seq<u8>| #[trigger]
            entries_count(r.unwrap()@, tok) == token_total(lines.deep_view(), tok),
        r.is_some() ==> forall|tok: Seq<u8>| #[trigger]
            has_key(r.unwrap()@, tok) == some_line_token(lines.deep_view(), tok),
        r.is_some() ==> sum_counts(r.unwrap()@) == lines_weight(lines.deep_view()),
{
    let n = lines.len();
    proof {
        assert(lines.deep_view().subrange(0, n as int) =~= lines.deep_view());
    }
    aggregate_range(lines, 0, n)
}

/// Aggregate all count lines, processing the list as `num_shards`
/// contiguous, near-equal shards that are each aggregated into a private
/// table and then merged.
///
/// The contract does not mention `num_shards`: success, the tokens present
/// and every per-token total depend only on the lines, so any shard count —
/// including one per worker thread — produces the same table contents.
pub fn aggregate_counts_partitioned(lines: &Vec<Vec<u8>>, num_shards: usize) -> (r: Option<
    TokenCounts,
>)
    requires
        num_shards >= 1,
        lines_weight(lines.deep_view()) <= u64::MAX,
    ensures
        r.is_some() == (forall|i: int|
            0 <= i < lines.deep_view().len() ==> line_ok(lines.deep_view()[i])),
        r.is_some() ==> keys_distinct(r.unwrap()@),
        r.is_some() ==> forall|tok: Seq<u8>| #[trigger]
            entries_count(r.unwrap()@, tok) == token_total(lines.deep_view(), tok),
        r.is_some() ==> forall|tok: Seq<u8>| #[trigger]
            has_key(r.unwrap()@, tok) == some_line_token(lines.deep_view(), tok),
        r.is_some() ==> sum_counts(r.unwrap()@) == lines_weight(lines.deep_view()),
{
    let ghost lv = lines.deep_view();
    let len = lines.len();
    proof {
        assert(lv.len() == len);
    }
    let q = len / num_shards;
    let rem = len % num_shards;
    proof {
        let ns = num_shards as int;
        let l = len as int;
        vstd::arithmetic::div_mod::lemma_fundamental_div_mod(l, ns);
        vstd::arithmetic::div_mod::lemma_mod_division_less_than_divisor(l, ns);
        vstd::arithmetic::div_mod::lemma_div_pos_is_pos(l, ns);
        assert(q <= ns * q) by (nonlinear_arith)
            requires
                ns >= 1,
                q >= 0,
        ;
    }
    let chunk = if rem == 0 {
        q
    } else {
        q + 1
    };
    proof {
        // num_shards * chunk covers the whole list
        let ns = num_shards as int;
        let l = len as int;
        if rem != 0 {
            assert(ns * (q + 1) == ns * q + ns) by (nonlinear_arith);
        }
        assert(ns * chunk >= l);
    }
    let mut t = TokenCounts::new();
    let mut start: usize = 0;
    let mut w: usize = 0;
    proof {
        assert(lv.subrange(0, 0) =~= Seq::<Seq<u8>>::empty());
        assert(0 == crate::counter::min_int(0 * chunk, len as int)) by (nonlinear_arith);
    }
    while w < num_shards
        invariant
            num_shards >= 1,
            lv == lines.deep_view(),
            lv.len() == lines@.len(),
            len == lines@.len(),
            num_shards * chunk >= len,
            w <= num_shards,
            start as int == crate::counter::min_int(w as int * chunk as int, len as int),
            start <= len,
            lines_weight(lv) <= u64::MAX,
            keys_distinct(t@),
            forall|j: int| 0 <= j < start ==> line_ok(lv[j]),
            forall|tok: Seq<u8>| #[trigger]
                entries_count(t@, tok) == token_total(lv.subrange(0, start as int), tok),
            forall|tok: Seq<u8>| #[trigger]
                has_key(t@, tok) == some_line_token(lv.subrange(0, start as int), tok),
            sum_counts(t@) == lines_weight(lv.subrange(0, start as int)),
        decreases num_shards - w,
    {
        let end = if chunk < len - start {
            start + chunk
        } else {
            len
        };
        proof {
            assert(lv.subrange(0, len as int) =~= lv);
            lemma_lines_split(lv, 0, start as int, end as int, Seq::empty());
            lemma_lines_split(lv, 0, end as int, len as int, Seq::empty());
        }
        let local = aggregate_range(lines, start, end);
        match local {
            None => {
                proof {
                    let wit = choose|i2: int| start <= i2 < end && !line_ok(lv[i2]);
                    assert(!line_ok(lv[wit]));
                }
                return None;
            },
            Some(loc) => {
                t.merge_from(&loc);
                proof {
                    assert forall|tok: Seq<u8>| #[trigger]
                        entries_count(t@, tok) == token_total(lv.subrange(0, end as int), tok) by {
                        lemma_lines_split(lv, 0, start as int, end as int, tok);
                    }
                    assert forall|tok: Seq<u8>| #[trigger]
                        has_key(t@, tok) == some_line_token(lv.subrange(0, end as int), tok) by {
                        lemma_lines_split(lv, 0, start as int, end as int, tok);
                    }
                    // the next shard starts where this one ended
                    assert((w + 1) * chunk == w * chunk + chunk) by (nonlinear_arith);
                    assert(end as int == crate::counter::min_int(
                        (w + 1) as int * chunk as int,
                        len as int,
                    ));
                }
            },
        }
        start = end;
        w += 1;
    }
    proof {
        // every shard processed: the covered prefix is the whole list
        assert(num_shards as int * chunk as int >= len as int);
        assert(start == len);
        assert(lv.subrange(0, len as int) =~= lv);
    }
    Some(t)
}

/// Find the first position whose count key is at least `v` in an
/// ascending-by-key histogram.
fn find_slot(h: &Vec<(u64, u64)>, v: u64) -> (pos: usize)
    requires
        forall|i: int, j: int| 0 <= i < j < h@.len() ==> h@[i].0 < h@[j].0,
    ensures
        pos <= h@.len(),
        forall|j: int| 0 <= j < pos ==> h@[j].0 < v,
        pos < h@.len() ==> h@[pos as int].0 >= v,
{
    let n = h.len();
    let mut p: usize = 0;
    loop
        invariant
            p <= n,
            n == h@.len(),
            forall|j: int| 0 <= j < p ==> h@[j].0 < v,
        decreases n - p,
    {
        if p == n {
            return p;
        }
        let e = h[p];
        if e.0 >= v {
            return p;
        }
        p += 1;
    }
}

/// Build the frequency histogram of a list of count values: one pair per
/// distinct value, holding the value and how many list entries carry it,
/// in ascending value order.
pub fn create_histogram(counts: &Vec<u64>) -> (h: Vec<(u64, u64)>)
    ensures
        forall|i: int, j: int| 0 <= i < j < h@.len() ==> h@[i].0 < h@[j].0,
        forall|c: u64| #[trigger] entries_count(h@, c) == occ(counts@, c),
        forall|i: int| 0 <= i < h@.len() ==> h@[i].1 >= 1,
{
    let n = counts.len();
    let mut h: Vec<(u64, u64)> = Vec::new();
    let mut i: usize = 0;
    proof {
        assert(counts@.subrange(0, 0) =~= Seq::<u64>::empty());
    }
    while i < n
        invariant
            i <= n,
            n == counts@.len(),
            forall|p: int, q: int| 0 <= p < q < h@.len() ==> h@[p].0 < h@[q].0,
            forall|p: int| 0 <= p < h@.len() ==> h@[p].1 >= 1,
            forall|c: u64| #[trigger]
                entries_count(h@, c) == occ(counts@.subrange(0, i as int), c),
            sum_counts(h@) == i,
        decreases n - i,
    {
        let ghost h0 = h@;
        let v = counts[i];
        proof {
            assert(table_wf(h@)) by {
                assert forall|p: int, q: int|
                    0 <= p < q < h@.len() implies h@[p].0 != h@[q].0 by {
                    assert(h@[p].0 < h@[q].0);
                }
            }
        }
        let pos = find_slot(&h, v);
        let mut bumped = false;
        if pos < h.len() {
            let e = h[pos];
            if e.0 == v {
                proof {
                    lemma_wf_index_count(h0, pos as int);
                    lemma_count_le_sum(h0, v);
                }
                h[pos] = (v, e.1 + 1);
                bumped = true;
                proof {
                    assert(h@ =~= h0.update(pos as int, (h0[pos as int].0, (h0[pos as int].1
                        + 1) as u64)));
                    assert forall|c: u64| #[trigger]
                        entries_count(h@, c) == occ(counts@.subrange(0, i + 1), c) by {
                        lemma_update_count(h0, pos as int, 1, c);
                        lemma_occ_step(counts@, i as int, c);
                    }
                    lemma_update_count(h0, pos as int, 1, v);
                    assert forall|p: int, q: int|
                        0 <= p < q < h@.len() implies h@[p].0 < h@[q].0 by {
                        assert(h0[p].0 < h0[q].0);
                    }
                }
            }
        }
        if !bumped {
            h.insert(pos, (v, 1));
            proof {
                assert(h@ =~= h0.insert(pos as int, (v, 1u64)));
                assert forall|c: u64| #[trigger]
                    entries_count(h@, c) == occ(counts@.subrange(0, i + 1), c) by {
                    lemma_insert_count(h0, pos as int, (v, 1u64), c);
                    lemma_occ_step(counts@, i as int, c);
                }
                lemma_insert_count(h0, pos as int, (v, 1u64), v);
                assert forall|p: int, q: int|
                    0 <= p < q < h@.len() implies h@[p].0 < h@[q].0 by {
                    if q <= pos {
                        assert(h@[p].0 == h0[p].0);
                    }
                    if p == pos {
                        assert(h@[q].0 == h0[q - 1].0);
                        assert(h0[pos as int].0 >= v);
                        assert(h0[pos as int].0 != v);
                    }
                    if p < pos && q > pos {
                        assert(h@[p].0 == h0[p].0);
                        assert(h@[q].0 == h0[q - 1].0);
                    }
                    if p > pos {
                        assert(h@[p].0 == h0[p - 1].0);
                        assert(h@[q].0 == h0[q - 1].0);
                    }
                }
            }
        }
        i += 1;
    }
    proof {
        assert(counts@.subrange(0, n as int) =~= counts@);
    }
    h
}

} // verus!
