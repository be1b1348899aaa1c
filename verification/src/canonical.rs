//! Strand normalization: reverse complement and canonical form of a window.

use vstd::prelude::*;

verus! {

/// ASCII code of 'A'.
pub const BASE_A: u8 = 65;

/// ASCII code of 'C'.
pub const BASE_C: u8 = 67;

/// ASCII code of 'G'.
pub const BASE_G: u8 = 71;

/// ASCII code of 'T'.
pub const BASE_T: u8 = 84;

/// Watson-Crick complement of one base: A<->T and C<->G; any byte outside
/// A/C/G/T is deliberately passed through unchanged.
pub open spec fn complement_spec(base: u8) -> u8 {
    if base == BASE_A {
        BASE_T
    } else if base == BASE_C {
        BASE_G
    } else if base == BASE_G {
        BASE_C
    } else if base == BASE_T {
        BASE_A
    } else {
        base
    }
}

/// Reverse complement: reverse the order, complement each base.
pub open spec fn revcomp_spec(s: Seq<u8>) -> Seq<u8> {
    Seq::new(s.len(), |i: int| complement_spec(s[s.len() - 1 - i]))
}

/// Strict lexicographic order on byte sequences.
pub open spec fn lex_lt(a: Seq<u8>, b: Seq<u8>) -> bool
    decreases a.len(),
{
    if b.len() == 0 {
        false
    } else if a.len() == 0 {
        true
    } else if a[0] < b[0] {
        true
    } else if a[0] > b[0] {
        false
    } else {
        lex_lt(a.drop_first(), b.drop_first())
    }
}

/// Canonical form of a window: the lexicographically smaller of the window
/// and its reverse complement; a palindrome keeps the forward window.
pub open spec fn canonical_spec(s: Seq<u8>) -> Seq<u8> {
    if lex_lt(s, revcomp_spec(s)) {
        s
    } else {
        revcomp_spec(s)
    }
}

/// Complement a DNA base.
pub fn complement(base: u8) -> (r: u8)
    ensures
        r == complement_spec(base),
{
    if base == BASE_A {
        BASE_T
    } else if base == BASE_C {
        BASE_G
    } else if base == BASE_G {
        BASE_C
    } else if base == BASE_T {
        BASE_A
    } else {
        base
    }
}

/// Compute the reverse complement of a DNA sequence.
pub fn revcomp(sequence: &[u8]) -> (r: Vec<u8>)
    ensures
        r@ == revcomp_spec(sequence@),
{
    let n = sequence.len();
    let mut out: Vec<u8> = Vec::new();
    let mut i: usize = 0;
    while i < n
        invariant
            n == sequence@.len(),
            i <= n,
            out@.len() == i,
            forall|j: int| 0 <= j < i ==> out@[j] == complement_spec(sequence@[n - 1 - j]),
        decreases n - i,
    {
        let b = complement(sequence[n - 1 - i]);
        out.push(b);
        i += 1;
    }
    proof {
        assert(out@ =~= revcomp_spec(sequence@));
    }
    out
}

/// Decide whether `a` is lexicographically strictly smaller than `b`.
fn lex_less(a: &[u8], b: &[u8]) -> (r: bool)
    ensures
        r == lex_lt(a@, b@),
{
    let mut i: usize = 0;
    proof {
        assert(a@.skip(0) =~= a@);
        assert(b@.skip(0) =~= b@);
    }
    loop
        invariant
            i <= a@.len(),
            i <= b@.len(),
            lex_lt(a@, b@) == lex_lt(a@.skip(i as int), b@.skip(i as int)),
        decreases a@.len() - i,
    {
        if i == b.len() {
            proof {
                assert(b@.skip(i as int).len() == 0);
            }
            return false;
        }
        if i == a.len() {
            proof {
                assert(a@.skip(i as int).len() == 0);
                assert(b@.skip(i as int).len() > 0);
            }
            return true;
        }
        let x = a[i];
        let y = b[i];
        proof {
            assert(a@.skip(i as int)[0] == a@[i as int]);
            assert(b@.skip(i as int)[0] == b@[i as int]);
        }
        if x < y {
            return true;
        }
        if x > y {
            return false;
        }
        proof {
            assert(a@.skip(i as int).drop_first() =~= a@.skip(i + 1));
            assert(b@.skip(i as int).drop_first() =~= b@.skip(i + 1));
        }
        i += 1;
    }
}

/// Canonical representation of a k-mer: the smaller of the window and its
/// reverse complement under byte-wise lexicographic comparison.
pub fn canonical_kmer(kmer: &[u8]) -> (r: Vec<u8>)
    ensures
        r@ == canonical_spec(kmer@),
{
    let rc = revcomp(kmer);
    if lex_less(kmer, rc.as_slice()) {
        vstd::slice::slice_to_vec(kmer)
    } else {
        rc
    }
}

/// Complementing twice gives the base back, also for bytes outside A/C/G/T.
pub proof fn lemma_complement_involution(base: u8)
    ensures
        complement_spec(complement_spec(base)) == base,
{
}

/// The reverse complement is an involution.
pub proof fn lemma_revcomp_involution(s: Seq<u8>)
    ensures
        revcomp_spec(revcomp_spec(s)) == s,
{
    let rc = revcomp_spec(s);
    assert forall|i: int| 0 <= i < s.len() implies revcomp_spec(rc)[i] == s[i] by {
        lemma_complement_involution(s[i]);
    }
    assert(revcomp_spec(rc) =~= s);
}

/// Lexicographic order is connected and asymmetric: distinct sequences are
/// strictly ordered one way, never both ways.
pub proof fn lemma_lex_lt_connected(a: Seq<u8>, b: Seq<u8>)
    ensures
        a != b ==> lex_lt(a, b) || lex_lt(b, a),
        !(lex_lt(a, b) && lex_lt(b, a)),
    decreases a.len(),
{
    if b.len() == 0 {
        if a.len() == 0 {
            assert(a =~= b);
        }
    } else if a.len() == 0 {
    } else if a[0] == b[0] {
        lemma_lex_lt_connected(a.drop_first(), b.drop_first());
        if a.drop_first() == b.drop_first() {
            assert forall|i: int| 0 <= i < a.len() implies a[i] == b[i] by {
                if i > 0 {
                    assert(a[i] == a.drop_first()[i - 1]);
                    assert(b[i] == b.drop_first()[i - 1]);
                }
            }
            assert(a =~= b);
        }
    }
}

/// Orientation symmetry: a window and its reverse complement have the same
/// canonical form.
pub proof fn lemma_canonical_orientation(s: Seq<u8>)
    ensures
        canonical_spec(revcomp_spec(s)) == canonical_spec(s),
{
    let rc = revcomp_spec(s);
    lemma_revcomp_involution(s);
    lemma_lex_lt_connected(s, rc);
    if !lex_lt(s, rc) && !lex_lt(rc, s) {
        assert(s == rc);
    }
}

} // verus!
