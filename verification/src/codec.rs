//! Reversible 2-bit key encoding.
//!
//! The counting key of a canonical window is the window itself packed two
//! bits per base (A=0, C=1, G=2, T=3), position 0 in the lowest bits, so the
//! decoder can reconstruct the exact string that was counted.  A 64-bit key
//! therefore caps k at 32.  Bytes outside A/C/G/T code as 0 and are thereby
//! silently merged with A; this lossy fold is a documented tradeoff, no
//! collision is ever detected or resolved.

use vstd::prelude::*;
use crate::canonical::{BASE_A, BASE_C, BASE_G, BASE_T};

verus! {

/// 2-bit code of one base; any byte outside A/C/G/T codes as 0.
pub open spec fn base_code(base: u8) -> nat {
    if base == BASE_C {
        1
    } else if base == BASE_G {
        2
    } else if base == BASE_T {
        3
    } else {
        0
    }
}

/// The base a 2-bit code stands for.
pub open spec fn code_base(code: nat) -> u8 {
    if code == 0 {
        BASE_A
    } else if code == 1 {
        BASE_C
    } else if code == 2 {
        BASE_G
    } else {
        BASE_T
    }
}

/// The packed integer of a window: two bits per base, position 0 lowest.
pub open spec fn encode_spec(s: Seq<u8>) -> nat
    decreases s.len(),
{
    if s.len() == 0 {
        0
    } else {
        base_code(s[0]) + 4 * encode_spec(s.drop_first())
    }
}

/// The window of length `k` that a packed integer stands for.
pub open spec fn decode_spec(key: nat, k: nat) -> Seq<u8>
    decreases k,
{
    if k == 0 {
        Seq::empty()
    } else {
        seq![code_base(key % 4)] + decode_spec(key / 4, (k - 1) as nat)
    }
}

/// 4 to the power `n`.
pub open spec fn pow4(n: nat) -> nat
    decreases n,
{
    if n == 0 {
        1
    } else {
        4 * pow4((n - 1) as nat)
    }
}

/// Whether a byte is one of the four bases.
pub open spec fn is_acgt(base: u8) -> bool {
    base == BASE_A || base == BASE_C || base == BASE_G || base == BASE_T
}

/// Whether every byte of a sequence is one of the four bases.
pub open spec fn all_acgt(s: Seq<u8>) -> bool {
    forall|i: int| 0 <= i < s.len() ==> is_acgt(s[i])
}

/// The packed integer of a window is below 4^length.
pub proof fn lemma_encode_bound(s: Seq<u8>)
    ensures
        encode_spec(s) < pow4(s.len()),
    decreases s.len(),
{
    if s.len() > 0 {
        lemma_encode_bound(s.drop_first());
    }
}

/// pow4 is monotone in the exponent.
pub proof fn lemma_pow4_monotone(m: nat, n: nat)
    requires
        m <= n,
    ensures
        pow4(m) <= pow4(n),
    decreases n,
{
    if m < n {
        lemma_pow4_monotone(m, (n - 1) as nat);
    }
}

/// A window of at most 32 bases packs into a 64-bit key.
pub proof fn lemma_encode_fits_u64(s: Seq<u8>)
    requires
        s.len() <= 32,
    ensures
        encode_spec(s) <= u64::MAX,
{
    lemma_encode_bound(s);
    lemma_pow4_monotone(s.len(), 32);
    lemma_pow4_32();
}

/// The numeric value of 4^32.
pub proof fn lemma_pow4_32()
    ensures
        pow4(32) == 0x10000000000000000,
{
    reveal_with_fuel(pow4, 33);
}

/// Round trip: decoding the packed key of an A/C/G/T window returns the
/// window itself.
pub proof fn lemma_decode_encode(s: Seq<u8>)
    requires
        all_acgt(s),
    ensures
        decode_spec(encode_spec(s), s.len()) == s,
    decreases s.len(),
{
    if s.len() == 0 {
        assert(decode_spec(encode_spec(s), s.len()) =~= s);
    } else {
        let c = base_code(s[0]);
        let r = encode_spec(s.drop_first());
        assert(c < 4);
        assert((c + 4 * r) % 4 == c && (c + 4 * r) / 4 == r) by (nonlinear_arith)
            requires c < 4,
        ;
        assert(is_acgt(s[0]));
        assert(code_base(c) == s[0]);
        assert(all_acgt(s.drop_first()));
        lemma_decode_encode(s.drop_first());
        assert(decode_spec(encode_spec(s), s.len()) =~= s);
    }
}

/// Map one base to its 2-bit code.
fn base_to_code(base: u8) -> (c: u64)
    ensures
        c as nat == base_code(base),
{
    if base == BASE_C {
        1
    } else if base == BASE_G {
        2
    } else if base == BASE_T {
        3
    } else {
        0
    }
}

/// Map a 2-bit code to its base.
fn code_to_base(code: u64) -> (b: u8)
    requires
        code < 4,
    ensures
        b == code_base(code as nat),
{
    if code == 0 {
        BASE_A
    } else if code == 1 {
        BASE_C
    } else if code == 2 {
        BASE_G
    } else {
        BASE_T
    }
}

/// Pack a k-mer into its 64-bit counting key (2 bits per base).
pub fn hash_kmer(kmer: &[u8]) -> (key: u64)
    requires
        kmer@.len() <= 32,
    ensures
        key as nat == encode_spec(kmer@),
{
    let n = kmer.len();
    let mut key: u64 = 0;
    let mut i: usize = n;
    proof {
        assert(kmer@.skip(n as int) =~= Seq::<u8>::empty());
    }
    while i > 0
        invariant
            i <= n,
            n == kmer@.len(),
            n <= 32,
            key as nat == encode_spec(kmer@.skip(i as int)),
        decreases i,
    {
        i = i - 1;
        let c = base_to_code(kmer[i]);
        proof {
            let suffix = kmer@.skip(i as int);
            assert(suffix[0] == kmer@[i as int]);
            assert(suffix.drop_first() =~= kmer@.skip(i + 1));
            lemma_encode_bound(suffix);
            lemma_pow4_monotone(suffix.len(), 32);
            lemma_pow4_32();
            assert(encode_spec(suffix) <= u64::MAX);
        }
        key = 4 * key + c;
    }
    proof {
        assert(kmer@.skip(0) =~= kmer@);
    }
    key
}

/// Reconstruct the k-mer a counting key stands for, reading two bits per
/// position from the low end.
pub fn hash_to_kmer(hash: u64, k: usize) -> (r: Vec<u8>)
    ensures
        r@ == decode_spec(hash as nat, k as nat),
{
    let mut out: Vec<u8> = Vec::new();
    let mut rem: u64 = hash;
    let mut i: usize = 0;
    while i < k
        invariant
            i <= k,
            decode_spec(hash as nat, k as nat) =~= out@ + decode_spec(
                rem as nat,
                (k - i) as nat,
            ),
            out@.len() == i,
        decreases k - i,
    {
        let c = rem % 4;
        let b = code_to_base(c);
        proof {
            let tail = decode_spec(rem as nat, (k - i) as nat);
            assert(tail == seq![code_base(rem as nat % 4)] + decode_spec(
                rem as nat / 4,
                (k - i - 1) as nat,
            ));
            assert((out@ + tail) =~= (out@.push(b) + decode_spec(
                rem as nat / 4,
                (k - i - 1) as nat,
            )));
        }
        out.push(b);
        rem = rem / 4;
        i += 1;
    }
    proof {
        assert(decode_spec(rem as nat, 0) =~= Seq::<u8>::empty());
        assert(out@ + decode_spec(rem as nat, 0) =~= out@);
    }
    out
}

} // verus!
