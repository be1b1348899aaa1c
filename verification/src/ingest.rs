//! Record framing: turn a list of input lines into full sequences.
//!
//! A line starting with `>` or `@` opens a new record and flushes any
//! buffered sequence, unconditionally; `@` additionally switches the reader
//! into FASTQ mode.  In FASTQ mode a line starting with `+` or `#` is a
//! quality separator: it is dropped, and so is the line that follows it
//! unless that line is itself a record header.  Every other line is
//! appended to the current buffer.  The final non-empty buffer is flushed
//! at end of input.

use vstd::prelude::*;

verus! {

/// ASCII code of '>'.
pub const MARK_FASTA: u8 = 62;

/// ASCII code of '@'.
pub const MARK_FASTQ: u8 = 64;

/// ASCII code of '+'.
pub const MARK_PLUS: u8 = 43;

/// ASCII code of '#'.
pub const MARK_HASH: u8 = 35;

/// Reader state: the flushed sequences, the current buffer, FASTQ mode,
/// and whether the next line is quality material to drop.
pub open spec fn ingest_step(
    st: (Seq<Seq<u8>>, Seq<u8>, bool, bool),
    line: Seq<u8>,
) -> (Seq<Seq<u8>>, Seq<u8>, bool, bool) {
    let flushed = if st.1.len() > 0 {
        st.0.push(st.1)
    } else {
        st.0
    };
    if line.len() > 0 && line[0] == MARK_FASTA {
        (flushed, Seq::empty(), st.2, false)
    } else if line.len() > 0 && line[0] == MARK_FASTQ {
        (flushed, Seq::empty(), true, false)
    } else if st.3 {
        (st.0, st.1, st.2, false)
    } else if st.2 && line.len() > 0 && (line[0] == MARK_PLUS || line[0] == MARK_HASH) {
        (st.0, st.1, st.2, true)
    } else {
        (st.0, st.1 + line, st.2, false)
    }
}

/// The reader state after consuming all lines, starting from the empty
/// buffer in FASTA mode.
pub open spec fn ingest_fold(lines: Seq<Seq<u8>>) -> (Seq<Seq<u8>>, Seq<u8>, bool, bool)
    decreases lines.len(),
{
    if lines.len() == 0 {
        (Seq::empty(), Seq::empty(), false, false)
    } else {
        ingest_step(ingest_fold(lines.drop_last()), lines.last())
    }
}

/// The sequences a list of lines yields: all flushed records, plus the
/// final buffer when it is non-empty.
pub open spec fn sequences_of(lines: Seq<Seq<u8>>) -> Seq<Seq<u8>> {
    let st = ingest_fold(lines);
    if st.1.len() > 0 {
        st.0.push(st.1)
    } else {
        st.0
    }
}

/// Append the bytes of a line to the current buffer.
fn append_bytes(buf: &mut Vec<u8>, line: &[u8])
    ensures
        final(buf)@ == old(buf)@ + line@,
{
    let n = line.len();
    let mut i: usize = 0;
    while i < n
        invariant
            i <= n,
            n == line@.len(),
            buf@ =~= old(buf)@ + line@.subrange(0, i as int),
        decreases n - i,
    {
        buf.push(line[i]);
        proof {
            assert(old(buf)@ + line@.subrange(0, i as int) + seq![line@[i as int]] =~= old(buf)@
                + line@.subrange(0, i + 1));
        }
        i += 1;
    }
    proof {
        assert(old(buf)@ + line@.subrange(0, n as int) =~= old(buf)@ + line@);
    }
}

/// Build the ordered list of non-empty sequences from the input lines
/// (line terminators already removed).
pub fn build_sequences(lines: &Vec<Vec<u8>>) -> (seqs: Vec<Vec<u8>>)
    ensures
        seqs.deep_view() == sequences_of(lines.deep_view()),
{
    let ghost lv = lines.deep_view();
    let n = lines.len();
    let mut done: Vec<Vec<u8>> = Vec::new();
    let mut buf: Vec<u8> = Vec::new();
    let mut fastq: bool = false;
    let mut skip: bool = false;
    let mut i: usize = 0;
    proof {
        assert(lv.len() == n);
        assert(lv.subrange(0, 0) =~= Seq::<Seq<u8>>::empty());
        assert(done.deep_view() =~= Seq::<Seq<u8>>::empty());
    }
    while i < n
        invariant
            i <= n,
            n == lines@.len(),
            lv == lines.deep_view(),
            lv.len() == n,
            (done.deep_view(), buf@, fastq, skip) == ingest_fold(lv.subrange(0, i as int)),
        decreases n - i,
    {
        let ghost st = ingest_fold(lv.subrange(0, i as int));
        proof {
            assert(lv.subrange(0, i + 1).drop_last() =~= lv.subrange(0, i as int));
            assert(lv.subrange(0, i + 1).last() == lv[i as int]);
            crate::counter::lemma_deep_view_index(lines@, i as int);
            assert(lv[i as int] == lines@[i as int]@);
        }
        let line = &lines[i];
        let marked = line.len() > 0;
        let first: u8 = if marked {
            line[0]
        } else {
            0
        };
        if marked && first == MARK_FASTA {
            if buf.len() > 0 {
                let full = buf;
                buf = Vec::new();
                done.push(full);
                proof {
                    assert(done.deep_view() =~~= st.0.push(full@));
                }
            }
            skip = false;
            proof {
                assert(buf@ =~= Seq::<u8>::empty());
            }
        } else if marked && first == MARK_FASTQ {
            if buf.len() > 0 {
                let full = buf;
                buf = Vec::new();
                done.push(full);
                proof {
                    assert(done.deep_view() =~~= st.0.push(full@));
                }
            }
            fastq = true;
            skip = false;
            proof {
                assert(buf@ =~= Seq::<u8>::empty());
            }
        } else if skip {
            // quality line after a separator: dropped
            skip = false;
        } else if fastq && marked && (first == MARK_PLUS || first == MARK_HASH) {
            // quality separator inside a FASTQ record: dropped, and so is
            // the line that follows it
            skip = true;
        } else {
            append_bytes(&mut buf, line.as_slice());
        }
        i += 1;
    }
    proof {
        assert(lv.subrange(0, n as int) =~= lv);
    }
    if buf.len() > 0 {
        let ghost st = ingest_fold(lv);
        done.push(buf);
        proof {
            assert(done.deep_view() =~~= st.0.push(st.1));
        }
    }
    done
}

} // verus!
