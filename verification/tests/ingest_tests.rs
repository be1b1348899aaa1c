use kmer_count::counter::count_canonical_kmers;
use kmer_count::canonical::canonical_kmer;
use kmer_count::codec::hash_kmer;
use kmer_count::ingest::build_sequences;

fn lines(v: &[&[u8]]) -> Vec<Vec<u8>> {
    v.iter().map(|l| l.to_vec()).collect()
}

#[test]
fn fasta_records_are_concatenated_and_split() {
    let input = lines(&[b">r1", b"ACGT", b"ACA", b">r2", b"TTT"]);
    let seqs = build_sequences(&input);
    assert_eq!(seqs, vec![b"ACGTACA".to_vec(), b"TTT".to_vec()]);
}

#[test]
fn fastq_quality_lines_are_dropped() {
    // header @q1, sequence AAAA, separator +, quality IIII
    let input = lines(&[b"@q1", b"AAAA", b"+", b"IIII"]);
    let seqs = build_sequences(&input);
    assert_eq!(seqs, vec![b"AAAA".to_vec()]);

    // k = 2: windows AA, AA, AA
    let t = count_canonical_kmers(seqs[0].as_slice(), 2);
    assert_eq!(t.total(), 3);
    let key = hash_kmer(canonical_kmer(b"AA").as_slice());
    assert_eq!(t.count_of(key), 3);
}

#[test]
fn fastq_multiple_records() {
    let input = lines(&[b"@r1", b"ACGT", b"+", b"IIII", b"@r2", b"GG", b"+", b"II"]);
    let seqs = build_sequences(&input);
    assert_eq!(seqs, vec![b"ACGT".to_vec(), b"GG".to_vec()]);
}

#[test]
fn header_directly_after_separator_starts_a_record() {
    // the line after a '+' separator is dropped only when it is no header
    let input = lines(&[b"@h", b"A", b"+", b">x", b"CC"]);
    let seqs = build_sequences(&input);
    assert_eq!(seqs, vec![b"A".to_vec(), b"CC".to_vec()]);
}

#[test]
fn hash_lines_pass_through_outside_fastq_mode() {
    // without a preceding '@' header, '+' and '#' lines are sequence bytes
    let input = lines(&[b">a", b"AC", b"#G"]);
    let seqs = build_sequences(&input);
    assert_eq!(seqs, vec![b"AC#G".to_vec()]);
}

#[test]
fn empty_records_are_not_flushed() {
    let input = lines(&[b">a", b">b", b"ACG", b">c"]);
    let seqs = build_sequences(&input);
    assert_eq!(seqs, vec![b"ACG".to_vec()]);
}

#[test]
fn trailing_buffer_is_flushed() {
    let input = lines(&[b"ACG", b"T"]);
    let seqs = build_sequences(&input);
    assert_eq!(seqs, vec![b"ACGT".to_vec()]);
}

#[test]
fn empty_input_yields_no_sequences() {
    let input: Vec<Vec<u8>> = Vec::new();
    let seqs = build_sequences(&input);
    assert!(seqs.is_empty());
}
