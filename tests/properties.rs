use faigz_rs::error::FastaError;
use faigz_rs::handle::FastaIndex;
use faigz_rs::reader::FastaReader;
use faigz_rs::record::FastaFormat;
use faigz_rs::region::{parse_i64, CoordinateMode};

fn two_records() -> Vec<u8> {
    let mut text = String::new();
    text.push_str(">seq1\n");
    text.push_str("ATCGATCGATCGATCG\n");
    text.push_str(">seq2\n");
    text.push_str("GCTAGCTAGCTAGCTA\n");
    text.push_str("AAAAAAAAAAAAAAAA\n");
    text.into_bytes()
}

fn open(data: &[u8], format: FastaFormat) -> (FastaIndex, FastaReader) {
    let index = FastaIndex::new(data.to_vec(), format).unwrap();
    let reader = FastaReader::new(&index).unwrap();
    (index, reader)
}

fn format_error_name(data: &[u8]) -> String {
    match FastaIndex::new(data.to_vec(), FastaFormat::Fasta) {
        Err(FastaError::FormatError(name)) => name,
        Err(e) => panic!("expected a format error, got {:?}", e),
        Ok(_) => panic!("expected a format error"),
    }
}

#[test]
fn fixture_first_bases_of_one_line_record() {
    let (_, reader) = open(&two_records(), FastaFormat::Fasta);
    assert_eq!(reader.fetch_seq("seq1", 0, 4).unwrap(), "ATCG");
}

#[test]
fn fixture_range_across_a_line_wrap() {
    let (index, reader) = open(&two_records(), FastaFormat::Fasta);
    assert_eq!(index.sequence_length("seq2"), Some(32));
    let got = reader.fetch_seq("seq2", 14, 18).unwrap();
    assert_eq!(got, "TAAA");
    assert!(!got.contains('\n'));
}

#[test]
fn short_first_line_is_a_format_error_naming_the_record() {
    let data = b">seq1\nACGT\n>seq2\nACG\nACGTACGT\n";
    assert_eq!(format_error_name(data), "seq2");
}

#[test]
fn short_middle_line_is_a_format_error() {
    let data = b">s\nACGT\nAC\nACGT\n";
    assert_eq!(format_error_name(data), "s");
}

#[test]
fn repeated_name_is_a_format_error() {
    let data = b">a\nAC\n>a\nGT\n";
    assert_eq!(format_error_name(data), "a");
}

#[test]
fn text_before_first_header_is_rejected() {
    let data = b"ACGT\n>seq1\nAC\n";
    assert!(matches!(
        FastaIndex::new(data.to_vec(), FastaFormat::Fasta),
        Err(FastaError::MissingHeader)
    ));
}

#[test]
fn empty_source_has_no_records() {
    let index = FastaIndex::new(Vec::new(), FastaFormat::Fasta).unwrap();
    assert_eq!(index.num_sequences(), 0);
    assert_eq!(index.sequence_name(0), None);
}

#[test]
fn region_one_based_and_zero_based() {
    let (_, reader) = open(&two_records(), FastaFormat::Fasta);
    let one = reader.fetch_region_in("seq1:1-10", CoordinateMode::OneBased).unwrap();
    assert_eq!(one, reader.fetch_seq("seq1", 0, 10).unwrap());
    assert_eq!(one, "ATCGATCGAT");
    let zero = reader.fetch_region_in("seq1:1-10", CoordinateMode::ZeroBased).unwrap();
    assert_eq!(zero, reader.fetch_seq("seq1", 1, 10).unwrap());
    assert_eq!(zero, "TCGATCGAT");
}

#[test]
fn region_single_position() {
    let (_, reader) = open(&two_records(), FastaFormat::Fasta);
    assert_eq!(reader.fetch_region_in("seq1:5", CoordinateMode::OneBased).unwrap(), "A");
    assert_eq!(reader.fetch_region_in("seq1:5", CoordinateMode::ZeroBased).unwrap(), "T");
    assert_eq!(reader.fetch_region("seq1:+2-3").unwrap(), "TC");
}

#[test]
fn region_errors() {
    let (_, reader) = open(&two_records(), FastaFormat::Fasta);
    assert!(matches!(reader.fetch_region("seq1:abc-5"), Err(FastaError::InvalidRegion(_))));
    assert!(matches!(reader.fetch_region("seq1:1-"), Err(FastaError::InvalidRegion(_))));
    assert!(matches!(
        reader.fetch_region("seq1:99999999999999999999-1"),
        Err(FastaError::InvalidRegion(_))
    ));
    assert!(matches!(reader.fetch_region("nope:1-5"), Err(FastaError::SequenceNotFound(_))));
    assert!(matches!(reader.fetch_region("seq1:0-4"), Err(FastaError::OutOfRange(_))));
}

#[test]
fn whole_record_is_lines_without_terminators() {
    let (_, reader) = open(&two_records(), FastaFormat::Fasta);
    assert_eq!(reader.fetch_seq_all("seq1").unwrap(), "ATCGATCGATCGATCG");
    assert_eq!(
        reader.fetch_seq_all("seq2").unwrap(),
        "GCTAGCTAGCTAGCTAAAAAAAAAAAAAAAAA"
    );
    assert_eq!(reader.fetch_region("seq2").unwrap(), reader.fetch_seq_all("seq2").unwrap());
}

#[test]
fn adjacent_ranges_concatenate() {
    let (_, reader) = open(&two_records(), FastaFormat::Fasta);
    let left = reader.fetch_seq("seq2", 3, 15).unwrap();
    let right = reader.fetch_seq("seq2", 15, 27).unwrap();
    let whole = reader.fetch_seq("seq2", 3, 27).unwrap();
    assert_eq!(format!("{}{}", left, right), whole);
    assert_eq!(whole, "AGCTAGCTAGCTAAAAAAAAAAAA");
}

#[test]
fn presence_agrees_with_length() {
    let (index, _) = open(&two_records(), FastaFormat::Fasta);
    for name in ["seq1", "seq2", "seq3", "", "seq"] {
        assert_eq!(index.has_sequence(name), index.sequence_length(name).is_some());
    }
}

#[test]
fn building_twice_gives_the_same_table() {
    let data = two_records();
    let (a, ra) = open(&data, FastaFormat::Fasta);
    let (b, rb) = open(&data, FastaFormat::Fasta);
    assert_eq!(a.sequence_names(), b.sequence_names());
    for name in a.sequence_names() {
        assert_eq!(a.sequence_length(&name), b.sequence_length(&name));
        assert_eq!(ra.fetch_seq_all(&name).unwrap(), rb.fetch_seq_all(&name).unwrap());
    }
}

#[test]
fn sessions_over_one_handle_agree() {
    let (index, first) = open(&two_records(), FastaFormat::Fasta);
    let shared = index.clone();
    let second = FastaReader::new(&shared).unwrap();
    let requests: [(&str, i64, i64); 5] =
        [("seq1", 0, 16), ("seq2", 10, 20), ("seq2", 31, 40), ("seq1", 3, 3), ("seq9", 0, 1)];
    let mut sequential = Vec::new();
    for (name, s, e) in requests.iter() {
        sequential.push(format!("{:?}", first.fetch_seq(name, *s, *e)));
    }
    for (k, (name, s, e)) in requests.iter().enumerate().rev() {
        assert_eq!(format!("{:?}", second.fetch_seq(name, *s, *e)), sequential[k]);
    }
}

#[test]
fn start_outside_record_is_out_of_range() {
    let (_, reader) = open(&two_records(), FastaFormat::Fasta);
    assert!(matches!(reader.fetch_seq("seq1", -1, 5), Err(FastaError::OutOfRange(_))));
    assert!(matches!(reader.fetch_seq("seq1", 17, 20), Err(FastaError::OutOfRange(_))));
    assert_eq!(reader.fetch_seq("seq1", 16, 20).unwrap(), "");
}

#[test]
fn end_is_clamped_and_empty_ranges_are_empty() {
    let (_, reader) = open(&two_records(), FastaFormat::Fasta);
    assert_eq!(reader.fetch_seq("seq1", 12, 100).unwrap(), "ATCG");
    assert_eq!(reader.fetch_seq("seq1", 5, 2).unwrap(), "");
    assert_eq!(reader.fetch_seq("seq1", 5, 5).unwrap(), "");
}

#[test]
fn unknown_name_is_not_found() {
    let (_, reader) = open(&two_records(), FastaFormat::Fasta);
    match reader.fetch_seq("chr9", 0, 1) {
        Err(FastaError::SequenceNotFound(name)) => assert_eq!(name, "chr9"),
        other => panic!("unexpected {:?}", other),
    }
    assert!(matches!(reader.fetch_seq_all("chr9"), Err(FastaError::SequenceNotFound(_))));
}

#[test]
fn crlf_lines_and_described_headers() {
    let data = b">r1 first record\r\nACGT\r\nAC\r\n>r2\r\nGG\r\n";
    let (index, reader) = open(data, FastaFormat::Fasta);
    assert_eq!(index.sequence_names(), vec!["r1".to_string(), "r2".to_string()]);
    assert_eq!(index.sequence_length("r1"), Some(6));
    assert_eq!(reader.fetch_seq_all("r1").unwrap(), "ACGTAC");
    assert_eq!(reader.fetch_seq("r1", 3, 5).unwrap(), "TA");
    assert_eq!(reader.fetch_seq_all("r2").unwrap(), "GG");
}

#[test]
fn fastq_qualities_and_bases() {
    let data = b"@q1\nACGTAC\n+\nIIJJKK\n@q2\nGG\n+q2\n#!\n";
    let (index, reader) = open(data, FastaFormat::Fastq);
    assert_eq!(index.num_sequences(), 2);
    assert_eq!(reader.fetch_seq_all("q1").unwrap(), "ACGTAC");
    assert_eq!(reader.fetch_qual("q1", 1, 4).unwrap(), "IJJ");
    assert_eq!(reader.fetch_qual("q2", 0, 2).unwrap(), "#!");
    assert!(matches!(reader.fetch_qual("q3", 0, 2), Err(FastaError::SequenceNotFound(_))));
}

#[test]
fn fastq_with_missing_qualities_is_rejected() {
    let data = b"@q1\nACGTAC\n+\nIIJ\n";
    assert!(FastaIndex::new(data.to_vec(), FastaFormat::Fastq).is_err());
}

#[test]
fn fasta_has_no_qualities() {
    let (_, reader) = open(&two_records(), FastaFormat::Fasta);
    assert!(matches!(reader.fetch_qual("seq1", 0, 4), Err(FastaError::QualityNotAvailable)));
}

#[test]
fn names_by_position() {
    let (index, _) = open(&two_records(), FastaFormat::Fasta);
    assert_eq!(index.sequence_name(0), Some("seq1".to_string()));
    assert_eq!(index.sequence_name(1), Some("seq2".to_string()));
    assert_eq!(index.sequence_name(2), None);
}

#[test]
fn integers_are_read_as_i64() {
    assert_eq!(parse_i64(b"-5"), Some(-5));
    assert_eq!(parse_i64(b"+7"), Some(7));
    assert_eq!(parse_i64(b"0042"), Some(42));
    assert_eq!(parse_i64(b""), None);
    assert_eq!(parse_i64(b"-"), None);
    assert_eq!(parse_i64(b"12a"), None);
    assert_eq!(parse_i64(b"9223372036854775807"), Some(i64::MAX));
    assert_eq!(parse_i64(b"-9223372036854775808"), Some(i64::MIN));
    assert_eq!(parse_i64(b"9223372036854775808"), None);
}

#[test]
fn persisted_table_lines() {
    let (index, _) = open(&two_records(), FastaFormat::Fasta);
    let text = String::from_utf8(index.fai_text()).unwrap();
    assert_eq!(text, "seq1\t16\t6\t16\t17\nseq2\t32\t29\t16\t17\n");
    let again = FastaIndex::new(two_records(), FastaFormat::Fasta).unwrap();
    assert_eq!(again.fai_text(), index.fai_text());
}

#[test]
fn persisted_fastq_table_has_quality_offsets() {
    let data = b"@q1\nACGTAC\n+\nIIJJKK\n@q2\nGG\n+q2\n#!\n";
    let (index, _) = open(data, FastaFormat::Fastq);
    let text = String::from_utf8(index.fai_text()).unwrap();
    assert_eq!(text, "q1\t6\t4\t6\t7\t13\nq2\t2\t24\t2\t3\t31\n");
}

#[test]
fn persisted_table_reads_back() {
    let (index, _) = open(&two_records(), FastaFormat::Fasta);
    let fai = index.fai_text();
    let recs = faigz_rs::fai::parse_fai(&fai, FastaFormat::Fasta).unwrap();
    assert_eq!(recs.len(), 2);
    assert_eq!(recs[1].name, b"seq2".to_vec());
    assert_eq!((recs[1].length, recs[1].offset, recs[1].line_bases, recs[1].line_bytes), (32, 29, 16, 17));
    assert!(index.matches_persisted(&fai));
    assert!(!index.matches_persisted(b"seq1\t16\t6\t16\t17\n"));
}

#[test]
fn malformed_persisted_tables_are_refused() {
    assert!(faigz_rs::fai::parse_fai(b"seq1\t016\t6\t16\t17\n", FastaFormat::Fasta).is_none());
    assert!(faigz_rs::fai::parse_fai(b"seq1\t16\t6\t16\n", FastaFormat::Fasta).is_none());
    assert!(faigz_rs::fai::parse_fai(b"seq1\t16\t6\t16\t17", FastaFormat::Fasta).is_none());
    let q = faigz_rs::fai::parse_fai(b"q\t2\t3\t2\t3\t9\n", FastaFormat::Fastq).unwrap();
    assert_eq!(q[0].qual_offset, 9);
}

#[test]
fn error_texts_carry_the_given_names() {
    let (_, reader) = open(&two_records(), FastaFormat::Fasta);
    match reader.fetch_seq("seq1", 40, 50) {
        Err(FastaError::OutOfRange(name)) => assert_eq!(name, "seq1"),
        other => panic!("unexpected {:?}", other),
    }
    match reader.fetch_region("seq1:x-2") {
        Err(FastaError::InvalidRegion(text)) => assert_eq!(text, "seq1:x-2"),
        other => panic!("unexpected {:?}", other),
    }
}
