use faigz_rs::error::FastaError;
use faigz_rs::handle::FastaIndex;
use faigz_rs::reader::FastaReader;
use faigz_rs::record::FastaFormat;

fn create_test_fasta() -> Vec<u8> {
    let mut text = String::new();
    text.push_str(">seq1\n");
    text.push_str("ATCGATCGATCGATCG\n");
    text.push_str(">seq2\n");
    text.push_str("GCTAGCTAGCTAGCTA\n");
    text.push_str("AAAAAAAAAAAAAAAA\n");
    text.push_str(">seq3\n");
    text.push_str("TTTTTTTTTTTTTTTT\n");
    text.into_bytes()
}

fn create_small_fasta() -> Vec<u8> {
    let mut text = String::new();
    text.push_str(">seq1\n");
    text.push_str("ATCGATCGATCGATCG\n");
    text.push_str(">seq2\n");
    text.push_str("GCTAGCTAGCTAGCTA\n");
    text.push_str("AAAAAAAAAAAAAAAA\n");
    text.into_bytes()
}

fn create_test_fastq() -> Vec<u8> {
    let mut text = String::new();
    text.push_str("@seq1\n");
    text.push_str("ATCGATCGATCGATCG\n");
    text.push_str("+\n");
    text.push_str("IIIIIIIIIIIIIIII\n");
    text.push_str("@seq2\n");
    text.push_str("GCTAGCTAGCTAGCTA\n");
    text.push_str("+\n");
    text.push_str("JJJJJJJJJJJJJJJJ\n");
    text.into_bytes()
}

#[test]
fn test_index_creation() {
    let index = FastaIndex::new(create_small_fasta(), FastaFormat::Fasta).unwrap();
    assert!(index.num_sequences() > 0);
}

#[test]
fn test_basic_functionality() {
    let index = FastaIndex::new(create_test_fasta(), FastaFormat::Fasta).unwrap();

    // Test index metadata
    assert!(index.num_sequences() > 0);

    // Test sequence names
    let names = index.sequence_names();
    assert!(names.contains(&"seq1".to_string()));
    assert!(names.contains(&"seq2".to_string()));
    assert!(names.contains(&"seq3".to_string()));

    // Test sequence lengths
    assert!(index.sequence_length("seq1").is_some());
    assert!(index.sequence_length("nonexistent").is_none());

    // Test sequence existence
    assert!(index.has_sequence("seq1"));
    assert!(!index.has_sequence("nonexistent"));

    // Test reader creation
    let reader = FastaReader::new(&index).unwrap();

    // Test sequence fetching
    let seq = reader.fetch_seq("seq1", 0, 10).unwrap();
    assert!(!seq.is_empty());
    println!("Fetched sequence: {}", seq);
}

#[test]
fn integration_tests_test_region_parsing() {
    let index = FastaIndex::new(create_test_fasta(), FastaFormat::Fasta).unwrap();
    let reader = FastaReader::new(&index).unwrap();

    // Test region parsing
    let seq = reader.fetch_region("seq1:1-10").unwrap();
    println!("Fetched region seq1:1-10: {}", seq);
    assert!(!seq.is_empty());

    // Test whole sequence fetch
    let seq = reader.fetch_region("seq1").unwrap();
    println!("Fetched whole sequence seq1: {}", seq);
    assert!(!seq.is_empty());

    // Test invalid region
    let result = reader.fetch_region("invalid_format");
    assert!(result.is_err());
    println!("Invalid region correctly failed");
}

#[test]
fn test_fastq_support() {
    let index = FastaIndex::new(create_test_fastq(), FastaFormat::Fastq).unwrap();
    let reader = FastaReader::new(&index).unwrap();

    let qual_result = reader.fetch_qual("seq1", 0, 10);
    match qual_result {
        Err(FastaError::QualityNotAvailable) => {
            println!("Quality string fetching not supported (as expected)");
        }
        Ok(qual) => {
            println!("Fetched quality scores: {}", qual);
            assert!(!qual.is_empty());
        }
        Err(e) => panic!("Unexpected error: {:?}", e),
    }
}

#[test]
fn test_clone_and_drop() {
    let index = FastaIndex::new(create_test_fasta(), FastaFormat::Fasta).unwrap();

    // Test cloning
    let index_clone = index.clone();

    // Both should have the same number of sequences
    assert_eq!(index.num_sequences(), index_clone.num_sequences());

    // Test that readers can be created from both
    let _reader1 = FastaReader::new(&index).unwrap();
    let _reader2 = FastaReader::new(&index_clone).unwrap();

    drop(_reader1);
    drop(_reader2);
    drop(index);
    drop(index_clone);

    println!("Clone and drop test completed successfully");
}

#[test]
fn test_memory_safety() {
    let index = FastaIndex::new(create_test_fasta(), FastaFormat::Fasta).unwrap();

    // Create many readers and drop them
    for _i in 0..100 {
        let _reader = FastaReader::new(&index).unwrap();
    }

    println!("Memory safety test completed successfully");
}
