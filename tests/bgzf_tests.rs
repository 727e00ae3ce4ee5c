use faigz_rs::error::FastaError;
use faigz_rs::handle::FastaIndex;
use faigz_rs::reader::FastaReader;
use faigz_rs::record::FastaFormat;

fn bgzf_block(chunk: &[u8]) -> Vec<u8> {
    let cdata = miniz_oxide::deflate::compress_to_vec(chunk, 6);
    let bsize = 18 + cdata.len() + 8 - 1;
    let mut block = vec![31u8, 139, 8, 4, 0, 0, 0, 0, 0, 255, 6, 0, 66, 67, 2, 0];
    block.push((bsize & 0xff) as u8);
    block.push((bsize >> 8) as u8);
    block.extend_from_slice(&cdata);
    block.extend_from_slice(&[0, 0, 0, 0]);
    let n = chunk.len() as u32;
    block.extend_from_slice(&n.to_le_bytes());
    block
}

fn bgzf(text: &[u8], block_size: usize) -> Vec<u8> {
    let mut out = Vec::new();
    for chunk in text.chunks(block_size) {
        out.extend_from_slice(&bgzf_block(chunk));
    }
    out.extend_from_slice(&bgzf_block(&[]));
    out
}

fn sample() -> Vec<u8> {
    let mut text = String::new();
    text.push_str(">chr1 first\n");
    text.push_str("ACGTACGTAC\nGTACGTACGT\nAC\n");
    text.push_str(">chr2\n");
    text.push_str("TTTTGGGGCC\nCCAAAATTTT\nGGGGCCCCAA\n");
    text.push_str(">chr3\n");
    text.push_str("N\n");
    text.into_bytes()
}

#[test]
fn compressed_reads_match_plain_reads() {
    let text = sample();
    let plain = FastaIndex::new(text.clone(), FastaFormat::Fasta).unwrap();
    let packed = FastaIndex::new_bgzf(bgzf(&text, 7), FastaFormat::Fasta, 5).unwrap();
    assert_eq!(plain.sequence_names(), packed.sequence_names());
    let rp = FastaReader::new(&plain).unwrap();
    let rc = FastaReader::new(&packed).unwrap();
    for name in plain.sequence_names() {
        let len = plain.sequence_length(&name).unwrap();
        assert_eq!(packed.sequence_length(&name), Some(len));
        for start in 0..=len {
            for end in start..=len + 1 {
                assert_eq!(
                    rc.fetch_seq(&name, start, end).unwrap(),
                    rp.fetch_seq(&name, start, end).unwrap()
                );
            }
        }
    }
}

#[test]
fn compressed_fixture_values() {
    let packed = FastaIndex::new_bgzf(bgzf(&sample(), 4), FastaFormat::Fasta, 3).unwrap();
    let reader = FastaReader::new(&packed).unwrap();
    assert_eq!(reader.fetch_seq_all("chr1").unwrap(), "ACGTACGTACGTACGTACGTAC");
    assert_eq!(reader.fetch_seq("chr2", 8, 14).unwrap(), "CCCCAA");
    assert_eq!(reader.fetch_region("chr3:1").unwrap(), "N");
}

#[test]
fn compressed_single_block_source() {
    let packed = FastaIndex::new_bgzf(bgzf(&sample(), 1000), FastaFormat::Fasta, 64).unwrap();
    let reader = FastaReader::new(&packed).unwrap();
    assert_eq!(reader.fetch_seq("chr2", 25, 30).unwrap(), "CCCAA");
}

#[test]
fn zero_interval_is_rejected() {
    assert!(matches!(
        FastaIndex::new_bgzf(bgzf(&sample(), 7), FastaFormat::Fasta, 0),
        Err(FastaError::InvalidInterval)
    ));
}

#[test]
fn broken_block_chain_is_rejected() {
    let mut data = bgzf(&sample(), 7);
    data.truncate(data.len() - 3);
    assert!(matches!(
        FastaIndex::new_bgzf(data, FastaFormat::Fasta, 5),
        Err(FastaError::CorruptBlock)
    ));
    assert!(matches!(
        FastaIndex::new_bgzf(sample(), FastaFormat::Fasta, 5),
        Err(FastaError::CorruptBlock)
    ));
}

#[test]
fn compressed_malformed_text_is_a_format_error() {
    let text = b">s\nACGT\nAC\nACGT\n".to_vec();
    match FastaIndex::new_bgzf(bgzf(&text, 5), FastaFormat::Fasta, 4) {
        Err(FastaError::FormatError(name)) => assert_eq!(name, "s"),
        other => panic!("unexpected {:?}", other.is_ok()),
    }
}

#[test]
fn compressed_fastq_qualities() {
    let text = b"@q1\nACGTAC\n+\nIIJJKK\n@q2\nGG\n+\n#!\n".to_vec();
    let packed = FastaIndex::new_bgzf(bgzf(&text, 3), FastaFormat::Fastq, 2).unwrap();
    let reader = FastaReader::new(&packed).unwrap();
    assert_eq!(reader.fetch_qual("q1", 2, 6).unwrap(), "JJKK");
    assert_eq!(reader.fetch_seq("q2", 0, 2).unwrap(), "GG");
}
