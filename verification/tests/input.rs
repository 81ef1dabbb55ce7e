use std::io::Write;

use freq_motif_fastq::gz::decode_input;

#[test]
fn plain_input_passes_through() {
    let data = b"@r1\nATAT\n+\nIIII\n".to_vec();
    let out = decode_input(&b"reads.fastq".to_vec(), data.clone());
    assert_eq!(out, Some(data));
}

#[test]
fn gzip_input_is_inflated() {
    let original = b"@r1\nATATAT\n+\nIIIIII\n".to_vec();
    let mut enc = flate2::write::GzEncoder::new(Vec::new(), flate2::Compression::default());
    enc.write_all(&original).unwrap();
    let compressed = enc.finish().unwrap();
    assert_ne!(compressed, original);
    let out = decode_input(&b"reads.fastq.gz".to_vec(), compressed);
    assert_eq!(out, Some(original));
}

#[test]
fn broken_gzip_input_fails() {
    let garbage = b"this is not gzip".to_vec();
    let out = decode_input(&b"reads.fastq.gz".to_vec(), garbage);
    assert_eq!(out, None);
}
