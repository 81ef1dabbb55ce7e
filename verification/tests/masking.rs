use freq_motif_fastq::mask::{parse_dust_output, parse_u64_token, split_lines, split_tokens,
    MaskError};
use freq_motif_fastq::Threshold;

fn table(entries: &[(&str, u64)]) -> Vec<(Vec<u8>, u64)> {
    entries.iter().map(|(k, v)| (k.as_bytes().to_vec(), *v)).collect()
}

#[test]
fn masked_proportion_compared_against_threshold() {
    let lengths = table(&[("readA", 10)]);
    let report = b"readA 2 4".to_vec();
    // masked = 4 - 2 + 1 = 3, proportion 3/10.
    let low = Threshold { num: 2, den: 10 };
    assert_eq!(parse_dust_output(&report, &lengths, &low), Ok(1));
    let high = Threshold { num: 4, den: 10 };
    assert_eq!(parse_dust_output(&report, &lengths, &high), Ok(0));
}

#[test]
fn malformed_two_token_line_is_ignored() {
    let lengths = table(&[("readA", 10)]);
    let report = b"readA 2".to_vec();
    let t = Threshold { num: 1, den: 100 };
    assert_eq!(parse_dust_output(&report, &lengths, &t), Ok(0));
}

#[test]
fn four_token_line_is_ignored() {
    let lengths = table(&[("readA", 10)]);
    let report = b"readA 2 4 9".to_vec();
    let t = Threshold { num: 1, den: 100 };
    assert_eq!(parse_dust_output(&report, &lengths, &t), Ok(0));
}

#[test]
fn non_integer_offsets_are_fatal() {
    let lengths = table(&[("readA", 10)]);
    let t = Threshold { num: 1, den: 2 };
    assert_eq!(
        parse_dust_output(&b"readA x 4".to_vec(), &lengths, &t),
        Err(MaskError::InvalidStart)
    );
    assert_eq!(
        parse_dust_output(&b"readA 2 y".to_vec(), &lengths, &t),
        Err(MaskError::InvalidEnd)
    );
}

#[test]
fn inverted_interval_is_fatal() {
    let lengths = table(&[("readA", 10)]);
    let t = Threshold { num: 1, den: 2 };
    assert_eq!(
        parse_dust_output(&b"readA 5 2".to_vec(), &lengths, &t),
        Err(MaskError::InvalidInterval)
    );
}

#[test]
fn intervals_for_one_read_accumulate() {
    let lengths = table(&[("r", 10)]);
    let report = b"r 1 5\nr 6 10\n".to_vec();
    let t = Threshold { num: 99, den: 100 };
    // masked = 5 + 5 = 10, proportion 10/10 = 1 > 0.99.
    assert_eq!(parse_dust_output(&report, &lengths, &t), Ok(1));
}

#[test]
fn unknown_read_identifiers_are_ignored() {
    let lengths = table(&[("readA", 10)]);
    let report = b"other 1 9".to_vec();
    let t = Threshold { num: 1, den: 100 };
    assert_eq!(parse_dust_output(&report, &lengths, &t), Ok(0));
}

#[test]
fn several_reads_counted_independently() {
    let lengths = table(&[("a", 10), ("b", 10)]);
    let report = b"a 1 9\nb 1 2\n".to_vec();
    let t = Threshold { num: 1, den: 2 };
    // a: 9/10 > 1/2, b: 2/10 not > 1/2.
    assert_eq!(parse_dust_output(&report, &lengths, &t), Ok(1));
}

#[test]
fn split_lines_drops_trailing_newline_segment() {
    let lines = split_lines(&b"a\nbb\n".to_vec());
    assert_eq!(lines, vec![b"a".to_vec(), b"bb".to_vec()]);
    let lines2 = split_lines(&b"a\n\nb".to_vec());
    assert_eq!(lines2, vec![b"a".to_vec(), b"".to_vec(), b"b".to_vec()]);
    let lines3 = split_lines(&b"".to_vec());
    assert!(lines3.is_empty());
}

#[test]
fn split_lines_strips_carriage_return_before_newline() {
    let lines = split_lines(&b"a\r\nbb\r\n".to_vec());
    assert_eq!(lines, vec![b"a".to_vec(), b"bb".to_vec()]);
    let inner = split_lines(&b"a\rb".to_vec());
    assert_eq!(inner, vec![b"a\rb".to_vec()]);
    let unterminated = split_lines(&b"x\r".to_vec());
    assert_eq!(unterminated, vec![b"x\r".to_vec()]);
}

#[test]
fn split_tokens_on_whitespace_runs() {
    let toks = split_tokens(&b"  a \t bb\rc ".to_vec());
    assert_eq!(toks, vec![b"a".to_vec(), b"bb".to_vec(), b"c".to_vec()]);
    let none = split_tokens(&b"   ".to_vec());
    assert!(none.is_empty());
}

#[test]
fn parse_u64_accepts_decimal_and_rejects_other() {
    assert_eq!(parse_u64_token(&b"123".to_vec()), Some(123));
    assert_eq!(parse_u64_token(&b"+7".to_vec()), Some(7));
    assert_eq!(parse_u64_token(&b"0".to_vec()), Some(0));
    assert_eq!(parse_u64_token(&b"".to_vec()), None);
    assert_eq!(parse_u64_token(&b"+".to_vec()), None);
    assert_eq!(parse_u64_token(&b"12a".to_vec()), None);
    assert_eq!(parse_u64_token(&b"-3".to_vec()), None);
    assert_eq!(parse_u64_token(&b"18446744073709551615".to_vec()), Some(u64::MAX));
    assert_eq!(parse_u64_token(&b"18446744073709551616".to_vec()), None);
}
