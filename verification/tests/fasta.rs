use minimizer_sa::fasta::{assemble_reference, parse_queries};

fn lines(rows: &[&[u8]]) -> Vec<Vec<u8>> {
    rows.iter().map(|r| r.to_vec()).collect()
}

#[test]
fn reference_drops_header_and_joins_lines() {
    let v = lines(&[b">chr1 test", b"ACGT", b"ACGT", b"AC"]);
    assert_eq!(assemble_reference(&v), b"ACGTACGTAC".to_vec());
}

#[test]
fn reference_of_single_header_is_empty() {
    let v = lines(&[b">only a header"]);
    assert!(assemble_reference(&v).is_empty());
    let none: Vec<Vec<u8>> = Vec::new();
    assert!(assemble_reference(&none).is_empty());
}

#[test]
fn queries_split_into_named_records() {
    let v = lines(&[b">one", b"ACG", b"T", b">two", b"GATT", b"ACA"]);
    let recs = parse_queries(&v);
    assert_eq!(recs.len(), 2);
    assert_eq!(recs[0].name, b"one".to_vec());
    assert_eq!(recs[0].sequence, b"ACGT".to_vec());
    assert_eq!(recs[1].name, b"two".to_vec());
    assert_eq!(recs[1].sequence, b"GATTACA".to_vec());
}

#[test]
fn lines_before_the_first_header_are_ignored() {
    let v = lines(&[b"junk", b"more", b">q", b"AC"]);
    let recs = parse_queries(&v);
    assert_eq!(recs.len(), 1);
    assert_eq!(recs[0].name, b"q".to_vec());
    assert_eq!(recs[0].sequence, b"AC".to_vec());
}

#[test]
fn record_with_no_body_is_empty() {
    let v = lines(&[b">a", b">b", b"CC"]);
    let recs = parse_queries(&v);
    assert_eq!(recs.len(), 2);
    assert_eq!(recs[0].name, b"a".to_vec());
    assert!(recs[0].sequence.is_empty());
    assert_eq!(recs[1].name, b"b".to_vec());
    assert_eq!(recs[1].sequence, b"CC".to_vec());
}

#[test]
fn empty_query_file_has_no_records() {
    let none: Vec<Vec<u8>> = Vec::new();
    assert!(parse_queries(&none).is_empty());
}
