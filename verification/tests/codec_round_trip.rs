use minimizer_sa::codec::{deserialize_index, serialize_index};
use minimizer_sa::index::{build_index, check_index};
use minimizer_sa::query::process_query;

fn assert_round_trip(reference: &[u8], k: usize, w: usize) {
    let d = build_index(reference.to_vec(), k, w);
    let bytes = serialize_index(&d);
    let back = deserialize_index(&bytes).expect("a written index must read back");
    assert_eq!(back.reference, d.reference);
    assert_eq!(back.minimizer_sequence, d.minimizer_sequence);
    assert_eq!(back.minimizer_sa, d.minimizer_sa);
    assert_eq!(back.minimizer_k, d.minimizer_k);
    assert_eq!(back.window_w, d.window_w);
    assert!(check_index(&back));
}

#[test]
fn round_trips_preserve_every_field() {
    assert_round_trip(b"ACGT", 2, 3);
    assert_round_trip(b"TGCA", 2, 3);
    assert_round_trip(b"ACACACAC", 2, 3);
}

#[test]
fn queries_agree_after_a_round_trip() {
    for reference in [&b"ACGT"[..], b"TGCA", b"ACACACAC"] {
        let d = build_index(reference.to_vec(), 2, 3);
        let bytes = serialize_index(&d);
        let back = deserialize_index(&bytes).unwrap();
        for query in [&b"ACGT"[..], b"ACA", b"CAC", b"TGC"] {
            let before = process_query(&d, &query.to_vec(), 0, 0);
            let after = process_query(&back, &query.to_vec(), 0, 0);
            assert_eq!(before, after);
        }
    }
}

#[test]
fn truncated_bytes_are_rejected() {
    let d = build_index(b"ACGTACGTAC".to_vec(), 3, 4);
    let bytes = serialize_index(&d);
    for cut in [0, 1, 7, 8, 9, bytes.len() - 1] {
        let mut short = bytes.clone();
        short.truncate(cut);
        assert!(deserialize_index(&short).is_none());
    }
}

#[test]
fn trailing_bytes_are_rejected() {
    let d = build_index(b"ACGTACGTAC".to_vec(), 3, 4);
    let mut bytes = serialize_index(&d);
    bytes.push(0);
    assert!(deserialize_index(&bytes).is_none());
}

#[test]
fn garbage_is_rejected() {
    let junk = vec![0xffu8; 40];
    assert!(deserialize_index(&junk).is_none());
    assert!(deserialize_index(&Vec::new()).is_none());
}
