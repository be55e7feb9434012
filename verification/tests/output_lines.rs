use minimizer_sa::output::format_output_line;

#[test]
fn line_with_no_candidates() {
    let line = format_output_line(&b"query1".to_vec(), &Vec::new());
    assert_eq!(line, b"query1\t0".to_vec());
}

#[test]
fn line_with_positions() {
    let line = format_output_line(&b"q".to_vec(), &vec![4, 0]);
    assert_eq!(line, b"q\t2\t4\t0".to_vec());
}

#[test]
fn multi_digit_numbers() {
    let line = format_output_line(&b"reads".to_vec(), &vec![0, 10, 205, 99999]);
    assert_eq!(line, b"reads\t4\t0\t10\t205\t99999".to_vec());
}

#[test]
fn empty_name_still_formats() {
    let line = format_output_line(&Vec::new(), &vec![7]);
    assert_eq!(line, b"\t1\t7".to_vec());
}
