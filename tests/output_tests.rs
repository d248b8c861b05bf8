use edicat::output::number_prefix;

#[test]
fn first_line_is_numbered_one() {
    assert_eq!(number_prefix(0), "     1\t");
}

#[test]
fn numbers_are_right_justified() {
    assert_eq!(number_prefix(122), "   123\t");
    assert_eq!(number_prefix(99998), " 99999\t");
    assert_eq!(number_prefix(99999), "100000\t");
}

#[test]
fn wide_numbers_are_not_cut() {
    assert_eq!(number_prefix(999999), "1000000\t");
    assert_eq!(number_prefix(usize::MAX - 1), format!("{:>6}\t", usize::MAX));
}
