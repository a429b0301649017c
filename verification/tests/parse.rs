use number_set::parse_number_set;
use number_set::Expected;
use number_set::ParseError;

#[test]
fn one_number() {
    let result = parse_number_set("42").unwrap();
    assert_eq!(result, vec![42]);
}

#[test]
fn one_range() {
    let result = parse_number_set("1..3").unwrap();
    assert_eq!(result, vec![1, 2, 3]);
}

#[test]
fn numbers_and_ranges() {
    let result = parse_number_set("1,3,5..7,9,12..14").unwrap();
    assert_eq!(result, vec![1, 3, 5, 6, 7, 9, 12, 13, 14]);
}

#[test]
fn space_separated() {
    let result = parse_number_set("1 3 5..7 9 12..14").unwrap();
    assert_eq!(result, vec![1, 3, 5, 6, 7, 9, 12, 13, 14]);
}

#[test]
fn dash_range() {
    let result = parse_number_set("1-3").unwrap();
    assert_eq!(result, vec![1, 2, 3]);
}

#[test]
fn descending_range_is_empty() {
    assert_eq!(parse_number_set("5-3").unwrap(), vec![]);
    assert_eq!(parse_number_set("5..3").unwrap(), vec![]);
}

#[test]
fn empty_input_fails() {
    let e = parse_number_set("").unwrap_err();
    let ParseError::MalformedInput { offset, expected } = e;
    assert_eq!(offset, 0);
    assert_eq!(expected, Expected::Number);
}

#[test]
fn empty_entry_fails() {
    let e = parse_number_set("1,,3").unwrap_err();
    let ParseError::MalformedInput { offset, expected } = e;
    assert_eq!(offset, 2);
    assert_eq!(expected, Expected::Number);
}

#[test]
fn tab_separated() {
    assert_eq!(parse_number_set("1\t3").unwrap(), vec![1, 3]);
    assert_eq!(parse_number_set("1 \t 3").unwrap(), vec![1, 3]);
}

#[test]
fn multiple_spaces_are_one_separator() {
    assert_eq!(parse_number_set("1   3").unwrap(), vec![1, 3]);
}

#[test]
fn overlapping_ranges_are_deduplicated() {
    assert_eq!(parse_number_set("1..5,3..8").unwrap(), vec![1, 2, 3, 4, 5, 6, 7, 8]);
}

#[test]
fn repeated_numbers_appear_once() {
    assert_eq!(parse_number_set("2,2,2").unwrap(), vec![2]);
}

#[test]
fn output_is_sorted() {
    assert_eq!(parse_number_set("9,1,5").unwrap(), vec![1, 5, 9]);
}

#[test]
fn leading_zeros_are_plain_decimal() {
    assert_eq!(parse_number_set("007").unwrap(), vec![7]);
    assert_eq!(parse_number_set("0").unwrap(), vec![0]);
}

#[test]
fn trailing_text_fails() {
    let e = parse_number_set("1x").unwrap_err();
    let ParseError::MalformedInput { offset, expected } = e;
    assert_eq!(offset, 1);
    assert_eq!(expected, Expected::SeparatorOrEnd);
}

#[test]
fn trailing_separator_fails() {
    let e = parse_number_set("1,").unwrap_err();
    let ParseError::MalformedInput { offset, expected } = e;
    assert_eq!(offset, 2);
    assert_eq!(expected, Expected::Number);
}

#[test]
fn trailing_whitespace_fails() {
    let e = parse_number_set("1 ").unwrap_err();
    let ParseError::MalformedInput { offset, expected } = e;
    assert_eq!(offset, 2);
    assert_eq!(expected, Expected::Number);
}

#[test]
fn dangling_range_operator_fails() {
    let e = parse_number_set("1-").unwrap_err();
    let ParseError::MalformedInput { offset, expected } = e;
    assert_eq!(offset, 1);
    assert_eq!(expected, Expected::SeparatorOrEnd);

    let e = parse_number_set("1..").unwrap_err();
    let ParseError::MalformedInput { offset, .. } = e;
    assert_eq!(offset, 1);
}

#[test]
fn range_of_ranges_fails() {
    let e = parse_number_set("1..2..3").unwrap_err();
    let ParseError::MalformedInput { offset, expected } = e;
    assert_eq!(offset, 4);
    assert_eq!(expected, Expected::SeparatorOrEnd);
}

#[test]
fn leading_operator_fails() {
    assert!(parse_number_set("-1").is_err());
    assert!(parse_number_set("..2").is_err());
    assert!(parse_number_set("a").is_err());
}

#[test]
fn largest_number_parses() {
    let s = format!("{}", usize::MAX);
    assert_eq!(parse_number_set(&s).unwrap(), vec![usize::MAX]);
}

#[test]
fn too_large_number_fails() {
    // one past the largest representable value
    let e = parse_number_set("18446744073709551616").unwrap_err();
    let ParseError::MalformedInput { offset, expected } = e;
    assert_eq!(offset, 0);
    assert_eq!(expected, Expected::RepresentableNumber);
}

#[test]
fn too_large_range_end_fails() {
    let e = parse_number_set("1..99999999999999999999").unwrap_err();
    let ParseError::MalformedInput { expected, .. } = e;
    assert_eq!(expected, Expected::RepresentableNumber);
}

#[test]
fn offsets_count_characters() {
    // the micro sign is a multi-byte character and no digit
    let e = parse_number_set("\u{b5}").unwrap_err();
    assert_eq!(e.offset(), 0);
    assert_eq!(e.expected(), Expected::Number);
    let e = parse_number_set("1,\u{b5}5").unwrap_err();
    assert_eq!(e.offset(), 2);
    assert_eq!(e.expected(), Expected::Number);
}

#[test]
fn error_accessors_report_position() {
    let e = parse_number_set("4;5").unwrap_err();
    assert_eq!(e.offset(), 1);
    assert_eq!(e.expected(), Expected::SeparatorOrEnd);
}
