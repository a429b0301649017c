use number_set::parse_number_set;
use number_set::to_comma_string;

#[test]
fn normalization_is_idempotent() {
    let first = parse_number_set("12..14,1,3,5..7,9,6").unwrap();
    let rendered = to_comma_string(&first);
    assert_eq!(rendered, "1,3,5,6,7,9,12,13,14");
    let second = parse_number_set(&rendered).unwrap();
    assert_eq!(second, first);
}

#[test]
fn rendering_writes_plain_decimal() {
    assert_eq!(to_comma_string(&vec![]), "");
    assert_eq!(to_comma_string(&vec![0]), "0");
    assert_eq!(to_comma_string(&vec![10, 2]), "10,2");
    assert_eq!(to_comma_string(&vec![usize::MAX]), format!("{}", usize::MAX));
}

#[test]
fn joining_with_a_separator_unions_the_sets() {
    let left = "1..3,7";
    let right = "2,8..9";
    let expected = vec![1, 2, 3, 7, 8, 9];
    let with_comma = format!("{},{}", left, right);
    assert_eq!(parse_number_set(&with_comma).unwrap(), expected);
    let with_space = format!("{} {}", left, right);
    assert_eq!(parse_number_set(&with_space).unwrap(), expected);
    let with_tab = format!("{}\t{}", left, right);
    assert_eq!(parse_number_set(&with_tab).unwrap(), expected);
}

#[test]
fn output_is_strictly_ascending() {
    let v = parse_number_set("8,3..6,3,10,4").unwrap();
    for w in v.windows(2) {
        assert!(w[0] < w[1]);
    }
}

#[test]
fn output_is_the_union_of_the_entries() {
    let v = parse_number_set("4..6,2,5..8,2").unwrap();
    let mut union: Vec<usize> = Vec::new();
    for set in [vec![4, 5, 6], vec![2], vec![5, 6, 7, 8], vec![2]] {
        for x in set {
            if !union.contains(&x) {
                union.push(x);
            }
        }
    }
    union.sort();
    assert_eq!(v, union);
}

#[test]
fn separator_kinds_parse_alike() {
    let expected = vec![1, 3, 5];
    assert_eq!(parse_number_set("1,3,5").unwrap(), expected);
    assert_eq!(parse_number_set("1 3 5").unwrap(), expected);
    // a comma followed by a space is no separator of the grammar
    assert!(parse_number_set("1, 3, 5").is_err());
    assert!(parse_number_set("1 ,3").is_err());
}
