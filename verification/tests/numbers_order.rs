use duralade::model::{Ident, Import, NodeId, Symbol};
use duralade::parse::numbers::{format_with_underscores, frac_part_ok, int_part_ok, validate_number_underscores};
use duralade::parse::order::{find_ordering_violations, import_key, key_less};
use duralade::parse::ParseContext;

fn ctx(src: &str) -> ParseContext {
    ParseContext::new(src.as_bytes().to_vec(), "n.dl".chars().collect())
}

fn msg(c: &ParseContext, k: usize) -> String {
    c.strict_mode_violations[k].message.iter().collect()
}

#[test]
fn int_part_grouping_from_the_right() {
    assert!(int_part_ok(b"1_000"));
    assert!(int_part_ok(b"12_345_678"));
    assert!(int_part_ok(b"999"));
    assert!(!int_part_ok(b"1000"));
    assert!(!int_part_ok(b"10_00"));
    assert!(!int_part_ok(b"_100"));
    assert!(!int_part_ok(b"9_9"));
}

#[test]
fn frac_part_grouping_from_the_left() {
    assert!(frac_part_ok(b"123_4"));
    assert!(frac_part_ok(b"12"));
    assert!(!frac_part_ok(b"1234"));
    assert!(!frac_part_ok(b"1_234"));
}

#[test]
fn underscores_are_placed_every_three_digits() {
    assert_eq!(format_with_underscores(b"1234567", true), b"1_234_567".to_vec());
    assert_eq!(format_with_underscores(b"1234567", false), b"123_456_7".to_vec());
    assert_eq!(format_with_underscores(b"123", true), b"123".to_vec());
}

#[test]
fn badly_grouped_number_is_reported_with_expected_form() {
    let mut c = ctx("x = 1000");
    validate_number_underscores(&mut c, b"1000", 4);
    assert_eq!(c.strict_mode_violations.len(), 1);
    assert_eq!(msg(&c, 0), "Number should be formatted as 1_000");
    assert_eq!(c.strict_mode_violations[0].consumed_range, (4, 8));

    let mut d = ctx("");
    validate_number_underscores(&mut d, b"1234.5678", 0);
    assert_eq!(msg(&d, 0), "Number should be formatted as 1_234.567_8");
}

#[test]
fn well_grouped_number_is_silent() {
    let mut c = ctx("");
    validate_number_underscores(&mut c, b"1_000.25", 0);
    validate_number_underscores(&mut c, b"42", 0);
    assert!(c.strict_mode_violations.is_empty());
}

#[test]
fn keys_compare_lexicographically() {
    assert!(key_less(&vec![1, 2], &vec![1, 3]));
    assert!(key_less(&vec![1], &vec![1, 0]));
    assert!(!key_less(&vec![1, 0], &vec![1]));
    assert!(!key_less(&vec![2], &vec![2]));
}

#[test]
fn out_of_order_items_name_their_target() {
    // keys: 1, 3, 2, 0 -> item 2 goes before item 1; item 3 goes before item 0.
    let keys = vec![vec![1], vec![3], vec![2], vec![0]];
    let valid = vec![true, true, true, true];
    assert_eq!(find_ordering_violations(&keys, &valid), vec![(2, 1), (3, 0)]);
}

#[test]
fn sorted_items_have_no_violations() {
    let keys = vec![vec![1], vec![1, 5], vec![2]];
    let valid = vec![true, true, true];
    assert!(find_ordering_violations(&keys, &valid).is_empty());
}

#[test]
fn invalid_items_are_ignored_by_ordering() {
    let keys = vec![vec![5], vec![1], vec![6]];
    let valid = vec![false, true, true];
    assert!(find_ordering_violations(&keys, &valid).is_empty());
}

fn import(path: &[&str]) -> Import {
    Import {
        node_id: NodeId(0),
        path: path
            .iter()
            .map(|s| Ident { node_id: NodeId(0), name: Symbol::from_str(s), is_raw: false })
            .collect(),
        alias: None,
    }
}

#[test]
fn import_keys_order_by_path_segments() {
    let a = import_key(&import(&["std", "map"]));
    let b = import_key(&import(&["std", "str"]));
    let c = import_key(&import(&["std"]));
    assert!(key_less(&a, &b));
    assert!(key_less(&c, &a));
    assert!(!key_less(&b, &a));
}

#[test]
fn imports_out_of_order_are_reported() {
    let mut c = ctx("import b\nimport a\n");
    let id0 = c.alloc_node_id(0, 8);
    let id1 = c.alloc_node_id(9, 17);
    let mut i0 = import(&["b"]);
    i0.node_id = id0;
    let mut i1 = import(&["a"]);
    i1.node_id = id1;
    c.assert_ordering(&vec![i0, i1], &vec![]);
    assert_eq!(c.strict_mode_violations.len(), 1);
    assert_eq!(msg(&c, 0), "Import 'a' should appear before 'b'");
    assert_eq!(c.strict_mode_violations[0].consumed_range, (9, 17));
}
