//! Ledger, row and split behaviour on concrete values.

use rowjoin::fields::{FieldDescriptor, Fields};
use rowjoin::mapper::{ClaimAll, TableMapper};
use rowjoin::num::parse_u64;
use rowjoin::row::{RealRow, Row, VirtualRow};

fn fd(name: &str, table: &str) -> FieldDescriptor {
    FieldDescriptor { name: name.to_string(), table: table.to_string() }
}

fn cell(s: &str) -> Option<String> {
    Some(s.to_string())
}

fn catalog_join() -> Fields {
    Fields::new(vec![fd("id", "f"), fd("a", "f"), fd("id", "g"), fd("x", "g")])
}

#[test]
fn ledger_starts_full() {
    let fields = catalog_join();
    let all = fields.get_all_tables();
    assert_eq!(
        all,
        vec![
            (0usize, "f".to_string()),
            (1, "f".to_string()),
            (2, "g".to_string()),
            (3, "g".to_string())
        ]
    );
}

#[test]
fn find_and_remove_consumes_each_occurrence_once() {
    let mut fields = catalog_join();
    // Two tables both carry an `id` column: the first lookup binds the
    // first occurrence, the second lookup the second, the third misses.
    assert_eq!(fields.find_and_remove("id"), Some(0));
    assert_eq!(fields.find_and_remove("id"), Some(2));
    assert_eq!(fields.find_and_remove("id"), None);
    assert_eq!(fields.find_and_remove("a"), Some(1));
    assert_eq!(fields.find_and_remove("x"), Some(3));
    assert_eq!(fields.find_and_remove("x"), None);
}

#[test]
fn find_and_remove_missing_name() {
    let mut fields = catalog_join();
    assert_eq!(fields.find_and_remove("nope"), None);
    assert_eq!(fields.get_all_tables().len(), 4);
}

#[test]
fn real_row_getters() {
    let fields = Fields::new(vec![fd("id", "f"), fd("a", "f"), fd("b", "f")]);
    let mut row = Row::RealRow(RealRow {
        row: vec![cell("17"), cell("x"), None],
        fields,
    });
    assert_eq!(row.get_u64("id"), Some(17));
    assert_eq!(row.get_string("a"), Some("x".to_string()));
    // The `b` column is a SQL NULL: absent, not an error.
    assert_eq!(row.get_string("b"), None);
    // `a` was consumed by the earlier lookup.
    assert_eq!(row.get_string("a"), None);
    assert_eq!(row.get_u64("missing"), None);
}

#[test]
fn get_u64_rejects_non_numeric_text() {
    let fields = Fields::new(vec![fd("id", "f"), fd("a", "f")]);
    let mut row = Row::RealRow(RealRow {
        row: vec![cell("12ab"), cell("7")],
        fields,
    });
    assert_eq!(row.get_u64("id"), None);
    assert_eq!(row.get_u64("a"), Some(7));
}

#[test]
fn parse_u64_bounds() {
    assert_eq!(parse_u64("0"), Some(0));
    assert_eq!(parse_u64("18446744073709551615"), Some(u64::MAX));
    assert_eq!(parse_u64("18446744073709551616"), None);
    assert_eq!(parse_u64(""), None);
    assert_eq!(parse_u64("-3"), None);
    assert_eq!(parse_u64("00042"), Some(42));
}

#[test]
fn is_row_null_all_and_mixed() {
    let fields = Fields::new(vec![fd("a", "f"), fd("b", "f")]);
    let null_row = Row::RealRow(RealRow { row: vec![None, None], fields: fields.clone() });
    assert!(null_row.is_row_null());
    let mixed = Row::RealRow(RealRow { row: vec![None, cell("v")], fields });
    assert!(!mixed.is_row_null());
}

#[test]
fn split_partitions_ledger_at_sentinel() {
    let fields = Fields::new(vec![fd("pid", "f"), fd("pa", "f"), fd("id", "g"), fd("v", "g")]);
    let (left, right) = fields.split("id");
    assert_eq!(left, vec![(0usize, "f".to_string()), (1, "f".to_string())]);
    assert_eq!(right, vec![(2usize, "g".to_string()), (3, "g".to_string())]);
    // Totality: the two sides concatenate back to the full ledger.
    let mut both = left.clone();
    both.extend(right);
    assert_eq!(both, fields.get_all_tables());
}

#[test]
fn split_without_sentinel_keeps_everything_left() {
    let fields = Fields::new(vec![fd("a", "f"), fd("b", "f")]);
    let (left, right) = fields.split("nope");
    assert_eq!(left.len(), 2);
    assert!(right.is_empty());
}

#[test]
fn split_at_first_column_keeps_everything_right() {
    let fields = Fields::new(vec![fd("id", "g"), fd("b", "g")]);
    let (left, right) = fields.split("id");
    assert!(left.is_empty());
    assert_eq!(right.len(), 2);
}

#[test]
fn virtual_row_sees_only_its_restricted_columns() {
    let fields = Fields::new(vec![fd("id", "f"), fd("a", "f"), fd("id", "g"), fd("v", "g")]);
    // A sub-ledger holding only the second table's columns.
    let mut vrow = VirtualRow {
        row: vec![cell("1"), cell("x"), cell("2"), None],
        true_fields: fields.clone(),
        fields: vec![(2usize, "g".to_string()), (3, "g".to_string())],
    };
    // `id` resolves to the second table's occurrence, position 2.
    assert_eq!(vrow.get_u64("id"), Some(2));
    assert_eq!(vrow.get_u64("id"), None);
    assert_eq!(vrow.get_string("v"), None); // NULL cell
    // Columns outside the restriction are invisible.
    assert_eq!(vrow.get_string("a"), None);
}

#[test]
fn claim_all_spends_the_whole_ledger() {
    let fields = Fields::new(vec![fd("a", "f"), fd("b", "f")]);
    let catalog = fields.fields;
    let mut ledger = vec![(0usize, "f".to_string()), (1, "f".to_string())];
    let first = ClaimAll::claim_columns(&catalog, &mut ledger);
    assert_eq!(first.len(), 2);
    assert!(ledger.is_empty());
    // A second claim on the same ledger gets nothing: no position is ever
    // handed out twice.
    let second = ClaimAll::claim_columns(&catalog, &mut ledger);
    assert!(second.is_empty());
}
