//! Splitting and LEFT JOIN grouping on concrete row streams.

use rowjoin::fields::{FieldDescriptor, Fields};
use rowjoin::join::{LeftJoin, Storable};
use rowjoin::row::{RealRow, Row};
use rowjoin::split::{RSNextId, RowSplitter};

fn fd(name: &str, table: &str) -> FieldDescriptor {
    FieldDescriptor { name: name.to_string(), table: table.to_string() }
}

fn cell(s: &str) -> Option<String> {
    Some(s.to_string())
}

/// Catalog of `SELECT pval, id, cval FROM f LEFT JOIN g`: the parent's
/// column first, then the child table's key and value.
fn join_catalog() -> Fields {
    Fields::new(vec![fd("pval", "f"), fd("id", "g"), fd("cval", "g")])
}

fn join_row(pval: Option<String>, id: Option<String>, cval: Option<String>) -> Row {
    Row::RealRow(RealRow { row: vec![pval, id, cval], fields: join_catalog() })
}

#[derive(Debug, PartialEq)]
struct Parent {
    pval: Option<String>,
}

impl Storable for Parent {
    type Kind = Parent;
    fn store(rows: Vec<Row>) -> Vec<Parent> {
        rows.into_iter()
            .map(|mut row| Parent { pval: row.get_string("pval") })
            .collect()
    }
}

#[derive(Debug, PartialEq)]
struct Child {
    id: Option<u64>,
    cval: Option<String>,
}

impl Storable for Child {
    type Kind = Child;
    fn store(rows: Vec<Row>) -> Vec<Child> {
        rows.into_iter()
            .map(|mut row| Child { id: row.get_u64("id"), cval: row.get_string("cval") })
            .collect()
    }
}

#[test]
fn splitter_parts_row_at_child_key() {
    let row = join_row(cell("parentA"), cell("1"), cell("x"));
    let (mut left, mut right) = RSNextId::split(row);
    assert_eq!(left.get_string("pval"), Some("parentA".to_string()));
    // The left side does not see the child's columns.
    assert_eq!(left.get_u64("id"), None);
    assert_eq!(right.get_u64("id"), Some(1));
    assert_eq!(right.get_string("cval"), Some("x".to_string()));
    // The right side does not see the parent's columns.
    assert_eq!(right.get_string("pval"), None);
}

#[test]
fn splitter_compare_is_structural_on_the_side_columns() {
    let a = join_row(cell("parentA"), cell("1"), cell("x"));
    let b = join_row(cell("parentA"), cell("1"), cell("y"));
    let c = join_row(cell("parentB"), cell("2"), cell("z"));
    let (left_a, _) = RSNextId::split(a);
    let (left_b, _) = RSNextId::split(b);
    let (left_c, _) = RSNextId::split(c);
    assert!(RSNextId::compare(&left_a, &left_b));
    assert!(!RSNextId::compare(&left_a, &left_c));
}

#[test]
fn left_join_groups_duplicated_parents() {
    // Duplicated-parent LEFT JOIN stream: parentA with two children, then
    // parentB with no match (child columns all NULL).
    let rows = vec![
        join_row(cell("parentA"), cell("1"), cell("x")),
        join_row(cell("parentA"), cell("1"), cell("y")),
        join_row(cell("parentB"), None, None),
    ];
    let got = LeftJoin::<Parent, Child, RSNextId>::store(rows);
    assert_eq!(got.len(), 2);
    assert_eq!(got[0].0, Parent { pval: Some("parentA".to_string()) });
    assert_eq!(
        got[0].1,
        vec![
            Child { id: Some(1), cval: Some("x".to_string()) },
            Child { id: Some(1), cval: Some("y".to_string()) },
        ]
    );
    assert_eq!(got[1].0, Parent { pval: Some("parentB".to_string()) });
    assert_eq!(got[1].1, vec![]);
}

#[test]
fn left_join_cardinality_matches_group_sizes() {
    // Group sizes [2, 1 (no child), 3]: three parents, child lists of
    // lengths 2, 0 and 3.
    let rows = vec![
        join_row(cell("p1"), cell("1"), cell("a")),
        join_row(cell("p1"), cell("1"), cell("b")),
        join_row(cell("p2"), None, None),
        join_row(cell("p3"), cell("7"), cell("c")),
        join_row(cell("p3"), cell("7"), cell("d")),
        join_row(cell("p3"), cell("7"), cell("e")),
    ];
    let got = LeftJoin::<Parent, Child, RSNextId>::store(rows);
    let counts: Vec<usize> = got.iter().map(|(_, children)| children.len()).collect();
    assert_eq!(counts, vec![2, 0, 3]);
}

#[test]
fn left_join_of_no_rows_is_empty() {
    let got = LeftJoin::<Parent, Child, RSNextId>::store(Vec::new());
    assert!(got.is_empty());
}

#[derive(Debug, PartialEq)]
struct Wide {
    a: Option<String>,
    b: Option<String>,
    c: Option<u64>,
}

impl Storable for Wide {
    type Kind = Wide;
    fn store(rows: Vec<Row>) -> Vec<Wide> {
        rows.into_iter()
            .map(|mut row| Wide {
                a: row.get_string("a"),
                b: row.get_string("b"),
                c: row.get_u64("c"),
            })
            .collect()
    }
}

#[test]
fn round_trip_single_table_populates_every_field() {
    // Three single-table rows, a record with a field for every column,
    // no NULL cells: three records, every field populated.
    let fields = Fields::new(vec![fd("a", "t"), fd("b", "t"), fd("c", "t")]);
    let rows: Vec<Row> = (0..3u64)
        .map(|i| {
            Row::RealRow(RealRow {
                row: vec![
                    cell(&format!("a{}", i)),
                    cell(&format!("b{}", i)),
                    cell(&i.to_string()),
                ],
                fields: fields.clone(),
            })
        })
        .collect();
    let got = Wide::store(rows);
    assert_eq!(got.len(), 3);
    for (i, w) in got.iter().enumerate() {
        assert_eq!(w.a, Some(format!("a{}", i)));
        assert_eq!(w.b, Some(format!("b{}", i)));
        assert_eq!(w.c, Some(i as u64));
    }
}
