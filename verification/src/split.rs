//! Splitting one real row into the two sides of a join.
//!
//! A splitter parts a real row's ledger into two contiguous column groups
//! at a structural boundary and hands back two virtual views over the same
//! cells.  It also decides when two rows carry the same parent columns,
//! which is how the join combinator recognizes group boundaries.  The
//! split is positional, not semantic: it assumes the query was written so
//! the left table's columns precede the right table's.

use vstd::prelude::*;

use crate::fields::{
    ledger_model, lemma_find_first_characterizes, lemma_wf_take_skip, split_boundary,
};
use crate::row::{clone_cells, Row, RowModel, VirtualRow};

verus! {

/// Two rows carry the same group columns: their ledgers are identical and
/// every cell the ledger addresses is equal, byte for byte.
pub open spec fn same_cells(a: RowModel, b: RowModel) -> bool {
    &&& a.ledger == b.ledger
    &&& forall|j: int|
        0 <= j < a.ledger.len() ==> a.cells[(#[trigger] a.ledger[j]).0] == b.cells[b.ledger[j].0]
}

/// A strategy that parts one real row into a left and a right virtual view
/// and recognizes rows that belong to the same join group.
pub trait RowSplitter {
    /// Model of the left view a split produces.
    spec fn left_of(row: RowModel) -> RowModel;

    /// Model of the right view a split produces.
    spec fn right_of(row: RowModel) -> RowModel;

    /// Whether two rows carry the same parent columns.
    spec fn same_group(a: RowModel, b: RowModel) -> bool;

    /// Parts a real row into two virtual views over the same cells.  The
    /// two sides' ledgers concatenate back to the row's ledger, so every
    /// column lands on exactly one side.
    fn split(row: Row) -> (r: (Row, Row))
        requires
            row.is_real(),
            row.wf(),
        ensures
            r.0@ == Self::left_of(row@),
            r.1@ == Self::right_of(row@),
            r.0.wf(),
            r.1.wf(),
            Self::left_of(row@).cells == row@.cells,
            Self::right_of(row@).cells == row@.cells,
            Self::left_of(row@).catalog == row@.catalog,
            Self::right_of(row@).catalog == row@.catalog,
            Self::left_of(row@).ledger + Self::right_of(row@).ledger == row@.ledger,
    ;

    /// Decides whether two rows belong to the same join group.
    fn compare(a: &Row, b: &Row) -> (r: bool)
        requires
            a.wf(),
            b.wf(),
        ensures
            r == Self::same_group(a@, b@),
    ;
}

/// The reference splitting policy: the boundary is the first column named
/// `"id"` — by the structural contract on query authoring, the right
/// table's key, which follows all of the left table's columns.
pub struct RSNextId;

impl RowSplitter for RSNextId {
    /// The left view: the columns before the first one named `"id"`.
    open spec fn left_of(row: RowModel) -> RowModel {
        RowModel {
            cells: row.cells,
            catalog: row.catalog,
            ledger: row.ledger.take(split_boundary(row.catalog, row.ledger, "id"@)),
        }
    }

    /// The right view: the columns from the first one named `"id"` on.
    open spec fn right_of(row: RowModel) -> RowModel {
        RowModel {
            cells: row.cells,
            catalog: row.catalog,
            ledger: row.ledger.skip(split_boundary(row.catalog, row.ledger, "id"@)),
        }
    }

    /// Same group means: identical ledgers and, cell for cell, equal text
    /// in every column the ledger addresses.
    open spec fn same_group(a: RowModel, b: RowModel) -> bool {
        same_cells(a, b)
    }

    fn split(row: Row) -> (r: (Row, Row)) {
        match row {
            Row::RealRow(rr) => {
                proof {
                    lemma_find_first_characterizes(rr@.catalog, rr@.ledger, "id"@);
                    lemma_wf_take_skip(
                        rr@.catalog,
                        rr@.ledger,
                        split_boundary(rr@.catalog, rr@.ledger, "id"@),
                    );
                }
                let (lv, rv) = rr.fields.split("id");
                let left = VirtualRow {
                    row: clone_cells(&rr.row),
                    true_fields: rr.fields.clone(),
                    fields: lv,
                };
                let right = VirtualRow { row: rr.row, true_fields: rr.fields, fields: rv };
                proof {
                    let m = Row::RealRow(rr)@;
                    assert(left@.ledger + right@.ledger =~= m.ledger);
                }
                (Row::VirtualRow(left), Row::VirtualRow(right))
            },
            Row::VirtualRow(_) => vstd::pervasive::unreached(),
        }
    }

    fn compare(a: &Row, b: &Row) -> (r: bool) {
        rows_same_cells(a, b)
    }
}

/// Compares two rows structurally: equal ledgers, and byte-for-byte equal
/// text in every cell the ledger addresses.
pub fn rows_same_cells(a: &Row, b: &Row) -> (r: bool)
    requires
        a.wf(),
        b.wf(),
    ensures
        r == same_cells(a@, b@),
{
    let (a_cells, a_ledger) = row_parts(a);
    let (b_cells, b_ledger) = row_parts(b);
    if a_ledger.len() != b_ledger.len() {
        assert(a@.ledger.len() != b@.ledger.len());
        return false;
    }
    let ghost am = a@;
    let ghost bm = b@;
    let n = a_ledger.len();
    let mut i: usize = 0;
    while i < n
        invariant
            i <= n,
            n == a_ledger@.len() == b_ledger@.len(),
            am == a@,
            bm == b@,
            am.wf(),
            bm.wf(),
            ledger_model(a_ledger@) == am.ledger,
            ledger_model(b_ledger@) == bm.ledger,
            cells_eq(a_cells, am),
            cells_eq(b_cells, bm),
            forall|j: int| 0 <= j < i ==> #[trigger] am.ledger[j] == bm.ledger[j],
            forall|j: int|
                0 <= j < i ==> am.cells[(#[trigger] am.ledger[j]).0] == bm.cells[bm.ledger[j].0],
        decreases n - i,
    {
        let ap = a_ledger[i].0;
        let bp = b_ledger[i].0;
        if ap != bp {
            assert(am.ledger[i as int].0 != bm.ledger[i as int].0);
            return false;
        }
        if !a_ledger[i].1.eq(&b_ledger[i].1) {
            assert(am.ledger[i as int].1 != bm.ledger[i as int].1);
            return false;
        }
        assert(am.ledger[i as int] == bm.ledger[i as int]);
        assert(crate::fields::entry_wf(am.catalog, am.ledger[i as int]));
        assert(crate::fields::entry_wf(bm.catalog, bm.ledger[i as int]));
        let same = match (&a_cells[ap], &b_cells[bp]) {
            (None, None) => true,
            (Some(x), Some(y)) => x.eq(y),
            _ => false,
        };
        if !same {
            assert(am.cells[am.ledger[i as int].0] != bm.cells[bm.ledger[i as int].0]);
            return false;
        }
        assert(am.cells[am.ledger[i as int].0] == bm.cells[bm.ledger[i as int].0]);
        i += 1;
    }
    proof {
        assert(am.ledger =~= bm.ledger);
    }
    true
}

/// The borrowed cell array agrees with a row model's cells.
pub open spec fn cells_eq(cells: &Vec<Option<String>>, m: RowModel) -> bool {
    crate::row::cells_model(cells@) == m.cells
}

/// Borrows a row's cell array and ledger list, whichever variant it is.
fn row_parts<'a>(r: &'a Row) -> (out: (&'a Vec<Option<String>>, &'a Vec<(usize, String)>))
    ensures
        crate::row::cells_model(out.0@) == r@.cells,
        ledger_model(out.1@) == r@.ledger,
{
    match r {
        Row::RealRow(a) => (&a.row, &a.fields.remaining),
        Row::VirtualRow(a) => (&a.row, &a.fields),
    }
}

} // verus!
