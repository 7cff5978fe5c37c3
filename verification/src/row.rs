//! Decoded rows: a real view over a raw cell array with the full ledger,
//! and a virtual view restricted to a sub-ledger after a join split.
//!
//! A row's cells are nullable text, aligned with the field catalog.  Name
//! lookups resolve against the row's own ledger, first match wins, and
//! each match is spent for good; a name that is absent or already consumed
//! yields an absent value rather than an error.

use vstd::prelude::*;

use crate::fields::{
    cat_model, entry_wf, find_first, ledger_find_remove, ledger_model, ledger_wf, swap_removed,
    FieldModel, Fields, LedgerModel,
};
use crate::num::{dec_val, parse_u64, parses_to_u64};

verus! {

/// Mathematical value of one row view: its cells, the catalog they are
/// aligned with, and the ledger of columns not yet claimed on it.
pub ghost struct RowModel {
    pub cells: Seq<Option<Seq<char>>>,
    pub catalog: Seq<FieldModel>,
    pub ledger: LedgerModel,
}

impl RowModel {
    /// Every cell the ledger still addresses is the null marker.
    pub open spec fn is_null(self) -> bool {
        forall|j: int|
            0 <= j < self.ledger.len() ==> self.cells[(#[trigger] self.ledger[j]).0] is None
    }

    /// The ledger addresses the cells, and the cells are aligned with the
    /// catalog.
    pub open spec fn wf(self) -> bool {
        &&& self.cells.len() == self.catalog.len()
        &&& ledger_wf(self.catalog, self.ledger)
    }
}

/// The mathematical value of an executable cell array.
pub open spec fn cells_model(v: Seq<Option<String>>) -> Seq<Option<Seq<char>>> {
    Seq::new(
        v.len(),
        |i: int|
            match v[i] {
                None => None,
                Some(s) => Some(s@),
            },
    )
}

/// The mathematical value of an optional owned cell text.
pub open spec fn text_model(r: Option<String>) -> Option<Seq<char>> {
    match r {
        None => None,
        Some(s) => Some(s@),
    }
}

/// What decoding a cell as a number yields: the value when the text is
/// decimal and fits, absent when the cell is null or the text is not.
pub open spec fn u64_of_cell(c: Option<Seq<char>>) -> Option<u64> {
    match c {
        None => None,
        Some(t) => if parses_to_u64(t) {
            Some(dec_val(t) as u64)
        } else {
            None
        },
    }
}

/// A full row: the raw cells and a private clone of the complete ledger.
pub struct RealRow {
    pub row: Vec<Option<String>>,
    pub fields: Fields,
}

impl View for RealRow {
    type V = RowModel;

    open spec fn view(&self) -> RowModel {
        RowModel {
            cells: cells_model(self.row@),
            catalog: self.fields@.catalog,
            ledger: self.fields@.ledger,
        }
    }
}

impl RealRow {
    pub open spec fn wf(&self) -> bool {
        self@.wf()
    }
}

/// A row view restricted to a sub-ledger: the same cells, but lookups see
/// only the columns a split assigned to this side.
pub struct VirtualRow {
    pub row: Vec<Option<String>>,
    pub true_fields: Fields,
    pub fields: Vec<(usize, String)>,
}

impl View for VirtualRow {
    type V = RowModel;

    open spec fn view(&self) -> RowModel {
        RowModel {
            cells: cells_model(self.row@),
            catalog: self.true_fields@.catalog,
            ledger: ledger_model(self.fields@),
        }
    }
}

impl VirtualRow {
    pub open spec fn wf(&self) -> bool {
        self@.wf()
    }
}

/// One decoded row: either a full view or a restricted one.  The two
/// variants are the only shapes a row can take.
pub enum Row {
    RealRow(RealRow),
    VirtualRow(VirtualRow),
}

impl View for Row {
    type V = RowModel;

    open spec fn view(&self) -> RowModel {
        match self {
            Row::RealRow(a) => a@,
            Row::VirtualRow(a) => a@,
        }
    }
}

impl Row {
    pub open spec fn wf(&self) -> bool {
        self@.wf()
    }

    /// The row is a full view.
    pub open spec fn is_real(&self) -> bool {
        self is RealRow
    }
}

/// Law (round trip): on a row whose catalog names are pairwise distinct
/// and whose cells are all non-null, looking up any still-unclaimed
/// column's name hits exactly that column and reads a non-null cell — so
/// decoding a record with a field for every column name, in any order,
/// populates every field.  One record is produced per row by `Storable`'s
/// own contract.
pub proof fn lemma_row_lookup_populates(m: RowModel, j: int)
    requires
        m.wf(),
        crate::fields::distinct_names(m.catalog),
        forall|i: int| 0 <= i < m.cells.len() ==> (#[trigger] m.cells[i]) is Some,
        0 <= j < m.ledger.len(),
    ensures
        find_first(m.catalog, m.ledger, m.catalog[m.ledger[j].0].name) == Some(j),
        m.cells[m.ledger[j].0] is Some,
{
    crate::fields::lemma_lookup_hits(m.catalog, m.ledger, j);
    assert(entry_wf(m.catalog, m.ledger[j]));
}

/// Duplicates a cell array: the copy holds equal cells.
pub fn clone_cells(cells: &Vec<Option<String>>) -> (r: Vec<Option<String>>)
    ensures
        r@ == cells@,
{
    let mut r: Vec<Option<String>> = Vec::new();
    let mut i: usize = 0;
    while i < cells.len()
        invariant
            i <= cells@.len(),
            r@ == cells@.take(i as int),
        decreases cells@.len() - i,
    {
        let c = match &cells[i] {
            None => None,
            Some(s) => Some(s.clone()),
        };
        r.push(c);
        proof {
            assert(r@ =~= cells@.take(i + 1));
        }
        i += 1;
    }
    proof {
        assert(r@ =~= cells@);
    }
    r
}

/// Whether every cell a ledger addresses is the null marker.
fn cells_all_null(cells: &Vec<Option<String>>, ledger: &Vec<(usize, String)>) -> (r: bool)
    requires
        forall|j: int|
            0 <= j < ledger@.len() ==> (#[trigger] ledger@[j]).0 < cells@.len(),
    ensures
        r == forall|j: int|
            0 <= j < ledger_model(ledger@).len() ==> cells_model(cells@)[(#[trigger] ledger_model(
                ledger@,
            )[j]).0] is None,
{
    let ghost led = ledger_model(ledger@);
    let ghost cm = cells_model(cells@);
    let mut i: usize = 0;
    while i < ledger.len()
        invariant
            i <= ledger@.len(),
            led == ledger_model(ledger@),
            cm == cells_model(cells@),
            forall|j: int| 0 <= j < ledger@.len() ==> (#[trigger] ledger@[j]).0 < cells@.len(),
            forall|j: int| 0 <= j < i ==> cm[(#[trigger] led[j]).0] is None,
        decreases ledger@.len() - i,
    {
        let p = ledger[i].0;
        if cells[p].is_some() {
            assert(!(cm[led[i as int].0] is None));
            return false;
        }
        assert(cm[led[i as int].0] is None);
        i += 1;
    }
    true
}

/// Reads one cell as owned text: `Some` of the text unless the cell is the
/// null marker.
fn read_cell(cells: &Vec<Option<String>>, p: usize) -> (r: Option<String>)
    requires
        p < cells@.len(),
    ensures
        text_model(r) == cells_model(cells@)[p as int],
{
    match &cells[p] {
        None => None,
        Some(s) => Some(s.clone()),
    }
}

impl RealRow {
    /// Claims the first not-yet-consumed column named `col_name` and
    /// returns its cell position.
    pub fn get_col_index(&mut self, col_name: &str) -> (r: Option<usize>)
        requires
            old(self).wf(),
        ensures
            final(self).wf(),
            final(self)@.cells == old(self)@.cells,
            final(self)@.catalog == old(self)@.catalog,
            match find_first(old(self)@.catalog, old(self)@.ledger, col_name@) {
                None => r is None && final(self)@.ledger == old(self)@.ledger,
                Some(j) => r == Some(old(self)@.ledger[j].0 as usize) && final(self)@.ledger
                    == swap_removed(old(self)@.ledger, j),
            },
    {
        self.fields.find_and_remove(col_name)
    }

    /// Decodes the named column as a number; absent when the name misses,
    /// the cell is null, or the text is not a decimal `u64`.
    pub fn get_u64(&mut self, col_name: &str) -> (r: Option<u64>)
        requires
            old(self).wf(),
        ensures
            final(self).wf(),
            final(self)@.cells == old(self)@.cells,
            final(self)@.catalog == old(self)@.catalog,
            match find_first(old(self)@.catalog, old(self)@.ledger, col_name@) {
                None => r is None && final(self)@.ledger == old(self)@.ledger,
                Some(j) => r == u64_of_cell(old(self)@.cells[old(self)@.ledger[j].0])
                    && final(self)@.ledger == swap_removed(old(self)@.ledger, j),
            },
    {
        let ghost cat = old(self)@.catalog;
        let ghost led = old(self)@.ledger;
        match self.get_col_index(col_name) {
            None => None,
            Some(p) => {
                proof {
                    let j = find_first(cat, led, col_name@)->Some_0;
                    crate::fields::lemma_find_first_characterizes(cat, led, col_name@);
                    assert(entry_wf(cat, led[j]));
                    assert(p as int == led[j].0);
                }
                match read_cell(&self.row, p) {
                    None => None,
                    Some(text) => parse_u64(text.as_str()),
                }
            },
        }
    }

    /// Reads the named column as owned text; absent when the name misses
    /// or the cell is null.
    pub fn get_string(&mut self, col_name: &str) -> (r: Option<String>)
        requires
            old(self).wf(),
        ensures
            final(self).wf(),
            final(self)@.cells == old(self)@.cells,
            final(self)@.catalog == old(self)@.catalog,
            match find_first(old(self)@.catalog, old(self)@.ledger, col_name@) {
                None => r is None && final(self)@.ledger == old(self)@.ledger,
                Some(j) => text_model(r) == old(self)@.cells[old(self)@.ledger[j].0]
                    && final(self)@.ledger == swap_removed(old(self)@.ledger, j),
            },
    {
        let ghost cat = old(self)@.catalog;
        let ghost led = old(self)@.ledger;
        match self.get_col_index(col_name) {
            None => None,
            Some(p) => {
                proof {
                    let j = find_first(cat, led, col_name@)->Some_0;
                    crate::fields::lemma_find_first_characterizes(cat, led, col_name@);
                    assert(entry_wf(cat, led[j]));
                    assert(p as int == led[j].0);
                }
                read_cell(&self.row, p)
            },
        }
    }
}

impl VirtualRow {
    /// Claims the first not-yet-consumed restricted column named `col_name`
    /// and returns its cell position.
    pub fn get_col_index(&mut self, col_name: &str) -> (r: Option<usize>)
        requires
            old(self).wf(),
        ensures
            final(self).wf(),
            final(self)@.cells == old(self)@.cells,
            final(self)@.catalog == old(self)@.catalog,
            match find_first(old(self)@.catalog, old(self)@.ledger, col_name@) {
                None => r is None && final(self)@.ledger == old(self)@.ledger,
                Some(j) => r == Some(old(self)@.ledger[j].0 as usize) && final(self)@.ledger
                    == swap_removed(old(self)@.ledger, j),
            },
    {
        proof {
            assert(cat_model(self.true_fields.fields@) =~= self@.catalog);
        }
        let r = ledger_find_remove(&self.true_fields.fields, &mut self.fields, col_name);
        proof {
            if find_first(old(self)@.catalog, old(self)@.ledger, col_name@) is Some {
                let j = find_first(old(self)@.catalog, old(self)@.ledger, col_name@)->Some_0;
                crate::fields::lemma_find_first_characterizes(
                    old(self)@.catalog,
                    old(self)@.ledger,
                    col_name@,
                );
                assert(old(self)@.ledger[j].0 == old(self).fields@[j].0 as int);
            }
        }
        r
    }

    /// Decodes the named restricted column as a number; absent when the
    /// name misses, the cell is null, or the text is not a decimal `u64`.
    pub fn get_u64(&mut self, col_name: &str) -> (r: Option<u64>)
        requires
            old(self).wf(),
        ensures
            final(self).wf(),
            final(self)@.cells == old(self)@.cells,
            final(self)@.catalog == old(self)@.catalog,
            match find_first(old(self)@.catalog, old(self)@.ledger, col_name@) {
                None => r is None && final(self)@.ledger == old(self)@.ledger,
                Some(j) => r == u64_of_cell(old(self)@.cells[old(self)@.ledger[j].0])
                    && final(self)@.ledger == swap_removed(old(self)@.ledger, j),
            },
    {
        let ghost cat = old(self)@.catalog;
        let ghost led = old(self)@.ledger;
        match self.get_col_index(col_name) {
            None => None,
            Some(p) => {
                proof {
                    let j = find_first(cat, led, col_name@)->Some_0;
                    crate::fields::lemma_find_first_characterizes(cat, led, col_name@);
                    assert(entry_wf(cat, led[j]));
                    assert(p as int == led[j].0);
                }
                match read_cell(&self.row, p) {
                    None => None,
                    Some(text) => parse_u64(text.as_str()),
                }
            },
        }
    }

    /// Reads the named restricted column as owned text; absent when the
    /// name misses or the cell is null.
    pub fn get_string(&mut self, col_name: &str) -> (r: Option<String>)
        requires
            old(self).wf(),
        ensures
            final(self).wf(),
            final(self)@.cells == old(self)@.cells,
            final(self)@.catalog == old(self)@.catalog,
            match find_first(old(self)@.catalog, old(self)@.ledger, col_name@) {
                None => r is None && final(self)@.ledger == old(self)@.ledger,
                Some(j) => text_model(r) == old(self)@.cells[old(self)@.ledger[j].0]
                    && final(self)@.ledger == swap_removed(old(self)@.ledger, j),
            },
    {
        let ghost cat = old(self)@.catalog;
        let ghost led = old(self)@.ledger;
        match self.get_col_index(col_name) {
            None => None,
            Some(p) => {
                proof {
                    let j = find_first(cat, led, col_name@)->Some_0;
                    crate::fields::lemma_find_first_characterizes(cat, led, col_name@);
                    assert(entry_wf(cat, led[j]));
                    assert(p as int == led[j].0);
                }
                read_cell(&self.row, p)
            },
        }
    }
}

impl Row {
    /// Whether every cell this view's ledger still addresses is null: how
    /// a LEFT JOIN's "no matching child" side is recognized.
    pub fn is_row_null(&self) -> (r: bool)
        requires
            self.wf(),
        ensures
            r == self@.is_null(),
    {
        match self {
            Row::RealRow(a) => {
                proof {
                    assert forall|j: int|
                        0 <= j < a.fields.remaining@.len() implies (#[trigger] a.fields.remaining@[j]).0
                        < a.row@.len() by {
                        assert(entry_wf(a@.catalog, a@.ledger[j]));
                    }
                }
                cells_all_null(&a.row, &a.fields.remaining)
            },
            Row::VirtualRow(a) => {
                proof {
                    assert forall|j: int|
                        0 <= j < a.fields@.len() implies (#[trigger] a.fields@[j]).0
                        < a.row@.len() by {
                        assert(entry_wf(a@.catalog, a@.ledger[j]));
                    }
                }
                cells_all_null(&a.row, &a.fields)
            },
        }
    }

    /// Decodes the named column as a number; absent when the name misses,
    /// the cell is null, or the text is not a decimal `u64`.
    pub fn get_u64(&mut self, col_name: &str) -> (r: Option<u64>)
        requires
            old(self).wf(),
        ensures
            final(self).wf(),
            final(self)@.cells == old(self)@.cells,
            final(self)@.catalog == old(self)@.catalog,
            final(self).is_real() == old(self).is_real(),
            match find_first(old(self)@.catalog, old(self)@.ledger, col_name@) {
                None => r is None && final(self)@.ledger == old(self)@.ledger,
                Some(j) => r == u64_of_cell(old(self)@.cells[old(self)@.ledger[j].0])
                    && final(self)@.ledger == swap_removed(old(self)@.ledger, j),
            },
    {
        match self {
            Row::RealRow(a) => a.get_u64(col_name),
            Row::VirtualRow(a) => a.get_u64(col_name),
        }
    }

    /// Reads the named column as owned text; absent when the name misses
    /// or the cell is null.
    pub fn get_string(&mut self, col_name: &str) -> (r: Option<String>)
        requires
            old(self).wf(),
        ensures
            final(self).wf(),
            final(self)@.cells == old(self)@.cells,
            final(self)@.catalog == old(self)@.catalog,
            final(self).is_real() == old(self).is_real(),
            match find_first(old(self)@.catalog, old(self)@.ledger, col_name@) {
                None => r is None && final(self)@.ledger == old(self)@.ledger,
                Some(j) => text_model(r) == old(self)@.cells[old(self)@.ledger[j].0]
                    && final(self)@.ledger == swap_removed(old(self)@.ledger, j),
            },
    {
        match self {
            Row::RealRow(a) => a.get_string(col_name),
            Row::VirtualRow(a) => a.get_string(col_name),
        }
    }
}

} // verus!
