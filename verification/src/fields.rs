//! Per-result-set column metadata and the per-row column ledger.
//!
//! A `Fields` value holds the ordered catalog of column descriptors of one
//! result set together with a ledger: the list of `(position, table)` pairs
//! for the columns a decoder has not yet claimed on the current row.  A
//! name lookup scans the ledger in order, returns the first column whose
//! catalog name matches, and removes that entry for good (consume-once).

use vstd::prelude::*;

verus! {

/// One column of a result set: its name and the table it came from.
/// Its position is its index in the catalog and in every raw row.
pub struct FieldDescriptor {
    pub name: String,
    pub table: String,
}

/// Mathematical value of a `FieldDescriptor`: both strings as
/// character sequences.
pub ghost struct FieldModel {
    pub name: Seq<char>,
    pub table: Seq<char>,
}

impl View for FieldDescriptor {
    type V = FieldModel;

    open spec fn view(&self) -> FieldModel {
        FieldModel { name: self.name@, table: self.table@ }
    }
}

/// Mathematical value of a ledger entry: column position and owning table.
pub type EntryModel = (int, Seq<char>);

/// Mathematical value of a ledger: the not-yet-claimed columns, in order.
pub type LedgerModel = Seq<EntryModel>;

/// Mathematical value of a `Fields`: the catalog and the ledger.
pub ghost struct FieldsModel {
    pub catalog: Seq<FieldModel>,
    pub ledger: LedgerModel,
}

/// The mathematical value of an executable ledger.
pub open spec fn ledger_model(v: Seq<(usize, String)>) -> LedgerModel {
    Seq::new(v.len(), |i: int| (v[i].0 as int, v[i].1@))
}

/// A ledger entry is valid for a catalog when its position indexes the
/// catalog and it records that column's owning table.
pub open spec fn entry_wf(catalog: Seq<FieldModel>, e: EntryModel) -> bool {
    &&& 0 <= e.0 < catalog.len()
    &&& e.1 == catalog[e.0].table
}

/// A ledger is well formed for a catalog when every entry is valid and no
/// column position occurs twice.
pub open spec fn ledger_wf(catalog: Seq<FieldModel>, ledger: LedgerModel) -> bool {
    &&& forall|j: int| 0 <= j < ledger.len() ==> entry_wf(catalog, #[trigger] ledger[j])
    &&& forall|j: int, k: int|
        0 <= j < ledger.len() && 0 <= k < ledger.len() && j != k ==> (#[trigger] ledger[j]).0
            != (#[trigger] ledger[k]).0
}

/// The full ledger of a catalog: every column, in catalog order.
pub open spec fn full_ledger(catalog: Seq<FieldModel>) -> LedgerModel {
    Seq::new(catalog.len(), |i: int| (i, catalog[i].table))
}

/// A ledger entry matches a lookup name when the catalog column it points
/// at carries that name.
pub open spec fn entry_matches(catalog: Seq<FieldModel>, e: EntryModel, name: Seq<char>) -> bool {
    &&& 0 <= e.0 < catalog.len()
    &&& catalog[e.0].name == name
}

/// Index into the ledger of the first entry whose column name matches.
pub open spec fn find_first(catalog: Seq<FieldModel>, ledger: LedgerModel, name: Seq<char>) -> Option<
    int,
>
    decreases ledger.len(),
{
    if ledger.len() == 0 {
        None
    } else if entry_matches(catalog, ledger[0], name) {
        Some(0)
    } else {
        match find_first(catalog, ledger.skip(1), name) {
            None => None,
            Some(j) => Some(j + 1),
        }
    }
}

/// How many ledger entries match a lookup name.
pub open spec fn matches_count(catalog: Seq<FieldModel>, ledger: LedgerModel, name: Seq<char>) -> nat
    decreases ledger.len(),
{
    if ledger.len() == 0 {
        0
    } else {
        (if entry_matches(catalog, ledger[0], name) {
            1nat
        } else {
            0nat
        }) + matches_count(catalog, ledger.skip(1), name)
    }
}

/// The ledger after removing the entry at `j` by swapping the last entry in.
pub open spec fn swap_removed(ledger: LedgerModel, j: int) -> LedgerModel {
    ledger.update(j, ledger.last()).drop_last()
}

/// `find_first` names the first matching entry, and `None` means none match.
pub proof fn lemma_find_first_characterizes(
    catalog: Seq<FieldModel>,
    ledger: LedgerModel,
    name: Seq<char>,
)
    ensures
        match find_first(catalog, ledger, name) {
            Some(j) => 0 <= j < ledger.len() && entry_matches(catalog, ledger[j], name)
                && forall|i: int| 0 <= i < j ==> !entry_matches(catalog, #[trigger] ledger[i], name),
            None => forall|i: int|
                0 <= i < ledger.len() ==> !entry_matches(catalog, #[trigger] ledger[i], name),
        },
    decreases ledger.len(),
{
    if ledger.len() > 0 && !entry_matches(catalog, ledger[0], name) {
        lemma_find_first_characterizes(catalog, ledger.skip(1), name);
        assert forall|i: int| 1 <= i < ledger.len() implies ledger.skip(1)[i - 1] == #[trigger] ledger[i] by {}
    }
}

/// Removing a found entry spends exactly one occurrence of the name.
///
/// Law (consume-once): after a successful lookup-and-remove, the number of
/// ledger entries matching the name drops by exactly one, so a second
/// lookup of the same name either lands on a different occurrence or, once
/// all occurrences are spent, fails.
pub proof fn lemma_consume_once(catalog: Seq<FieldModel>, ledger: LedgerModel, name: Seq<char>)
    requires
        find_first(catalog, ledger, name) is Some,
    ensures
        matches_count(
            catalog,
            swap_removed(ledger, find_first(catalog, ledger, name)->Some_0),
            name,
        ) == matches_count(catalog, ledger, name) - 1,
{
    let j = find_first(catalog, ledger, name)->Some_0;
    lemma_find_first_characterizes(catalog, ledger, name);
    lemma_count_swap_removed(catalog, ledger, name, j);
}

/// Law (consume-once, two lookups): after a successful lookup-and-remove,
/// a second lookup of the same name finds a different occurrence when the
/// name appeared more than once, and fails once the occurrences are
/// exhausted.
pub proof fn lemma_second_lookup(catalog: Seq<FieldModel>, ledger: LedgerModel, name: Seq<char>)
    requires
        find_first(catalog, ledger, name) is Some,
    ensures
        matches_count(catalog, ledger, name) == 1 ==> find_first(
            catalog,
            swap_removed(ledger, find_first(catalog, ledger, name)->Some_0),
            name,
        ) is None,
        matches_count(catalog, ledger, name) > 1 ==> find_first(
            catalog,
            swap_removed(ledger, find_first(catalog, ledger, name)->Some_0),
            name,
        ) is Some,
{
    let j = find_first(catalog, ledger, name)->Some_0;
    lemma_consume_once(catalog, ledger, name);
    lemma_find_some_iff_present(catalog, swap_removed(ledger, j), name);
    lemma_find_some_iff_present(catalog, ledger, name);
}

/// Swap-removing any matching entry lowers the match count by one; any
/// other entry leaves it unchanged.
pub proof fn lemma_count_swap_removed(
    catalog: Seq<FieldModel>,
    ledger: LedgerModel,
    name: Seq<char>,
    j: int,
)
    requires
        0 <= j < ledger.len(),
    ensures
        matches_count(catalog, swap_removed(ledger, j), name) == matches_count(catalog, ledger, name)
            - (if entry_matches(catalog, ledger[j], name) {
            1int
        } else {
            0int
        }),
{
    let n = ledger.len() as int;
    if j == n - 1 {
        assert(swap_removed(ledger, j) =~= ledger.take(n - 1));
        assert(ledger =~= ledger.take(n - 1) + seq![ledger[j]]);
        lemma_count_concat(catalog, ledger.take(n - 1), seq![ledger[j]], name);
        lemma_count_singleton(catalog, ledger[j], name);
    } else {
        let pre = ledger.take(j);
        let mid = ledger.subrange(j + 1, n - 1);
        assert(ledger =~= pre + seq![ledger[j]] + mid + seq![ledger[n - 1]]);
        assert(swap_removed(ledger, j) =~= pre + seq![ledger[n - 1]] + mid);
        lemma_count_concat(catalog, pre + seq![ledger[j]] + mid, seq![ledger[n - 1]], name);
        lemma_count_concat(catalog, pre + seq![ledger[j]], mid, name);
        lemma_count_concat(catalog, pre, seq![ledger[j]], name);
        lemma_count_concat(catalog, pre + seq![ledger[n - 1]], mid, name);
        lemma_count_concat(catalog, pre, seq![ledger[n - 1]], name);
        lemma_count_singleton(catalog, ledger[j], name);
        lemma_count_singleton(catalog, ledger[n - 1], name);
    }
}

/// The match count of a one-entry ledger.
pub proof fn lemma_count_singleton(catalog: Seq<FieldModel>, e: EntryModel, name: Seq<char>)
    ensures
        matches_count(catalog, seq![e], name) == (if entry_matches(catalog, e, name) {
            1nat
        } else {
            0nat
        }),
{
    let s = seq![e];
    assert(s.len() == 1);
    assert(s[0] == e);
    assert(s.skip(1) =~= Seq::<EntryModel>::empty());
    assert(matches_count(catalog, s.skip(1), name) == 0);
}

/// The match count adds up over concatenation.
pub proof fn lemma_count_concat(
    catalog: Seq<FieldModel>,
    a: LedgerModel,
    b: LedgerModel,
    name: Seq<char>,
)
    ensures
        matches_count(catalog, a + b, name) == matches_count(catalog, a, name) + matches_count(
            catalog,
            b,
            name,
        ),
    decreases a.len(),
{
    if a.len() == 0 {
        assert(a + b =~= b);
    } else {
        assert((a + b).skip(1) =~= a.skip(1) + b);
        lemma_count_concat(catalog, a.skip(1), b, name);
    }
}

/// A lookup succeeds exactly when the ledger still holds a matching entry.
///
/// Law: `find_first` returns `Some` if and only if at least one
/// not-yet-claimed column carries the looked-up name.
pub proof fn lemma_find_some_iff_present(
    catalog: Seq<FieldModel>,
    ledger: LedgerModel,
    name: Seq<char>,
)
    ensures
        find_first(catalog, ledger, name) is Some <==> matches_count(catalog, ledger, name) > 0,
    decreases ledger.len(),
{
    if ledger.len() > 0 {
        lemma_find_some_iff_present(catalog, ledger.skip(1), name);
    }
}

/// Swap-removing an entry keeps a ledger well formed: what is left is a
/// subset of the old entries, still unique by position.
pub proof fn lemma_wf_swap_removed(catalog: Seq<FieldModel>, ledger: LedgerModel, j: int)
    requires
        ledger_wf(catalog, ledger),
        0 <= j < ledger.len(),
    ensures
        ledger_wf(catalog, swap_removed(ledger, j)),
{
    let r = swap_removed(ledger, j);
    assert forall|i: int| 0 <= i < r.len() implies entry_wf(catalog, #[trigger] r[i]) by {
        if i == j {
            assert(r[i] == ledger[ledger.len() - 1]);
        } else {
            assert(r[i] == ledger[i]);
        }
    }
    assert forall|i: int, k: int|
        0 <= i < r.len() && 0 <= k < r.len() && i != k implies (#[trigger] r[i]).0
        != (#[trigger] r[k]).0 by {
        let oi = if i == j { ledger.len() - 1 } else { i };
        let ok = if k == j { ledger.len() - 1 } else { k };
        assert(r[i] == ledger[oi]);
        assert(r[k] == ledger[ok]);
    }
}

/// Metadata of one result set: the ordered column catalog, and the ledger
/// of columns not yet claimed by a decoder for the current row.
pub struct Fields {
    pub fields: Vec<FieldDescriptor>,
    pub remaining: Vec<(usize, String)>,
}

impl View for Fields {
    type V = FieldsModel;

    open spec fn view(&self) -> FieldsModel {
        FieldsModel {
            catalog: Seq::new(self.fields@.len(), |i: int| self.fields@[i]@),
            ledger: ledger_model(self.remaining@),
        }
    }
}

impl Fields {
    /// The catalog and the ledger agree: every ledger entry points at a
    /// catalog column and records its table, and no position repeats.
    pub open spec fn wf(&self) -> bool {
        ledger_wf(self@.catalog, self@.ledger)
    }

    /// Builds the metadata for one result set: the given descriptors become
    /// the catalog, and the ledger starts out holding every column.
    pub fn new(fields: Vec<FieldDescriptor>) -> (r: Fields)
        ensures
            r@.catalog == Seq::new(fields@.len(), |i: int| fields@[i]@),
            r@.ledger == full_ledger(r@.catalog),
            r.wf(),
    {
        let mut remaining: Vec<(usize, String)> = Vec::new();
        let mut i: usize = 0;
        while i < fields.len()
            invariant
                i <= fields@.len(),
                remaining@.len() == i,
                forall|k: int|
                    0 <= k < i ==> (#[trigger] remaining@[k]).0 == k && remaining@[k].1@
                        == fields@[k]@.table,
            decreases fields@.len() - i,
        {
            let table = fields[i].table.clone();
            remaining.push((i, table));
            i += 1;
        }
        let r = Fields { fields, remaining };
        proof {
            assert(r@.ledger =~= full_ledger(r@.catalog));
        }
        r
    }

    /// Projects the catalog to its `(position, table)` pairs, in order:
    /// the full ledger of the result set.
    pub fn get_all_tables(&self) -> (r: Vec<(usize, String)>)
        ensures
            ledger_model(r@) == full_ledger(self@.catalog),
    {
        let mut r: Vec<(usize, String)> = Vec::new();
        let mut i: usize = 0;
        while i < self.fields.len()
            invariant
                i <= self.fields@.len(),
                r@.len() == i,
                forall|k: int|
                    0 <= k < i ==> (#[trigger] r@[k]).0 == k && r@[k].1@ == self@.catalog[k].table,
            decreases self.fields@.len() - i,
        {
            let table = self.fields[i].table.clone();
            r.push((i, table));
            i += 1;
        }
        proof {
            assert(ledger_model(r@) =~= full_ledger(self@.catalog));
        }
        r
    }
}

/// Scans a ledger in order for the first column whose catalog name equals
/// `name`; on a hit, removes that entry for good and returns the column's
/// position.  Realizes first-match-wins, consume-once column resolution.
pub fn ledger_find_remove(
    catalog: &Vec<FieldDescriptor>,
    remaining: &mut Vec<(usize, String)>,
    name: &str,
) -> (r: Option<usize>)
    requires
        ledger_wf(cat_model(catalog@), ledger_model(old(remaining)@)),
    ensures
        ledger_wf(cat_model(catalog@), ledger_model(final(remaining)@)),
        match find_first(cat_model(catalog@), ledger_model(old(remaining)@), name@) {
            None => r is None && final(remaining)@ == old(remaining)@,
            Some(j) => r == Some(old(remaining)@[j].0) && ledger_model(final(remaining)@)
                == swap_removed(ledger_model(old(remaining)@), j),
        },
{
    let ghost cat = cat_model(catalog@);
    let ghost led = ledger_model(old(remaining)@);
    let name_owned = name.to_owned();
    let mut i: usize = 0;
    proof {
        lemma_find_first_characterizes(cat, led, name@);
    }
    while i < remaining.len()
        invariant
            i <= remaining@.len(),
            remaining@ == old(remaining)@,
            ledger_wf(cat, led),
            cat == cat_model(catalog@),
            led == ledger_model(remaining@),
            name_owned@ == name@,
            forall|k: int| 0 <= k < i ==> !entry_matches(cat, #[trigger] led[k], name@),
        decreases remaining@.len() - i,
    {
        let p = remaining[i].0;
        assert(led[i as int] == (remaining@[i as int].0 as int, remaining@[i as int].1@));
        assert(entry_wf(cat, led[i as int]));
        assert(cat[p as int] == catalog@[p as int]@);
        if catalog[p].name.eq(&name_owned) {
            assert(entry_matches(cat, led[i as int], name@));
            proof {
                lemma_find_first_characterizes(cat, led, name@);
                assert(find_first(cat, led, name@) == Some(i as int));
                lemma_wf_swap_removed(cat, led, i as int);
            }
            let e = remaining.swap_remove(i);
            proof {
                assert(ledger_model(remaining@) =~= swap_removed(led, i as int));
            }
            return Some(e.0);
        }
        assert(!entry_matches(cat, led[i as int], name@));
        i += 1;
    }
    proof {
        lemma_find_first_characterizes(cat, led, name@);
    }
    None
}

/// The mathematical value of an executable catalog.
pub open spec fn cat_model(v: Seq<FieldDescriptor>) -> Seq<FieldModel> {
    Seq::new(v.len(), |i: int| v[i]@)
}

impl Fields {
    /// Looks up a column by name in the ledger and claims it: the first
    /// not-yet-claimed column with that name is removed from the ledger and
    /// its position returned; `None` when no such column is left.
    pub fn find_and_remove(&mut self, name: &str) -> (r: Option<usize>)
        requires
            old(self).wf(),
        ensures
            final(self).wf(),
            final(self)@.catalog == old(self)@.catalog,
            match find_first(old(self)@.catalog, old(self)@.ledger, name@) {
                None => r is None && final(self)@.ledger == old(self)@.ledger,
                Some(j) => r == Some(old(self)@.ledger[j].0 as usize) && final(self)@.ledger
                    == swap_removed(old(self)@.ledger, j),
            },
    {
        proof {
            assert(cat_model(self.fields@) =~= self@.catalog);
        }
        let r = ledger_find_remove(&self.fields, &mut self.remaining, name);
        proof {
            if find_first(old(self)@.catalog, old(self)@.ledger, name@) is Some {
                let j = find_first(old(self)@.catalog, old(self)@.ledger, name@)->Some_0;
                lemma_find_first_characterizes(old(self)@.catalog, old(self)@.ledger, name@);
                assert(old(self)@.ledger[j].0 == old(self).remaining@[j].0 as int);
            }
        }
        r
    }
}

/// No two columns of the catalog share a name.
pub open spec fn distinct_names(catalog: Seq<FieldModel>) -> bool {
    forall|i: int, j: int|
        0 <= i < catalog.len() && 0 <= j < catalog.len() && i != j ==> (#[trigger] catalog[i]).name
            != (#[trigger] catalog[j]).name
}

/// Law (round trip, lookup half): with pairwise-distinct column names,
/// looking up the name of a column whose ledger entry is still present hits
/// exactly that entry, whatever else was claimed before.  So decoding a
/// record whose fields match every column name populates every field.
pub proof fn lemma_lookup_hits(catalog: Seq<FieldModel>, ledger: LedgerModel, j: int)
    requires
        ledger_wf(catalog, ledger),
        distinct_names(catalog),
        0 <= j < ledger.len(),
    ensures
        find_first(catalog, ledger, catalog[ledger[j].0].name) == Some(j),
{
    let name = catalog[ledger[j].0].name;
    lemma_find_first_characterizes(catalog, ledger, name);
    assert(entry_wf(catalog, ledger[j]));
    assert(entry_matches(catalog, ledger[j], name));
    match find_first(catalog, ledger, name) {
        None => {
            assert(false);
        },
        Some(i) => {
            assert(entry_matches(catalog, ledger[i], name));
            assert(entry_wf(catalog, ledger[i]));
            if i != j {
                assert(catalog[ledger[i].0].name == catalog[ledger[j].0].name);
                assert(ledger[i].0 == ledger[j].0);
                assert(false);
            }
        },
    }
}

/// A contiguous piece of a well-formed ledger is well formed.
pub proof fn lemma_wf_take_skip(catalog: Seq<FieldModel>, ledger: LedgerModel, b: int)
    requires
        ledger_wf(catalog, ledger),
        0 <= b <= ledger.len(),
    ensures
        ledger_wf(catalog, ledger.take(b)),
        ledger_wf(catalog, ledger.skip(b)),
{
    assert forall|j: int| 0 <= j < b implies entry_wf(catalog, #[trigger] ledger.take(b)[j]) by {
        assert(ledger.take(b)[j] == ledger[j]);
    }
    assert forall|j: int|
        0 <= j < ledger.len() - b implies entry_wf(catalog, #[trigger] ledger.skip(b)[j]) by {
        assert(ledger.skip(b)[j] == ledger[b + j]);
    }
}

impl Clone for FieldDescriptor {
    /// An equal descriptor: the copy carries the same name and table.
    fn clone(&self) -> (r: FieldDescriptor)
        ensures
            r == *self,
    {
        FieldDescriptor { name: self.name.clone(), table: self.table.clone() }
    }
}

impl Clone for Fields {
    /// An equal catalog and ledger: a private ledger clone for a fresh row.
    fn clone(&self) -> (r: Fields)
        ensures
            r.fields@ == self.fields@,
            r.remaining@ == self.remaining@,
            r@ == self@,
    {
        let mut fields: Vec<FieldDescriptor> = Vec::new();
        let mut i: usize = 0;
        while i < self.fields.len()
            invariant
                i <= self.fields@.len(),
                fields@ == self.fields@.take(i as int),
            decreases self.fields@.len() - i,
        {
            fields.push(self.fields[i].clone());
            proof {
                assert(fields@ =~= self.fields@.take(i + 1));
            }
            i += 1;
        }
        let mut remaining: Vec<(usize, String)> = Vec::new();
        let mut k: usize = 0;
        while k < self.remaining.len()
            invariant
                k <= self.remaining@.len(),
                remaining@ == self.remaining@.take(k as int),
            decreases self.remaining@.len() - k,
        {
            let e0 = self.remaining[k].0;
            let e1 = self.remaining[k].1.clone();
            remaining.push((e0, e1));
            proof {
                assert((e0, e1) == self.remaining@[k as int]);
                assert(remaining@ =~= self.remaining@.take(k + 1));
            }
            k += 1;
        }
        proof {
            assert(fields@ =~= self.fields@);
            assert(remaining@ =~= self.remaining@);
        }
        let r = Fields { fields, remaining };
        proof {
            assert(r@.catalog =~= self@.catalog);
            assert(r@.ledger =~= self@.ledger);
        }
        r
    }
}

/// Where a split parts a ledger: the index of the first entry whose column
/// carries the sentinel name, or the ledger's length when none does.
pub open spec fn split_boundary(
    catalog: Seq<FieldModel>,
    ledger: LedgerModel,
    name: Seq<char>,
) -> int {
    match find_first(catalog, ledger, name) {
        Some(j) => j,
        None => ledger.len() as int,
    }
}

/// The column positions a ledger still holds.
pub open spec fn positions(ledger: LedgerModel) -> Set<int> {
    Set::new(|p: int| exists|j: int| 0 <= j < ledger.len() && (#[trigger] ledger[j]).0 == p)
}

/// Law (split totality): the two sides of a split partition the ledger.
/// Their concatenation is the whole ledger, so every column position
/// appears on exactly one side: the sides' position sets are disjoint and
/// their union is the full position set.
pub proof fn lemma_split_totality(catalog: Seq<FieldModel>, ledger: LedgerModel, name: Seq<char>)
    requires
        ledger_wf(catalog, ledger),
    ensures
        0 <= split_boundary(catalog, ledger, name) <= ledger.len(),
        ledger.take(split_boundary(catalog, ledger, name)) + ledger.skip(
            split_boundary(catalog, ledger, name),
        ) == ledger,
        positions(ledger.take(split_boundary(catalog, ledger, name))).union(
            positions(ledger.skip(split_boundary(catalog, ledger, name))),
        ) == positions(ledger),
        positions(ledger.take(split_boundary(catalog, ledger, name))).intersect(
            positions(ledger.skip(split_boundary(catalog, ledger, name))),
        ) == Set::<int>::empty(),
{
    lemma_find_first_characterizes(catalog, ledger, name);
    let b = split_boundary(catalog, ledger, name);
    let l = ledger.take(b);
    let r = ledger.skip(b);
    assert(l + r =~= ledger);
    assert forall|p: int| positions(ledger).contains(p) implies positions(l).union(
        positions(r),
    ).contains(p) by {
        let j = choose|j: int| 0 <= j < ledger.len() && (#[trigger] ledger[j]).0 == p;
        if j < b {
            assert(l[j].0 == p);
        } else {
            assert(r[j - b].0 == p);
        }
    }
    assert forall|p: int| positions(l).union(positions(r)).contains(p) implies positions(
        ledger,
    ).contains(p) by {
        if positions(l).contains(p) {
            let j = choose|j: int| 0 <= j < l.len() && (#[trigger] l[j]).0 == p;
            assert(ledger[j].0 == p);
        } else {
            let j = choose|j: int| 0 <= j < r.len() && (#[trigger] r[j]).0 == p;
            assert(ledger[b + j].0 == p);
        }
    }
    assert(positions(l).union(positions(r)) =~= positions(ledger));
    assert forall|p: int| !(positions(l).intersect(positions(r)).contains(p)) by {
        if positions(l).contains(p) && positions(r).contains(p) {
            let j1 = choose|j: int| 0 <= j < l.len() && (#[trigger] l[j]).0 == p;
            let j2 = choose|j: int| 0 <= j < r.len() && (#[trigger] r[j]).0 == p;
            assert(ledger[j1].0 == p);
            assert(ledger[b + j2].0 == p);
        }
    }
    assert(positions(l).intersect(positions(r)) =~= Set::<int>::empty());
}

impl Fields {
    /// Parts the ledger in two at the first column named `field`: entries
    /// before the boundary form the left group, entries from the boundary
    /// on form the right group.  When no column carries the sentinel name,
    /// everything goes left.
    pub fn split(&self, field: &str) -> (r: (Vec<(usize, String)>, Vec<(usize, String)>))
        requires
            self.wf(),
        ensures
            ledger_model(r.0@) == self@.ledger.take(
                split_boundary(self@.catalog, self@.ledger, field@),
            ),
            ledger_model(r.1@) == self@.ledger.skip(
                split_boundary(self@.catalog, self@.ledger, field@),
            ),
    {
        let ghost cat = self@.catalog;
        let ghost led = self@.ledger;
        let field_owned = field.to_owned();
        let n = self.remaining.len();
        let mut b: usize = n;
        let mut i: usize = 0;
        while i < n && b == n
            invariant
                i <= n,
                n == self.remaining@.len(),
                led == ledger_model(self.remaining@),
                cat == self@.catalog,
                ledger_wf(cat, led),
                field_owned@ == field@,
                b == n || (0 <= b < n && b == i && entry_matches(cat, led[b as int], field@)
                    && forall|k: int| 0 <= k < b ==> !entry_matches(cat, #[trigger] led[k], field@)),
                b == n ==> forall|k: int| 0 <= k < i ==> !entry_matches(cat, #[trigger] led[k], field@),
            decreases n - i + (if b == n { 1int } else { 0int }),
        {
            let p = self.remaining[i].0;
            assert(entry_wf(cat, led[i as int]));
            assert(cat[p as int] == self.fields@[p as int]@);
            if self.fields[p].name.eq(&field_owned) {
                b = i;
            } else {
                i += 1;
            }
        }
        proof {
            lemma_find_first_characterizes(cat, led, field@);
            if b == n {
                assert(find_first(cat, led, field@) is None);
            } else {
                assert(find_first(cat, led, field@) == Some(b as int));
            }
            assert(split_boundary(cat, led, field@) == b as int);
        }
        let mut left: Vec<(usize, String)> = Vec::new();
        let mut right: Vec<(usize, String)> = Vec::new();
        let mut k: usize = 0;
        while k < b
            invariant
                b <= n,
                k <= b,
                n == self.remaining@.len(),
                led == ledger_model(self.remaining@),
                left@.len() == k,
                forall|t: int|
                    0 <= t < k ==> (#[trigger] left@[t]).0 == self.remaining@[t].0 && left@[t].1@
                        == self.remaining@[t].1@,
            decreases b - k,
        {
            let e0 = self.remaining[k].0;
            let e1 = self.remaining[k].1.clone();
            left.push((e0, e1));
            k += 1;
        }
        let mut k: usize = b;
        while k < n
            invariant
                b <= k <= n,
                n == self.remaining@.len(),
                led == ledger_model(self.remaining@),
                right@.len() == k - b,
                forall|t: int|
                    0 <= t < k - b ==> (#[trigger] right@[t]).0 == self.remaining@[t + b].0
                        && right@[t].1@ == self.remaining@[t + b].1@,
            decreases n - k,
        {
            let e0 = self.remaining[k].0;
            let e1 = self.remaining[k].1.clone();
            right.push((e0, e1));
            k += 1;
        }
        proof {
            assert(ledger_model(left@) =~= led.take(b as int));
            assert(ledger_model(right@) =~= led.skip(b as int));
        }
        (left, right)
    }
}

} // verus!
