//! Decoding rows into typed records, and flattening a LEFT JOIN's
//! duplicated-parent row stream into nested one-to-many results.
//!
//! `Storable` is the decoding contract a consumer writes once per record
//! type.  `LeftJoin` streams the row sequence in a single forward pass:
//! it splits each row, groups maximal runs of consecutive rows sharing the
//! same parent columns, and emits one `(parent, children)` pair per group.
//! A group whose first row has an all-null right side is a parent with no
//! matching child and gets an empty child list.  Rows must arrive grouped
//! by parent (the common `ORDER BY` pattern); the combinator does not sort.

use core::marker::PhantomData;
use vstd::prelude::*;

use crate::row::{Row, RowModel};
use crate::split::RowSplitter;

verus! {

/// The decoding contract: turns a sequence of row views into a sequence of
/// records, one record per row, claiming each row's columns by name.
pub trait Storable {
    type Kind;

    /// Decodes the rows, producing exactly one record per row.
    fn store(rows: Vec<Row>) -> (r: Vec<Self::Kind>)
        requires
            forall|i: int| 0 <= i < rows@.len() ==> (#[trigger] rows@[i]).wf(),
        ensures
            r@.len() == rows@.len(),
    ;
}

/// How many rows, from the front of `rows`, carry the same parent columns
/// as `l0` once split.
pub open spec fn run_len<S: RowSplitter>(l0: RowModel, rows: Seq<Row>) -> int
    decreases rows.len(),
{
    if rows.len() == 0 {
        0
    } else if !S::same_group(l0, S::left_of(rows[0]@)) {
        0
    } else {
        1 + run_len::<S>(l0, rows.skip(1))
    }
}

/// A run is never longer than the rows it was measured on.
pub proof fn lemma_run_len_bounds<S: RowSplitter>(l0: RowModel, rows: Seq<Row>)
    ensures
        0 <= run_len::<S>(l0, rows) <= rows.len(),
    decreases rows.len(),
{
    if rows.len() > 0 && S::same_group(l0, S::left_of(rows[0]@)) {
        lemma_run_len_bounds::<S>(l0, rows.skip(1));
    }
}

/// The child-list length of each group the combinator emits, in order: `0`
/// for a group opened by an all-null right side, else the size of the
/// maximal run of rows sharing the opening row's parent columns.
pub open spec fn child_counts<S: RowSplitter>(rows: Seq<Row>) -> Seq<int>
    decreases rows.len(),
    via child_counts_decreases::<S>
{
    if rows.len() == 0 {
        Seq::empty()
    } else if S::right_of(rows[0]@).is_null() {
        seq![0int] + child_counts::<S>(rows.skip(1))
    } else {
        let k = 1 + run_len::<S>(S::left_of(rows[0]@), rows.skip(1));
        seq![k] + child_counts::<S>(rows.skip(k))
    }
}

#[via_fn]
proof fn child_counts_decreases<S: RowSplitter>(rows: Seq<Row>) {
    if rows.len() > 0 {
        lemma_run_len_bounds::<S>(S::left_of(rows[0]@), rows.skip(1));
    }
}

/// The child-list lengths of a sequence of emitted `(parent, children)`
/// pairs.
pub open spec fn result_counts<P, C>(r: Seq<(P, Vec<C>)>) -> Seq<int> {
    Seq::new(r.len(), |t: int| r[t].1@.len() as int)
}

/// A `Storable` combinator over a parent decoder `A`, a child decoder `B`
/// and a splitter `T`: decodes a LEFT JOIN's row stream into
/// `(parent, children)` pairs.
pub struct LeftJoin<A: Storable, B: Storable, T: RowSplitter> {
    _a: PhantomData<A>,
    _b: PhantomData<B>,
    _t: PhantomData<T>,
}

impl<A: Storable, B: Storable, S: RowSplitter> LeftJoin<A, B, S> {
    /// Law (join cardinality): one `(parent, children)` pair per group of
    /// consecutive rows sharing the same parent columns, the children of a
    /// group being its rows' right sides — none when the group's first row
    /// had an all-null right side.
    ///
    /// Single forward pass; no buffering beyond one pending group.
    pub fn store(rows: Vec<Row>) -> (r: Vec<(A::Kind, Vec<B::Kind>)>)
        requires
            forall|i: int|
                0 <= i < rows@.len() ==> (#[trigger] rows@[i]).is_real() && rows@[i].wf(),
        ensures
            r@.len() == child_counts::<S>(rows@).len(),
            forall|i: int|
                0 <= i < r@.len() ==> (#[trigger] r@[i]).1@.len() == child_counts::<S>(rows@)[i],
    {
        let ghost all = rows@;
        let mut rest = rows;
        let mut splits: Vec<(Row, Row)> = Vec::new();
        while rest.len() > 0
            invariant
                splits@.len() + rest@.len() == all.len(),
                rest@ == all.skip(splits@.len() as int),
                forall|i: int|
                    0 <= i < all.len() ==> (#[trigger] all[i]).is_real() && all[i].wf(),
                forall|j: int|
                    0 <= j < splits@.len() ==> (#[trigger] splits@[j]).0@ == S::left_of(all[j]@)
                        && splits@[j].1@ == S::right_of(all[j]@) && splits@[j].0.wf()
                        && splits@[j].1.wf(),
            decreases rest@.len(),
        {
            let ghost n0 = splits@.len() as int;
            assert(rest@[0] == all[n0]);
            let row = rest.remove(0);
            proof {
                assert(rest@ =~= all.skip(n0 + 1));
            }
            let lr = S::split(row);
            splits.push(lr);
        }
        let ghost total = child_counts::<S>(all);
        let mut out: Vec<(A::Kind, Vec<B::Kind>)> = Vec::new();
        let ghost mut g: int = 0;
        proof {
            assert(all.skip(0) =~= all);
            assert(result_counts(out@) =~= Seq::<int>::empty());
            assert(total =~= result_counts(out@) + child_counts::<S>(all.skip(0)));
        }
        while splits.len() > 0
            invariant
                0 <= g <= all.len(),
                splits@.len() == all.len() - g,
                forall|i: int|
                    0 <= i < all.len() ==> (#[trigger] all[i]).is_real() && all[i].wf(),
                forall|j: int|
                    0 <= j < splits@.len() ==> (#[trigger] splits@[j]).0@ == S::left_of(
                        all[g + j]@,
                    ) && splits@[j].1@ == S::right_of(all[g + j]@) && splits@[j].0.wf()
                        && splits@[j].1.wf(),
                total == child_counts::<S>(all),
                total =~= result_counts(out@) + child_counts::<S>(all.skip(g)),
            decreases splits@.len(),
        {
            let ghost g0 = g;
            let ghost sp0 = splits@;
            let (left, right) = splits.remove(0);
            proof {
                g = g + 1;
                assert(splits@ =~= sp0.skip(1));
                assert(left == sp0[0].0 && right == sp0[0].1);
                assert(left@ == S::left_of(all[g0]@) && left.wf());
                assert(right@ == S::right_of(all[g0]@) && right.wf());
                assert forall|j: int|
                    0 <= j < splits@.len() implies (#[trigger] splits@[j]).0@ == S::left_of(
                    all[g + j]@,
                ) && splits@[j].1@ == S::right_of(all[g + j]@) && splits@[j].0.wf()
                    && splits@[j].1.wf() by {
                    assert(splits@[j] == sp0[j + 1]);
                }
            }
            let ghost s0 = all.skip(g0);
            proof {
                assert(s0[0] == all[g0]);
                assert(s0.skip(1) =~= all.skip(g0 + 1));
            }
            if right.is_row_null() {
                proof {
                    assert(S::right_of(s0[0]@).is_null());
                }
                let mut lv: Vec<Row> = Vec::new();
                lv.push(left);
                let mut ps = A::store(lv);
                let p = ps.pop().unwrap();
                let ghost out0 = out@;
                out.push((p, Vec::<B::Kind>::new()));
                proof {
                    assert(child_counts::<S>(s0) == seq![0int] + child_counts::<S>(s0.skip(1)));
                    assert(result_counts(out@) =~= result_counts(out0) + seq![0int]);
                    assert(total =~= result_counts(out@) + child_counts::<S>(all.skip(g)));
                }
            } else {
                let mut rvec: Vec<Row> = Vec::new();
                rvec.push(right);
                while splits.len() > 0 && S::compare(&left, &splits[0].0)
                    invariant
                        0 <= g0 < all.len(),
                        g0 < g <= all.len(),
                        splits@.len() == all.len() - g,
                        forall|i: int|
                            0 <= i < all.len() ==> (#[trigger] all[i]).is_real() && all[i].wf(),
                        forall|j: int|
                            0 <= j < splits@.len() ==> (#[trigger] splits@[j]).0@ == S::left_of(
                                all[g + j]@,
                            ) && splits@[j].1@ == S::right_of(all[g + j]@) && splits@[j].0.wf()
                                && splits@[j].1.wf(),
                        left@ == S::left_of(all[g0]@),
                        left.wf(),
                        rvec@.len() == g - g0,
                        forall|j: int| 0 <= j < rvec@.len() ==> (#[trigger] rvec@[j]).wf(),
                        run_len::<S>(left@, all.skip(g0 + 1)) == (g - g0 - 1) + run_len::<S>(
                            left@,
                            all.skip(g),
                        ),
                        !(S::right_of(all[g0]@).is_null()),
                        total == child_counts::<S>(all),
                        total =~= result_counts(out@) + child_counts::<S>(all.skip(g0)),
                    decreases splits@.len(),
                {
                    let ghost g1 = g;
                    let ghost sp1 = splits@;
                    assert(S::same_group(left@, S::left_of(all[g1]@)));
                    let (l2, r2) = splits.remove(0);
                    rvec.push(r2);
                    proof {
                        g = g + 1;
                        assert(splits@ =~= sp1.skip(1));
                        assert(r2 == sp1[0].1 && r2.wf());
                        assert forall|j: int|
                            0 <= j < splits@.len() implies (#[trigger] splits@[j]).0@ == S::left_of(
                            all[g + j]@,
                        ) && splits@[j].1@ == S::right_of(all[g + j]@) && splits@[j].0.wf()
                            && splits@[j].1.wf() by {
                            assert(splits@[j] == sp1[j + 1]);
                        }
                        let s1 = all.skip(g1);
                        assert(s1[0] == all[g1]);
                        assert(s1.skip(1) =~= all.skip(g1 + 1));
                        assert(run_len::<S>(left@, s1) == 1 + run_len::<S>(left@, s1.skip(1)));
                    }
                }
                proof {
                    if splits.len() == 0 {
                        assert(g == all.len());
                        assert(all.skip(g) =~= Seq::<Row>::empty());
                        assert(run_len::<S>(left@, all.skip(g)) == 0);
                    } else {
                        assert(!S::same_group(left@, S::left_of(all[g]@)));
                        assert(all.skip(g)[0] == all[g]);
                        assert(run_len::<S>(left@, all.skip(g)) == 0);
                    }
                }
                let ghost k = g - g0;
                let mut lv: Vec<Row> = Vec::new();
                lv.push(left);
                let mut ps = A::store(lv);
                let p = ps.pop().unwrap();
                let cs = B::store(rvec);
                let ghost out0 = out@;
                out.push((p, cs));
                proof {
                    assert(!(S::right_of(s0[0]@).is_null()));
                    assert(run_len::<S>(S::left_of(s0[0]@), s0.skip(1)) == k - 1);
                    assert(child_counts::<S>(s0) == seq![k] + child_counts::<S>(s0.skip(k)));
                    assert(s0.skip(k) =~= all.skip(g));
                    assert(result_counts(out@) =~= result_counts(out0) + seq![k]);
                    assert(total =~= result_counts(out@) + child_counts::<S>(all.skip(g)));
                }
            }
        }
        proof {
            assert(g == all.len());
            assert(all.skip(g) =~= Seq::<Row>::empty());
            assert(child_counts::<S>(all.skip(g)) =~= Seq::<int>::empty());
            assert(total =~= result_counts(out@));
        }
        out
    }
}

} // verus!
