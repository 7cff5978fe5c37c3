//! Claiming strategies: which remaining columns belong to the table a
//! decoder is currently reading.
//!
//! A strategy takes the row's ledger, removes the entries it claims, and
//! hands the caller a private column list to resolve fields against.
//! Every strategy must hand out a ledger-consuming subset: what is claimed
//! leaves the ledger, so no column position is ever claimed twice across
//! calls on the same ledger.

use vstd::prelude::*;

use crate::fields::{cat_model, ledger_model, ledger_wf, positions, EntryModel, FieldDescriptor, LedgerModel};

verus! {

/// A strategy that decides which remaining columns belong to the current
/// table and claims them from the ledger.
pub trait TableMapper {
    /// Removes the claimed entries from the ledger and returns them as the
    /// caller's private column list.  The claimed positions and the
    /// positions left behind partition the old ledger's positions.
    fn claim_columns(catalog: &Vec<FieldDescriptor>, ledger: &mut Vec<(usize, String)>) -> (claimed:
        Vec<(usize, String)>)
        requires
            ledger_wf(cat_model(catalog@), ledger_model(old(ledger)@)),
        ensures
            ledger_wf(cat_model(catalog@), ledger_model(final(ledger)@)),
            ledger_wf(cat_model(catalog@), ledger_model(claimed@)),
            positions(ledger_model(claimed@)).union(positions(ledger_model(final(ledger)@)))
                == positions(ledger_model(old(ledger)@)),
            positions(ledger_model(claimed@)).intersect(positions(ledger_model(final(ledger)@)))
                == Set::<int>::empty(),
    ;
}

/// The strategy for single-table decoding: claims every remaining column.
pub struct ClaimAll;

impl TableMapper for ClaimAll {
    /// Claims the whole ledger: the returned list is the old ledger, and
    /// nothing is left to claim.
    fn claim_columns(catalog: &Vec<FieldDescriptor>, ledger: &mut Vec<(usize, String)>) -> (claimed:
        Vec<(usize, String)>)
        ensures
            claimed@ == old(ledger)@,
            final(ledger)@.len() == 0,
    {
        let mut claimed: Vec<(usize, String)> = Vec::new();
        claimed.append(ledger);
        proof {
            assert(claimed@ =~= old(ledger)@);
            assert(ledger_model(ledger@) =~= Seq::<EntryModel>::empty());
            assert(positions(ledger_model(ledger@)) =~= Set::<int>::empty());
            assert(positions(ledger_model(claimed@)).union(positions(ledger_model(ledger@)))
                =~= positions(ledger_model(old(ledger)@)));
            assert(positions(ledger_model(claimed@)).intersect(positions(ledger_model(ledger@)))
                =~= Set::<int>::empty());
        }
        claimed
    }
}

/// Law (disjoint claiming): across two successive claims against the same
/// ledger, no column position is handed out twice — whatever the strategy,
/// as long as each claim partitions the ledger it found.
pub proof fn lemma_disjoint_claims(
    before: LedgerModel,
    claimed1: LedgerModel,
    after1: LedgerModel,
    claimed2: LedgerModel,
    after2: LedgerModel,
)
    requires
        positions(claimed1).union(positions(after1)) == positions(before),
        positions(claimed1).intersect(positions(after1)) == Set::<int>::empty(),
        positions(claimed2).union(positions(after2)) == positions(after1),
    ensures
        positions(claimed1).intersect(positions(claimed2)) == Set::<int>::empty(),
{
    assert forall|p: int| !(#[trigger] positions(claimed1).intersect(positions(claimed2)).contains(
        p,
    )) by {
        if positions(claimed1).contains(p) && positions(claimed2).contains(p) {
            assert(positions(claimed2).union(positions(after2)).contains(p));
            assert(positions(after1).contains(p));
            assert(positions(claimed1).intersect(positions(after1)).contains(p));
        }
    }
    assert(positions(claimed1).intersect(positions(claimed2)) =~= Set::<int>::empty());
}

} // verus!
