//! What applying one step did, for a presentation layer to show.
use vstd::prelude::*;

use crate::node::NId;

verus! {

#[derive(Debug, PartialEq, Eq)]
pub enum ChangeType {
    NoChange,
    /// Several changes that happened together.
    Parallel { changes: Vec<ChangeType> },
    /// A value changed; the layout did not.
    ValueChange { id: NId, from: String, to: String },
    AddCell { id: NId },
    RemoveCell { id: NId },
    /// The layout, and possibly everything else, changed.
    LayoutChange,
}

/// The mathematical model of a `ChangeType`.
pub enum ChangeModel {
    NoChange,
    Parallel(Seq<ChangeModel>),
    ValueChange(NId, Seq<char>, Seq<char>),
    AddCell(NId),
    RemoveCell(NId),
    LayoutChange,
}

/// The models of the first `n` changes of `v`.
pub open spec fn changes_model(v: Vec<ChangeType>, n: nat) -> Seq<ChangeModel>
    decreases v, n,
{
    if n == 0 || n > v.len() {
        Seq::empty()
    } else {
        changes_model(v, (n - 1) as nat).push(change_model(v[n - 1]))
    }
}

pub open spec fn change_model(c: ChangeType) -> ChangeModel
    decreases c, 0nat,
{
    match c {
        ChangeType::NoChange => ChangeModel::NoChange,
        ChangeType::Parallel { changes } => ChangeModel::Parallel(changes_model(changes, changes.len() as nat)),
        ChangeType::ValueChange { id, from, to } => ChangeModel::ValueChange(id, from@, to@),
        ChangeType::AddCell { id } => ChangeModel::AddCell(id),
        ChangeType::RemoveCell { id } => ChangeModel::RemoveCell(id),
        ChangeType::LayoutChange => ChangeModel::LayoutChange,
    }
}

impl View for ChangeType {
    type V = ChangeModel;

    open spec fn view(&self) -> ChangeModel {
        change_model(*self)
    }
}

pub proof fn lemma_changes_model(v: Vec<ChangeType>, n: nat)
    requires
        n <= v.len(),
    ensures
        changes_model(v, n).len() == n,
        forall|i: int| 0 <= i < n ==> #[trigger] changes_model(v, n)[i] == v[i]@,
    decreases n,
{
    if n > 0 {
        lemma_changes_model(v, (n - 1) as nat);
    }
}

} // verus!
