use vstd::prelude::*;

use crate::state::OpState;

verus! {

/// A single imported financial transaction record, as held by the store.
#[derive(Debug)]
pub struct Operation {
    /// Unique, stable, store-assigned identifier.
    pub id: u32,
    /// The transaction's logical date; an opaque text the engine only orders.
    pub operation_date: String,
    /// Machine code for the transaction category.
    pub op_type: String,
    /// Human label for the transaction category.
    pub type_display: String,
    /// Free-text description; user-editable, and the handle for resolution.
    pub details: String,
    /// Signed amount in exact cent units.
    pub amount_in_cents: i32,
    /// Content fingerprint computed by the import layer; immutable here.
    pub hash: String,
    /// Review workflow state.
    pub state: OpState,
    /// Excluded from aggregate reporting without being deleted.
    pub ignored_from_charts: bool,
    /// Owning account; opaque to the engine.
    pub bank_account_id: u32,
    /// Tag identifiers attached to the operation; no duplicates.
    pub tags_ids: Vec<u32>,
}

/// Mathematical image of an [`Operation`].
pub struct OpView {
    pub id: u32,
    pub operation_date: Seq<char>,
    pub op_type: Seq<char>,
    pub type_display: Seq<char>,
    pub details: Seq<char>,
    pub amount_in_cents: i32,
    pub hash: Seq<char>,
    pub state: OpState,
    pub ignored_from_charts: bool,
    pub bank_account_id: u32,
    pub tags_ids: Seq<u32>,
}

impl View for Operation {
    type V = OpView;

    open spec fn view(&self) -> OpView {
        OpView {
            id: self.id,
            operation_date: self.operation_date@,
            op_type: self.op_type@,
            type_display: self.type_display@,
            details: self.details@,
            amount_in_cents: self.amount_in_cents,
            hash: self.hash@,
            state: self.state,
            ignored_from_charts: self.ignored_from_charts,
            bank_account_id: self.bank_account_id,
            tags_ids: self.tags_ids@,
        }
    }
}

/// A record handed to batch insertion: everything the import layer knows.
/// The id and the state are store-assigned.
#[derive(Debug)]
pub struct NewOperation {
    pub operation_date: String,
    pub op_type: String,
    pub type_display: String,
    pub details: String,
    pub amount_in_cents: i32,
    pub hash: String,
    pub ignored_from_charts: bool,
    pub bank_account_id: u32,
}

/// Mathematical image of a [`NewOperation`].
pub struct NewOpView {
    pub operation_date: Seq<char>,
    pub op_type: Seq<char>,
    pub type_display: Seq<char>,
    pub details: Seq<char>,
    pub amount_in_cents: i32,
    pub hash: Seq<char>,
    pub ignored_from_charts: bool,
    pub bank_account_id: u32,
}

impl View for NewOperation {
    type V = NewOpView;

    open spec fn view(&self) -> NewOpView {
        NewOpView {
            operation_date: self.operation_date@,
            op_type: self.op_type@,
            type_display: self.type_display@,
            details: self.details@,
            amount_in_cents: self.amount_in_cents,
            hash: self.hash@,
            ignored_from_charts: self.ignored_from_charts,
            bank_account_id: self.bank_account_id,
        }
    }
}

/// The record a new operation becomes when the store assigns it `id`:
/// freshly inserted operations start settled and untagged.
pub open spec fn admitted(n: NewOpView, id: u32) -> OpView {
    OpView {
        id,
        operation_date: n.operation_date,
        op_type: n.op_type,
        type_display: n.type_display,
        details: n.details,
        amount_in_cents: n.amount_in_cents,
        hash: n.hash,
        state: OpState::Settled,
        ignored_from_charts: n.ignored_from_charts,
        bank_account_id: n.bank_account_id,
        tags_ids: Seq::empty(),
    }
}

/// `o` with its state replaced.
pub open spec fn with_state(o: OpView, st: OpState) -> OpView {
    OpView { state: st, ..o }
}

/// The views of a sequence of operations.
pub open spec fn seq_view(s: Seq<Operation>) -> Seq<OpView> {
    s.map_values(|o: Operation| o@)
}

/// Element-wise copy of a tag id list.
fn copy_tags(v: &Vec<u32>) -> (r: Vec<u32>)
    ensures
        r@ == v@,
{
    let mut r: Vec<u32> = Vec::new();
    let mut i: usize = 0;
    while i < v.len()
        invariant
            i <= v.len(),
            r@ == v@.subrange(0, i as int),
        decreases v.len() - i,
    {
        r.push(v[i]);
        proof {
            assert(r@ =~= v@.subrange(0, i + 1));
        }
        i += 1;
    }
    proof {
        assert(v@.subrange(0, v@.len() as int) =~= v@);
    }
    r
}

/// Membership test on a tag id list.
pub(crate) fn tags_contain(v: &Vec<u32>, x: u32) -> (r: bool)
    ensures
        r == v@.contains(x),
{
    let mut i: usize = 0;
    while i < v.len()
        invariant
            i <= v@.len(),
            forall|k: int| 0 <= k < i ==> v@[k] != x,
        decreases v@.len() - i,
    {
        if v[i] == x {
            return true;
        }
        i += 1;
    }
    false
}

impl Operation {
    /// A value-equal copy of this record.
    pub fn duplicate(&self) -> (r: Operation)
        ensures
            r@ == self@,
    {
        Operation {
            id: self.id,
            operation_date: self.operation_date.clone(),
            op_type: self.op_type.clone(),
            type_display: self.type_display.clone(),
            details: self.details.clone(),
            amount_in_cents: self.amount_in_cents,
            hash: self.hash.clone(),
            state: self.state,
            ignored_from_charts: self.ignored_from_charts,
            bank_account_id: self.bank_account_id,
            tags_ids: copy_tags(&self.tags_ids),
        }
    }

    /// A value-equal copy of this record with its state replaced.
    pub fn duplicate_with_state(&self, st: OpState) -> (r: Operation)
        ensures
            r@ == with_state(self@, st),
    {
        let mut r = self.duplicate();
        r.state = st;
        r
    }
}

} // verus!
