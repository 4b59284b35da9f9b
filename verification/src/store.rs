use vstd::prelude::*;

use crate::detect::{collides, refreshed, transition_count, transition_count_upto};
use crate::error::EngineError;
use crate::operation::{admitted, seq_view, tags_contain, NewOperation, OpView, Operation};
use crate::order::{sort_ops, sorted, ResultOrder};
use crate::state::OpState;
use crate::text::text_eq;

verus! {

/// There is a record with this id.
pub open spec fn has_id(s: Seq<OpView>, id: u32) -> bool {
    exists|i: int| 0 <= i < s.len() && #[trigger] s[i].id == id
}

/// `o` after a resolving edit: new details, and the state unconditionally
/// back to settled — editing is treated as acknowledgement.
pub open spec fn resolved(o: OpView, details: Seq<char>) -> OpView {
    OpView { details: details, state: OpState::Settled, ..o }
}

/// Tags after attachment: `base` with each genuinely new member of `add`
/// appended, first occurrence first.
pub open spec fn merged_tags(base: Seq<u32>, add: Seq<u32>) -> Seq<u32>
    decreases add.len(),
{
    if add.len() == 0 {
        base
    } else if base.contains(add[0]) {
        merged_tags(base, add.skip(1))
    } else {
        merged_tags(base.push(add[0]), add.skip(1))
    }
}

/// Attachment keeps the tag list duplicate-free and holds exactly the union
/// of the old tags and the attached ones.
pub proof fn lemma_merged_tags(base: Seq<u32>, add: Seq<u32>)
    requires
        base.no_duplicates(),
    ensures
        merged_tags(base, add).no_duplicates(),
        forall|x: u32|
            #[trigger] merged_tags(base, add).contains(x) == (base.contains(x) || add.contains(x)),
    decreases add.len(),
{
    if add.len() == 0 {
        assert forall|x: u32|
            #[trigger] merged_tags(base, add).contains(x) == (base.contains(x) || add.contains(
                x,
            )) by {
            if add.contains(x) {
                let w = choose|w: int| 0 <= w < add.len() && add[w] == x;
            }
        }
    } else {
        let a0 = add[0];
        let rest = add.skip(1);
        assert forall|x: u32|
            #[trigger] add.contains(x) == (x == a0 || rest.contains(x)) by {
            if add.contains(x) {
                let w = choose|w: int| 0 <= w < add.len() && add[w] == x;
                if w > 0 {
                    assert(rest[w - 1] == x);
                }
            }
            if rest.contains(x) {
                let w = choose|w: int| 0 <= w < rest.len() && rest[w] == x;
                assert(add[w + 1] == x);
            }
        }
        if base.contains(a0) {
            lemma_merged_tags(base, rest);
        } else {
            let base1 = base.push(a0);
            assert forall|i: int, j: int|
                0 <= i < j < base1.len() implies base1[i] != base1[j] by {
                if j == base1.len() - 1 {
                    assert(base[i] != a0);
                }
            }
            lemma_merged_tags(base1, rest);
            assert forall|x: u32|
                #[trigger] base1.contains(x) == (base.contains(x) || x == a0) by {
                assert(base1[base.len() as int] == a0);
                if base1.contains(x) {
                    let w = choose|w: int| 0 <= w < base1.len() && base1[w] == x;
                    if w < base.len() {
                        assert(base[w] == x);
                    }
                }
                if base.contains(x) {
                    let w = choose|w: int| 0 <= w < base.len() && base[w] == x;
                    assert(base1[w] == x);
                }
            }
        }
    }
}

/// `o` with tags attached: the list becomes [`merged_tags`] of the old
/// list and the attached ones.
pub open spec fn tagged(o: OpView, add: Seq<u32>) -> OpView {
    OpView { tags_ids: merged_tags(o.tags_ids, add), ..o }
}

/// Persisted records that can be taken back as a store: ascending ids
/// below the next free id, and no duplicate tags.
pub open spec fn restorable(s: Seq<OpView>, next_id: u32) -> bool {
    &&& forall|i: int, j: int| 0 <= i < j < s.len() ==> s[i].id < s[j].id
    &&& forall|i: int| 0 <= i < s.len() ==> (#[trigger] s[i].id) < next_id
    &&& forall|i: int| 0 <= i < s.len() ==> (#[trigger] s[i].tags_ids).no_duplicates()
}

/// Duplicate-freedom test on a tag id list.
fn tags_no_duplicates(v: &Vec<u32>) -> (r: bool)
    ensures
        r == v@.no_duplicates(),
{
    let mut i: usize = 0;
    while i < v.len()
        invariant
            i <= v@.len(),
            forall|a: int, b: int| 0 <= a < b < i ==> v@[a] != v@[b],
        decreases v@.len() - i,
    {
        let mut j: usize = 0;
        while j < i
            invariant
                j <= i < v@.len(),
                forall|b: int| 0 <= b < j ==> v@[b] != v@[i as int],
            decreases i - j,
        {
            if v[j] == v[i] {
                return false;
            }
            j += 1;
        }
        i += 1;
    }
    true
}

/// The records of `s` that await triage, in store order.
pub open spec fn triage_subset(s: Seq<OpView>) -> Seq<OpView> {
    s.filter(|o: OpView| o.state == OpState::PendingTriage)
}

/// The operation store: the durable record set, owner of identity, review
/// state and content hash.
///
/// Its view is the sequence of record views in insertion order.
#[derive(Debug)]
pub struct Store {
    ops: Vec<Operation>,
    next_id: u32,
}

impl View for Store {
    type V = Seq<OpView>;

    closed spec fn view(&self) -> Seq<OpView> {
        seq_view(self.ops@)
    }
}

impl Store {
    /// The id the store will assign next.
    pub closed spec fn next_id(&self) -> u32 {
        self.next_id
    }

    /// Well-formedness: ids are assigned in insertion order and below the
    /// next free id, and no record carries a duplicate tag.
    pub closed spec fn wf(&self) -> bool {
        &&& forall|i: int, j: int| 0 <= i < j < self@.len() ==> self@[i].id < self@[j].id
        &&& forall|i: int| 0 <= i < self@.len() ==> (#[trigger] self@[i].id) < self.next_id
        &&& forall|i: int| 0 <= i < self@.len() ==> (#[trigger] self@[i].tags_ids).no_duplicates()
    }

    /// An empty store; the first assigned id is 1.
    pub fn new() -> (s: Store)
        ensures
            s.wf(),
            s@ == Seq::<OpView>::empty(),
            s.next_id() == 1,
    {
        let s = Store { ops: Vec::new(), next_id: 1 };
        proof {
            assert(s@ =~= Seq::<OpView>::empty());
        }
        s
    }

    /// Rebuild a store from persisted records, as the storage layer read
    /// them back: records must come in ascending id order, below the next
    /// free id, without duplicate tags.  Anything else is corrupted
    /// storage: `StorageFailure`, and no store is built.
    #[verifier::rlimit(40)]
    pub fn restore(ops: Vec<Operation>, next_id: u32) -> (r: Result<Store, EngineError>)
        ensures
            (r is Ok) == restorable(seq_view(ops@), next_id),
            r is Ok ==> r->Ok_0@ == seq_view(ops@) && r->Ok_0.wf() && r->Ok_0.next_id()
                == next_id,
            r is Err ==> r == Err::<Store, EngineError>(EngineError::StorageFailure),
    {
        let n = ops.len();
        let ghost s = seq_view(ops@);
        let mut i: usize = 0;
        while i < n
            invariant
                n == ops@.len(),
                s == seq_view(ops@),
                i <= n,
                forall|a: int, b: int| 0 <= a < b < i ==> s[a].id < s[b].id,
                forall|k: int| 0 <= k < i ==> (#[trigger] s[k].id) < next_id,
                forall|k: int| 0 <= k < i ==> (#[trigger] s[k].tags_ids).no_duplicates(),
            decreases n - i,
        {
            if ops[i].id >= next_id {
                proof {
                    assert(s[i as int].id >= next_id);
                    assert(!restorable(s, next_id));
                }
                return Err(EngineError::StorageFailure);
            }
            if i > 0 && ops[i - 1].id >= ops[i].id {
                proof {
                    assert(s[i as int - 1].id >= s[i as int].id);
                    assert(!restorable(s, next_id));
                }
                return Err(EngineError::StorageFailure);
            }
            if !tags_no_duplicates(&ops[i].tags_ids) {
                proof {
                    assert(!s[i as int].tags_ids.no_duplicates());
                    assert(!restorable(s, next_id));
                }
                return Err(EngineError::StorageFailure);
            }
            proof {
                let ii = i as int;
                assert forall|a: int| 0 <= a < ii implies s[a].id < s[ii].id by {
                    if a < ii - 1 {
                        assert(s[a].id < s[ii - 1].id);
                    }
                }
            }
            i += 1;
        }
        Ok(Store { ops, next_id })
    }

    /// Append a batch of new records, assigning fresh consecutive ids; new
    /// records start settled and untagged.  Appends nothing — fails
    /// atomically with `StorageFailure` — exactly when the id space cannot
    /// seat the whole batch.
    pub fn insert_batch(&mut self, items: Vec<NewOperation>) -> (r: Result<usize, EngineError>)
        requires
            old(self).wf(),
        ensures
            final(self).wf(),
            (r is Ok) == (old(self).next_id() + items@.len() <= u32::MAX),
            r is Err ==> r == Err::<usize, EngineError>(EngineError::StorageFailure)
                && final(self)@ == old(self)@ && final(self).next_id() == old(self).next_id(),
            r is Ok ==> {
                &&& r->Ok_0 == items@.len()
                &&& final(self)@.len() == old(self)@.len() + items@.len()
                &&& forall|k: int|
                    0 <= k < old(self)@.len() ==> final(self)@[k] == old(self)@[k]
                &&& forall|k: int|
                    0 <= k < items@.len() ==> final(self)@[old(self)@.len() + k] == admitted(
                        items@[k]@,
                        (old(self).next_id() + k) as u32,
                    )
                &&& final(self).next_id() == old(self).next_id() + items@.len()
            },
    {
        let n = items.len();
        if n > (u32::MAX - self.next_id) as usize {
            return Err(EngineError::StorageFailure);
        }
        let ghost orig = self@;
        let ghost orig_next = self.next_id;
        let mut i: usize = 0;
        while i < n
            invariant
                old(self).wf(),
                orig == old(self)@,
                orig_next == old(self).next_id(),
                n == items@.len(),
                orig_next + n <= u32::MAX,
                i <= n,
                self.next_id == orig_next + i,
                self@.len() == orig.len() + i,
                forall|k: int| 0 <= k < orig.len() ==> self@[k] == orig[k],
                forall|k: int|
                    0 <= k < i ==> self@[orig.len() + k] == admitted(
                        items@[k]@,
                        (orig_next + k) as u32,
                    ),
            decreases n - i,
        {
            let it = &items[i];
            let op = Operation {
                id: self.next_id,
                operation_date: it.operation_date.clone(),
                op_type: it.op_type.clone(),
                type_display: it.type_display.clone(),
                details: it.details.clone(),
                amount_in_cents: it.amount_in_cents,
                hash: it.hash.clone(),
                state: OpState::Settled,
                ignored_from_charts: it.ignored_from_charts,
                bank_account_id: it.bank_account_id,
                tags_ids: Vec::new(),
            };
            let ghost before = self.ops@;
            self.ops.push(op);
            self.next_id = self.next_id + 1;
            proof {
                assert(seq_view(self.ops@) =~= seq_view(before).push(op@));
                assert(op@ == admitted(items@[i as int]@, (orig_next + i) as u32));
            }
            i += 1;
        }
        proof {
            let fin = self@;
            assert forall|a: int| 0 <= a < fin.len() implies fin[a].id < self.next_id && fin[
                a
            ].tags_ids.no_duplicates() by {
                if a < orig.len() {
                    assert(fin[a] == orig[a]);
                    assert(orig[a].id < orig_next);
                    assert(orig[a].tags_ids.no_duplicates());
                } else {
                    let ka = a - orig.len();
                    assert(fin[orig.len() + ka] == admitted(items@[ka]@, (orig_next + ka) as u32));
                }
            }
            assert forall|a: int, b: int|
                0 <= a < b < fin.len() implies fin[a].id < fin[b].id by {
                if b >= orig.len() {
                    let kb = b - orig.len();
                    assert(fin[orig.len() + kb] == admitted(items@[kb]@, (orig_next + kb) as u32));
                    if a >= orig.len() {
                        let ka = a - orig.len();
                        assert(fin[orig.len() + ka] == admitted(
                            items@[ka]@,
                            (orig_next + ka) as u32,
                        ));
                    } else {
                        assert(fin[a] == orig[a]);
                        assert(orig[a].id < orig_next);
                    }
                } else {
                    assert(fin[a] == orig[a]);
                    assert(fin[b] == orig[b]);
                    assert(orig[a].id < orig[b].id);
                }
            }
        }
        Ok(n)
    }

    /// Look a record up by id; `NotFound` exactly when no record has it.
    pub fn get_by_id(&self, id: u32) -> (r: Result<Operation, EngineError>)
        requires
            self.wf(),
        ensures
            (r is Ok) == has_id(self@, id),
            r is Ok ==> exists|i: int|
                0 <= i < self@.len() && (#[trigger] self@[i].id) == id && r->Ok_0@ == self@[i],
            r is Err ==> r == Err::<Operation, EngineError>(EngineError::NotFound),
    {
        let n = self.ops.len();
        let mut i: usize = 0;
        while i < n
            invariant
                n == self@.len(),
                i <= n,
                forall|k: int| 0 <= k < i ==> (#[trigger] self@[k].id) != id,
            decreases n - i,
        {
            if self.ops[i].id == id {
                let found = self.ops[i].duplicate();
                proof {
                    assert(self@[i as int].id == id);
                    assert(found@ == self@[i as int]);
                }
                return Ok(found);
            }
            i += 1;
        }
        Err(EngineError::NotFound)
    }

    /// Resolve a record through an edit: replace its details and move it —
    /// unconditionally — back to the settled state, even if the hash
    /// collision that flagged it still exists.  Editing is acknowledgement.
    /// `NotFound` exactly when no record has the id.
    pub fn update_details(&mut self, id: u32, new_details: String) -> (r: Result<
        (),
        EngineError,
    >)
        requires
            old(self).wf(),
        ensures
            final(self).wf(),
            final(self).next_id() == old(self).next_id(),
            (r is Ok) == has_id(old(self)@, id),
            r is Err ==> r == Err::<(), EngineError>(EngineError::NotFound) && final(self)@ == old(
                self,
            )@,
            r is Ok ==> exists|i: int|
                0 <= i < old(self)@.len() && (#[trigger] old(self)@[i].id) == id && final(self)@
                    == old(self)@.update(i, resolved(old(self)@[i], new_details@)),
    {
        let n = self.ops.len();
        let mut i: usize = 0;
        while i < n
            invariant
                old(self).wf(),
                n == self@.len(),
                i <= n,
                self@ == old(self)@,
                self.next_id == old(self).next_id(),
                forall|k: int| 0 <= k < i ==> (#[trigger] self@[k].id) != id,
            decreases n - i,
        {
            if self.ops[i].id == id {
                let ghost orig = self@;
                let ghost before = self.ops@;
                let mut op = self.ops.remove(i);
                op.details = new_details;
                op.state = OpState::Settled;
                let ghost op_v = op@;
                self.ops.insert(i, op);
                proof {
                    assert(op_v == resolved(orig[i as int], new_details@));
                    assert(self.ops@ =~= before.update(i as int, op));
                    assert(self@ =~= orig.update(i as int, op_v));
                    let fin = self@;
                    assert(orig[i as int].id == id);
                    assert forall|a: int| 0 <= a < fin.len() implies fin[a].id == orig[a].id && (
                    #[trigger] fin[a].tags_ids).no_duplicates() by {
                        assert(orig[a].tags_ids.no_duplicates());
                    }
                    assert forall|a: int, b: int|
                        0 <= a < b < fin.len() implies fin[a].id < fin[b].id by {
                        assert(orig[a].id < orig[b].id);
                    }
                }
                return Ok(());
            }
            i += 1;
        }
        Err(EngineError::NotFound)
    }

    /// Remove a record and, with it, its tag associations.  Not idempotent:
    /// `NotFound` exactly when no record has the id.  Deletion does not
    /// re-run detection, so a now-solitary survivor of a hash group keeps
    /// its triage state until it is explicitly edited.
    pub fn delete(&mut self, id: u32) -> (r: Result<(), EngineError>)
        requires
            old(self).wf(),
        ensures
            final(self).wf(),
            final(self).next_id() == old(self).next_id(),
            (r is Ok) == has_id(old(self)@, id),
            r is Err ==> r == Err::<(), EngineError>(EngineError::NotFound) && final(self)@ == old(
                self,
            )@,
            r is Ok ==> exists|i: int|
                0 <= i < old(self)@.len() && (#[trigger] old(self)@[i].id) == id && final(self)@
                    == old(self)@.remove(i),
    {
        let n = self.ops.len();
        let mut i: usize = 0;
        while i < n
            invariant
                old(self).wf(),
                n == self@.len(),
                i <= n,
                self@ == old(self)@,
                self.next_id == old(self).next_id(),
                forall|k: int| 0 <= k < i ==> (#[trigger] self@[k].id) != id,
            decreases n - i,
        {
            if self.ops[i].id == id {
                let ghost orig = self@;
                let ghost before = self.ops@;
                let _removed = self.ops.remove(i);
                proof {
                    assert(self@ =~= orig.remove(i as int));
                    let fin = self@;
                    assert(orig[i as int].id == id);
                    assert forall|a: int| 0 <= a < fin.len() implies fin[a].id < self.next_id && (
                    #[trigger] fin[a].tags_ids).no_duplicates() by {
                        if a < i {
                            assert(fin[a] == orig[a]);
                        } else {
                            assert(fin[a] == orig[a + 1]);
                        }
                    }
                    assert forall|a: int, b: int|
                        0 <= a < b < fin.len() implies fin[a].id < fin[b].id by {
                        if a < i {
                            assert(fin[a] == orig[a]);
                        } else {
                            assert(fin[a] == orig[a + 1]);
                        }
                        if b < i {
                            assert(fin[b] == orig[b]);
                        } else {
                            assert(fin[b] == orig[b + 1]);
                        }
                    }
                }
                return Ok(());
            }
            i += 1;
        }
        Err(EngineError::NotFound)
    }

    /// Every record, newest first: date descending, ties broken by
    /// insertion order.  Deleted records are gone from the store and so
    /// excluded.
    pub fn find_all(&self) -> (r: Vec<Operation>)
        requires
            self.wf(),
        ensures
            r@.len() == self@.len(),
            seq_view(r@).to_multiset() == self@.to_multiset(),
            sorted(ResultOrder::NewestFirst, seq_view(r@)),
    {
        let n = self.ops.len();
        let mut all: Vec<Operation> = Vec::new();
        let mut i: usize = 0;
        while i < n
            invariant
                n == self@.len(),
                i <= n,
                all@.len() == i,
                forall|k: int| 0 <= k < i ==> seq_view(all@)[k] == self@[k],
            decreases n - i,
        {
            let d = self.ops[i].duplicate();
            all.push(d);
            i += 1;
        }
        proof {
            assert(seq_view(all@) =~= self@);
        }
        sort_ops(all, ResultOrder::NewestFirst)
    }

    /// The records awaiting triage, details descending (ties broken by
    /// insertion order): a deliberate secondary ordering that groups
    /// similar-looking duplicates.
    pub fn find_triage(&self) -> (r: Vec<Operation>)
        requires
            self.wf(),
        ensures
            seq_view(r@).to_multiset() == triage_subset(self@).to_multiset(),
            forall|k: int|
                0 <= k < r@.len() ==> (#[trigger] seq_view(r@)[k].state) == OpState::PendingTriage,
            sorted(ResultOrder::DetailsDesc, seq_view(r@)),
    {
        let n = self.ops.len();
        let mut picked: Vec<Operation> = Vec::new();
        let mut i: usize = 0;
        proof {
            reveal(Seq::filter);
            assert(self@.subrange(0, 0) =~= Seq::<OpView>::empty());
            assert(triage_subset(self@.subrange(0, 0)) =~= Seq::<OpView>::empty());
        }
        while i < n
            invariant
                n == self@.len(),
                i <= n,
                seq_view(picked@) == triage_subset(self@.subrange(0, i as int)),
                forall|k: int|
                    0 <= k < picked@.len() ==> (#[trigger] seq_view(picked@)[k].state)
                        == OpState::PendingTriage,
            decreases n - i,
        {
            let ghost pre = self@.subrange(0, i as int);
            let ghost pre1 = self@.subrange(0, i + 1);
            let picked_here = self.ops[i].state == OpState::PendingTriage;
            if picked_here {
                let d = self.ops[i].duplicate();
                let ghost picked_before = picked@;
                picked.push(d);
                proof {
                    assert(seq_view(picked@) =~= seq_view(picked_before).push(self@[i as int]));
                }
            }
            proof {
                reveal(Seq::filter);
                assert(pre1.drop_last() =~= pre);
                assert(pre1.last() == self@[i as int]);
                if picked_here {
                    assert(triage_subset(pre1) == triage_subset(pre).push(self@[i as int]));
                } else {
                    assert(triage_subset(pre1) == triage_subset(pre));
                }
            }
            i += 1;
        }
        proof {
            assert(self@.subrange(0, n as int) =~= self@);
        }
        let ghost picked_seq = seq_view(picked@);
        let r = sort_ops(picked, ResultOrder::DetailsDesc);
        proof {
            seq_view(r@).to_multiset_ensures();
            picked_seq.to_multiset_ensures();
            assert forall|k: int|
                0 <= k < r@.len() implies (#[trigger] seq_view(r@)[k].state)
                == OpState::PendingTriage by {
                let x = seq_view(r@)[k];
                assert(seq_view(r@).contains(x));
                assert(picked_seq.to_multiset().count(x) > 0);
                assert(picked_seq.contains(x));
                let j = choose|j: int| 0 <= j < picked_seq.len() && picked_seq[j] == x;
                assert(picked_seq[j].state == OpState::PendingTriage);
            }
        }
        r
    }

    /// Attach tags to a record: union the given ids into its tag list,
    /// keeping it duplicate-free.  Referential integrity of the ids against
    /// the tag entity set is the caller's concern.  `NotFound` exactly when
    /// no record has the id.
    pub fn attach_tags(&mut self, id: u32, new_tags: &Vec<u32>) -> (r: Result<(), EngineError>)
        requires
            old(self).wf(),
        ensures
            final(self).wf(),
            final(self).next_id() == old(self).next_id(),
            (r is Ok) == has_id(old(self)@, id),
            r is Err ==> r == Err::<(), EngineError>(EngineError::NotFound) && final(self)@ == old(
                self,
            )@,
            r is Ok ==> exists|i: int|
                0 <= i < old(self)@.len() && (#[trigger] old(self)@[i].id) == id && final(self)@
                    == old(self)@.update(i, tagged(old(self)@[i], new_tags@)),
    {
        let n = self.ops.len();
        let mut i: usize = 0;
        while i < n
            invariant
                old(self).wf(),
                n == self@.len(),
                i <= n,
                self@ == old(self)@,
                self.next_id == old(self).next_id(),
                forall|k: int| 0 <= k < i ==> (#[trigger] self@[k].id) != id,
            decreases n - i,
        {
            if self.ops[i].id == id {
                let ghost orig = self@;
                let mut op = self.ops.remove(i);
                let ghost base = op.tags_ids@;
                let ghost op0 = op@;
                proof {
                    assert(new_tags@.skip(0) =~= new_tags@);
                }
                let mut j: usize = 0;
                while j < new_tags.len()
                    invariant
                        j <= new_tags@.len(),
                        merged_tags(op.tags_ids@, new_tags@.skip(j as int)) == merged_tags(
                            base,
                            new_tags@,
                        ),
                        op@ == (OpView { tags_ids: op.tags_ids@, ..op0 }),
                    decreases new_tags@.len() - j,
                {
                    let x = new_tags[j];
                    proof {
                        assert(new_tags@.skip(j as int)[0] == new_tags@[j as int]);
                        assert(new_tags@.skip(j as int).skip(1) =~= new_tags@.skip(j + 1));
                    }
                    if !tags_contain(&op.tags_ids, x) {
                        op.tags_ids.push(x);
                    }
                    j += 1;
                }
                proof {
                    assert(new_tags@.skip(new_tags@.len() as int) =~= Seq::<u32>::empty());
                    assert(op.tags_ids@ == merged_tags(base, new_tags@));
                }
                let ghost op_v = op@;
                self.ops.insert(i, op);
                proof {
                    assert(op_v == tagged(orig[i as int], new_tags@));
                    assert(self@ =~= orig.update(i as int, op_v));
                    let fin = self@;
                    assert(orig[i as int].id == id);
                    lemma_merged_tags(orig[i as int].tags_ids, new_tags@);
                    assert forall|a: int| 0 <= a < fin.len() implies fin[a].id == orig[a].id && (
                    #[trigger] fin[a].tags_ids).no_duplicates() by {
                        if a != i {
                            assert(orig[a].tags_ids.no_duplicates());
                        }
                    }
                    assert forall|a: int, b: int|
                        0 <= a < b < fin.len() implies fin[a].id < fin[b].id by {
                        assert(orig[a].id < orig[b].id);
                    }
                }
                return Ok(());
            }
            i += 1;
        }
        Err(EngineError::NotFound)
    }

    /// The collision-detection pass: every record whose hash is shared by
    /// another record is moved to `PendingTriage`; singleton hashes are left
    /// untouched — resolution is a one-way human action.  Returns how many
    /// records were moved, for observability.  All-or-nothing: the record
    /// set is replaced in one assignment.
    pub fn refresh_statuses_with_hashes(&mut self) -> (count: usize)
        requires
            old(self).wf(),
        ensures
            final(self).wf(),
            final(self).next_id() == old(self).next_id(),
            final(self)@ == refreshed(old(self)@),
            count == transition_count(old(self)@),
    {
        let n = self.ops.len();
        let mut flags: Vec<bool> = Vec::new();
        let mut i: usize = 0;
        while i < n
            invariant
                n == self@.len(),
                self@ == old(self)@,
                self.next_id == old(self).next_id(),
                i <= n,
                flags@.len() == i,
                forall|k: int| 0 <= k < i ==> flags@[k] == collides(self@, k),
            decreases n - i,
        {
            let mut c = false;
            let mut j: usize = 0;
            while j < n
                invariant
                    n == self@.len(),
                    self@ == old(self)@,
                    i < n,
                    j <= n,
                    c == exists|l: int|
                        0 <= l < j && l != i && (#[trigger] self@[l].hash) == self@[i as int].hash,
                decreases n - j,
            {
                if j != i && text_eq(self.ops[j].hash.as_str(), self.ops[i].hash.as_str()) {
                    proof {
                        assert(self@[j as int].hash == self@[i as int].hash);
                    }
                    c = true;
                }
                j += 1;
            }
            flags.push(c);
            i += 1;
        }
        let ghost orig = self@;
        let mut out: Vec<Operation> = Vec::new();
        let mut count: usize = 0;
        i = 0;
        while i < n
            invariant
                n == self@.len(),
                self@ == old(self)@,
                self.next_id == old(self).next_id(),
                flags@.len() == n,
                forall|k: int| 0 <= k < n ==> flags@[k] == collides(self@, k),
                i <= n,
                out@.len() == i,
                forall|k: int| 0 <= k < i ==> seq_view(out@)[k] == refreshed(self@)[k],
                count == transition_count_upto(self@, i as int),
                count <= i,
            decreases n - i,
        {
            let ghost out_before = out@;
            if flags[i] {
                if !(self.ops[i].state == OpState::PendingTriage) {
                    count = count + 1;
                }
                let moved = self.ops[i].duplicate_with_state(OpState::PendingTriage);
                out.push(moved);
            } else {
                let kept = self.ops[i].duplicate();
                out.push(kept);
            }
            proof {
                assert(seq_view(out@) =~= seq_view(out_before).push(out@[out@.len() - 1]@));
            }
            i += 1;
        }
        self.ops = out;
        proof {
            assert(self@ =~= refreshed(orig));
            let fin = self@;
            assert forall|a: int| 0 <= a < fin.len() implies fin[a].id == orig[a].id && (
            #[trigger] fin[a].tags_ids).no_duplicates() by {
                assert(orig[a].tags_ids.no_duplicates());
            }
            assert forall|a: int, b: int|
                0 <= a < b < fin.len() implies fin[a].id < fin[b].id by {
                assert(orig[a].id < orig[b].id);
            }
        }
        count
    }
}

} // verus!
