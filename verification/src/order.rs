use vstd::prelude::*;
use vstd::multiset::Multiset;

use crate::operation::{seq_view, OpView, Operation};
use crate::text::{
    lemma_text_lt_transitive, lemma_text_lt_trichotomy, text_eq, text_lt, text_lt_exec,
};

verus! {

/// `(t1, id1)` comes no later than `(t2, id2)` when records are listed with
/// the text descending; equal texts fall back to ascending id, which is
/// insertion order for store-assigned ids.
pub open spec fn pair_le(t1: Seq<char>, id1: u32, t2: Seq<char>, id2: u32) -> bool {
    text_lt(t2, t1) || (t1 == t2 && id1 <= id2)
}

/// Any two text/id pairs are ordered at least one way round.
pub proof fn lemma_pair_le_total(t1: Seq<char>, id1: u32, t2: Seq<char>, id2: u32)
    ensures
        pair_le(t1, id1, t2, id2) || pair_le(t2, id2, t1, id1),
{
    lemma_text_lt_trichotomy(t1, t2);
}

/// The pair order is transitive.
pub proof fn lemma_pair_le_trans(
    t1: Seq<char>,
    id1: u32,
    t2: Seq<char>,
    id2: u32,
    t3: Seq<char>,
    id3: u32,
)
    requires
        pair_le(t1, id1, t2, id2),
        pair_le(t2, id2, t3, id3),
    ensures
        pair_le(t1, id1, t3, id3),
{
    if text_lt(t2, t1) && text_lt(t3, t2) {
        lemma_text_lt_transitive(t3, t2, t1);
    }
}

/// The two result orderings the store exposes.
#[derive(Clone, Copy)]
pub enum ResultOrder {
    /// Date descending (newest first), ties by insertion order.
    NewestFirst,
    /// Details descending, ties by insertion order.
    DetailsDesc,
}

/// The order on records that a listing sorted by `key` obeys.
pub open spec fn key_le(key: ResultOrder, a: OpView, b: OpView) -> bool {
    match key {
        ResultOrder::NewestFirst => pair_le(a.operation_date, a.id, b.operation_date, b.id),
        ResultOrder::DetailsDesc => pair_le(a.details, a.id, b.details, b.id),
    }
}

/// `s` is sorted according to `key`.
pub open spec fn sorted(key: ResultOrder, s: Seq<OpView>) -> bool {
    forall|i: int, j: int| 0 <= i < j < s.len() ==> key_le(key, s[i], s[j])
}

proof fn lemma_key_le_total(key: ResultOrder, a: OpView, b: OpView)
    ensures
        key_le(key, a, b) || key_le(key, b, a),
{
    match key {
        ResultOrder::NewestFirst => {
            lemma_pair_le_total(a.operation_date, a.id, b.operation_date, b.id)
        },
        ResultOrder::DetailsDesc => lemma_pair_le_total(a.details, a.id, b.details, b.id),
    }
}

proof fn lemma_key_le_trans(key: ResultOrder, a: OpView, b: OpView, c: OpView)
    requires
        key_le(key, a, b),
        key_le(key, b, c),
    ensures
        key_le(key, a, c),
{
    match key {
        ResultOrder::NewestFirst => {
            lemma_pair_le_trans(
                a.operation_date,
                a.id,
                b.operation_date,
                b.id,
                c.operation_date,
                c.id,
            )
        },
        ResultOrder::DetailsDesc => {
            lemma_pair_le_trans(a.details, a.id, b.details, b.id, c.details, c.id)
        },
    }
}

/// Decides [`pair_le`] on concrete text/id pairs.
fn field_le(t1: &String, id1: u32, t2: &String, id2: u32) -> (r: bool)
    ensures
        r == pair_le(t1@, id1, t2@, id2),
{
    if text_lt_exec(t2.as_str(), t1.as_str()) {
        true
    } else if text_eq(t1.as_str(), t2.as_str()) {
        id1 <= id2
    } else {
        false
    }
}

/// Decides [`key_le`] on concrete records.
fn op_le(key: ResultOrder, a: &Operation, b: &Operation) -> (r: bool)
    ensures
        r == key_le(key, a@, b@),
{
    match key {
        ResultOrder::NewestFirst => {
            field_le(&a.operation_date, a.id, &b.operation_date, b.id)
        },
        ResultOrder::DetailsDesc => field_le(&a.details, a.id, &b.details, b.id),
    }
}

/// Inserting an element anywhere adds exactly it to the multiset of views.
proof fn lemma_seq_view_insert_multiset(s: Seq<Operation>, pos: int, x: Operation)
    requires
        0 <= pos <= s.len(),
    ensures
        seq_view(s.insert(pos, x)).to_multiset() =~= seq_view(s).to_multiset().insert(x@),
{
    broadcast use vstd::seq_lib::group_to_multiset_ensures;

    let t = s.insert(pos, x);
    assert(seq_view(t).remove(pos) =~= seq_view(s));
    assert(seq_view(t)[pos] == x@);
    assert(seq_view(t).remove(pos).to_multiset() =~= seq_view(t).to_multiset().remove(x@));
    assert(seq_view(t).to_multiset().contains(x@));
    assert(seq_view(t).to_multiset().remove(x@).insert(x@) =~= seq_view(t).to_multiset());
}

/// Place `x` into an already sorted vector, keeping it sorted.
fn insert_sorted(out: &mut Vec<Operation>, x: Operation, key: ResultOrder)
    requires
        sorted(key, seq_view(old(out)@)),
    ensures
        sorted(key, seq_view(final(out)@)),
        seq_view(final(out)@).to_multiset() == seq_view(old(out)@).to_multiset().insert(x@),
        final(out)@.len() == old(out)@.len() + 1,
{
    let n = out.len();
    let mut pos: usize = 0;
    while pos < n && op_le(key, &out[pos], &x)
        invariant
            n == out@.len(),
            out@ == old(out)@,
            pos <= n,
            forall|m: int| 0 <= m < pos ==> key_le(key, seq_view(out@)[m], x@),
        decreases n - pos,
    {
        pos += 1;
    }
    proof {
        if pos < n {
            lemma_key_le_total(key, seq_view(out@)[pos as int], x@);
        }
    }
    let ghost before = out@;
    out.insert(pos, x);
    proof {
        let s = seq_view(before);
        let t = seq_view(out@);
        assert(out@ == before.insert(pos as int, x));
        assert(t =~= s.insert(pos as int, x@));
        lemma_seq_view_insert_multiset(before, pos as int, x);
        assert forall|i: int, j: int| 0 <= i < j < t.len() implies key_le(key, t[i], t[j]) by {
            if j < pos {
                assert(t[i] == s[i] && t[j] == s[j]);
            } else if j == pos {
                assert(t[j] == x@);
                assert(key_le(key, s[i], x@));
            } else {
                assert(t[j] == s[j - 1]);
                if i < pos {
                    assert(t[i] == s[i]);
                    if i < j - 1 {
                        assert(key_le(key, s[i], s[j - 1]));
                    }
                } else if i == pos {
                    assert(t[i] == x@);
                    assert(key_le(key, x@, s[pos as int]));
                    if pos < j - 1 {
                        assert(key_le(key, s[pos as int], s[j - 1]));
                        lemma_key_le_trans(key, x@, s[pos as int], s[j - 1]);
                    }
                } else {
                    assert(t[i] == s[i - 1]);
                    assert(key_le(key, s[i - 1], s[j - 1]));
                }
            }
        }
    }
}

/// Sort the records by `key`; the result holds exactly the given records.
pub(crate) fn sort_ops(v: Vec<Operation>, key: ResultOrder) -> (r: Vec<Operation>)
    ensures
        sorted(key, seq_view(r@)),
        seq_view(r@).to_multiset() == seq_view(v@).to_multiset(),
        r@.len() == v@.len(),
{
    broadcast use vstd::seq_lib::group_to_multiset_ensures;

    let ghost orig = seq_view(v@);
    let mut rest = v;
    let mut out: Vec<Operation> = Vec::new();
    proof {
        assert(seq_view(out@) =~= Seq::<OpView>::empty());
        assert(seq_view(out@).to_multiset() =~= Multiset::<OpView>::empty());
        assert(seq_view(out@).to_multiset().add(seq_view(rest@).to_multiset()) =~= seq_view(
            rest@,
        ).to_multiset());
    }
    while rest.len() > 0
        invariant
            sorted(key, seq_view(out@)),
            seq_view(out@).to_multiset().add(seq_view(rest@).to_multiset()) =~= orig.to_multiset(),
            out@.len() + rest@.len() == orig.len(),
        decreases rest@.len(),
    {
        let ghost rest_before = rest@;
        let ghost out_before = out@;
        let x = rest.pop().unwrap();
        proof {
            seq_view(rest_before).to_multiset_ensures();
            assert(rest@ == rest_before.drop_last());
            assert(rest_before.drop_last() =~= rest_before.remove(rest_before.len() - 1));
            assert(seq_view(rest_before.remove(rest_before.len() - 1)) =~= seq_view(
                rest_before,
            ).remove(rest_before.len() - 1));
            assert(seq_view(rest_before)[rest_before.len() - 1] == x@);
            assert(seq_view(rest_before).remove(rest_before.len() - 1).to_multiset() =~= seq_view(
                rest_before,
            ).to_multiset().remove(x@));
            assert(seq_view(rest_before).to_multiset().contains(x@));
        }
        insert_sorted(&mut out, x, key);
        proof {
            assert(seq_view(out@).to_multiset() =~= seq_view(out_before).to_multiset().insert(x@));
            assert(seq_view(out@).to_multiset().add(seq_view(rest@).to_multiset()) =~= seq_view(
                out_before,
            ).to_multiset().add(seq_view(rest_before).to_multiset()));
        }
    }
    proof {
        assert(seq_view(rest@) =~= Seq::<OpView>::empty());
        assert(seq_view(rest@).to_multiset() =~= Multiset::<OpView>::empty());
        assert(seq_view(out@).to_multiset() =~= orig.to_multiset());
    }
    out
}

} // verus!
