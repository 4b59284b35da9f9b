use vstd::prelude::*;

use crate::operation::{with_state, OpView};
use crate::state::OpState;

verus! {

/// Record `i` shares its content hash with another record of `s`.
pub open spec fn collides(s: Seq<OpView>, i: int) -> bool {
    exists|j: int| 0 <= j < s.len() && j != i && #[trigger] s[j].hash == s[i].hash
}

/// Record `i` would be moved by a detection pass: it collides and is not
/// already in triage.
pub open spec fn needs_transition(s: Seq<OpView>, i: int) -> bool {
    collides(s, i) && s[i].state != OpState::PendingTriage
}

/// The record set after a detection pass: every colliding record is in
/// triage; singleton hashes are left untouched.
pub open spec fn refreshed(s: Seq<OpView>) -> Seq<OpView> {
    Seq::new(
        s.len(),
        |i: int|
            if collides(s, i) {
                with_state(s[i], OpState::PendingTriage)
            } else {
                s[i]
            },
    )
}

/// How many of the first `n` records a detection pass moves into triage.
pub open spec fn transition_count_upto(s: Seq<OpView>, n: int) -> nat
    decreases n,
{
    if n <= 0 {
        0
    } else {
        transition_count_upto(s, n - 1) + (if needs_transition(s, n - 1) {
            1nat
        } else {
            0nat
        })
    }
}

/// How many records a detection pass moves into triage.
pub open spec fn transition_count(s: Seq<OpView>) -> nat {
    transition_count_upto(s, s.len() as int)
}

/// A detection pass changes which records collide in no way: hashes and
/// membership are untouched.
proof fn lemma_refresh_preserves_collisions(s: Seq<OpView>, i: int)
    requires
        0 <= i < s.len(),
    ensures
        collides(refreshed(s), i) == collides(s, i),
{
    let r = refreshed(s);
    if collides(s, i) {
        let j = choose|j: int| 0 <= j < s.len() && j != i && #[trigger] s[j].hash == s[i].hash;
        assert(r[j].hash == r[i].hash);
    }
    if collides(r, i) {
        let j = choose|j: int| 0 <= j < r.len() && j != i && #[trigger] r[j].hash == r[i].hash;
        assert(s[j].hash == s[i].hash);
    }
}

/// If no record up to `n` needs a transition, the pass counts zero of them.
proof fn lemma_transition_count_zero(s: Seq<OpView>, n: int)
    requires
        forall|i: int| 0 <= i < n ==> !needs_transition(s, i),
    ensures
        transition_count_upto(s, n) == 0,
    decreases n,
{
    if n > 0 {
        lemma_transition_count_zero(s, n - 1);
    }
}

/// Hash invariant: after a detection pass, a hash shared by two or more
/// records forces every one of them into `PendingTriage`.
pub proof fn lemma_hash_invariant(s: Seq<OpView>)
    ensures
        forall|i: int, j: int|
            #![trigger refreshed(s)[i], refreshed(s)[j]]
            0 <= i < refreshed(s).len() && 0 <= j < refreshed(s).len() && i != j && refreshed(
                s,
            )[i].hash == refreshed(s)[j].hash ==> refreshed(s)[i].state
                == OpState::PendingTriage,
{
    let r = refreshed(s);
    assert forall|i: int, j: int|
        #![trigger r[i], r[j]]
        0 <= i < r.len() && 0 <= j < r.len() && i != j && r[i].hash == r[j].hash implies r[i].state
        == OpState::PendingTriage by {
        assert(r[i].hash == s[i].hash);
        assert(r[j].hash == s[j].hash);
        assert(s[j].hash == s[i].hash);
        assert(collides(s, i));
    }
}

/// Idempotence of detection: a second pass with no intervening change moves
/// zero records and leaves the record set exactly as it was.
pub proof fn lemma_detection_idempotent(s: Seq<OpView>)
    ensures
        transition_count(refreshed(s)) == 0,
        refreshed(refreshed(s)) == refreshed(s),
{
    let r = refreshed(s);
    assert forall|i: int| 0 <= i < r.len() implies !needs_transition(r, i) by {
        lemma_refresh_preserves_collisions(s, i);
        if collides(s, i) {
            assert(r[i].state == OpState::PendingTriage);
        }
    }
    lemma_transition_count_zero(r, r.len() as int);
    assert forall|i: int| 0 <= i < r.len() implies refreshed(r)[i] == r[i] by {
        lemma_refresh_preserves_collisions(s, i);
        if collides(r, i) {
            assert(r[i] == with_state(s[i], OpState::PendingTriage));
            assert(with_state(r[i], OpState::PendingTriage) == r[i]);
        }
    }
    assert(refreshed(r) =~= r);
}

} // verus!
