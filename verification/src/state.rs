use vstd::prelude::*;

verus! {

/// Review state of an operation: a binary workflow.
///
/// A freshly inserted operation is `Ok`.  The collision detector is the only
/// component that moves an operation to `PendingTriage`; a details edit
/// (resolution) is the only way back to `Ok`.
#[derive(Clone, Copy, Debug, PartialEq, Eq, Structural)]
pub enum OpState {
    /// Settled: no pending review; stored as the text discriminant "Ok".
    Settled,
    /// Flagged as a probable duplicate; awaiting human review.
    PendingTriage,
}

/// The versioned textual encoding of a state, as persisted by the storage
/// layer (stored verbatim as a text discriminant).
pub open spec fn state_text(st: OpState) -> Seq<char> {
    match st {
        OpState::Settled => "Ok"@,
        OpState::PendingTriage => "PendingTriage"@,
    }
}

/// The decoding of a text discriminant back to a state, `None` for any text
/// that is not an encoding.
pub open spec fn parse_state(s: Seq<char>) -> Option<OpState> {
    if s == state_text(OpState::Settled) {
        Some(OpState::Settled)
    } else if s == state_text(OpState::PendingTriage) {
        Some(OpState::PendingTriage)
    } else {
        None
    }
}

impl OpState {
    /// Encode this state as its stored text discriminant.
    pub fn encode(&self) -> (r: &'static str)
        ensures
            r@ == state_text(*self),
    {
        match self {
            OpState::Settled => "Ok",
            OpState::PendingTriage => "PendingTriage",
        }
    }

    /// Decode a stored text discriminant; decides [`parse_state`].
    pub fn decode(s: &str) -> (r: Option<OpState>)
        ensures
            r == parse_state(s@),
    {
        if crate::text::text_eq(s, "Ok") {
            Some(OpState::Settled)
        } else if crate::text::text_eq(s, "PendingTriage") {
            Some(OpState::PendingTriage)
        } else {
            None
        }
    }
}

/// The two encodings are distinct texts.
pub proof fn lemma_state_texts_distinct()
    ensures
        state_text(OpState::Settled) != state_text(OpState::PendingTriage),
{
    reveal_strlit("Ok");
    reveal_strlit("PendingTriage");
    assert(state_text(OpState::Settled).len() == 2);
    assert(state_text(OpState::PendingTriage).len() == 13);
}

/// Round trip: decoding the encoding of any state gives that state back.
pub proof fn lemma_state_codec_roundtrip(st: OpState)
    ensures
        parse_state(state_text(st)) == Some(st),
{
    lemma_state_texts_distinct();
}

} // verus!
