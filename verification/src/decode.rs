//! The decisions of decoding an event stream, one event at a time.
//!
//! The caller owns the bytes and the decoder; after each attempt it reports
//! what the attempt gave, and these functions say how many bytes remain and
//! what to do next. A failed attempt near the end of the stream is taken for
//! a stream that was cut off while it was being recorded.

use vstd::prelude::*;

verus! {

/// A failed attempt with fewer bytes than this left ends the stream quietly.
pub const TRUNCATION_WINDOW: usize = 128;

/// What one attempt to decode an event from the front of the remaining bytes gave.
#[derive(Clone, Copy, Debug, PartialEq, Eq, Structural)]
pub enum DecodeOutcome {
    /// An event was decoded from the first `consumed` bytes.
    Decoded { consumed: usize },
    Failed,
}

/// What the caller does next.
#[derive(Clone, Copy, Debug, PartialEq, Eq, Structural)]
pub enum DecodeAction {
    /// Decode the next event from the remaining bytes.
    Decode,
    /// Stop: every event of the stream has been decoded.
    Finish,
    /// Stop with the decoder's error.
    Fail,
}

/// Whether the action after a failed attempt with `remaining` bytes left is
/// to stop quietly (the stream was cut off) rather than to fail.
pub open spec fn truncated_tail(remaining: usize) -> bool {
    remaining < TRUNCATION_WINDOW
}

/// The first action on a stream of `remaining` bytes.
pub open spec fn start_action(remaining: usize) -> DecodeAction {
    if remaining == 0 {
        DecodeAction::Finish
    } else {
        DecodeAction::Decode
    }
}

/// The bytes left and the next action after an attempt with `remaining` bytes left.
pub open spec fn decode_transition(remaining: usize, outcome: DecodeOutcome) -> (usize, DecodeAction) {
    match outcome {
        DecodeOutcome::Decoded { consumed } => (
            (remaining - consumed) as usize,
            start_action((remaining - consumed) as usize),
        ),
        DecodeOutcome::Failed => (
            remaining,
            if truncated_tail(remaining) {
                DecodeAction::Finish
            } else {
                DecodeAction::Fail
            },
        ),
    }
}

/// The first action on a stream of `remaining` bytes: an empty stream has no events.
pub fn decode_start(remaining: usize) -> (action: DecodeAction)
    ensures
        action == (if remaining == 0 {
            DecodeAction::Finish
        } else {
            DecodeAction::Decode
        }),
        action == start_action(remaining),
{
    if remaining == 0 {
        DecodeAction::Finish
    } else {
        DecodeAction::Decode
    }
}

/// The bytes left and the next action after an attempt made with `remaining`
/// bytes left: a decoded event consumes its bytes and decoding goes on until
/// none are left; a failure ends the stream quietly within the last
/// `TRUNCATION_WINDOW` bytes and is an error before them.
pub fn decode_step(remaining: usize, outcome: DecodeOutcome) -> (next: (usize, DecodeAction))
    requires
        outcome matches DecodeOutcome::Decoded { consumed } ==> consumed <= remaining,
    ensures
        (match outcome {
            DecodeOutcome::Decoded { consumed } => {
                &&& next.0 == remaining - consumed
                &&& next.1 == (if next.0 == 0 {
                    DecodeAction::Finish
                } else {
                    DecodeAction::Decode
                })
            },
            DecodeOutcome::Failed => {
                &&& next.0 == remaining
                &&& next.1 == (if truncated_tail(remaining) {
                    DecodeAction::Finish
                } else {
                    DecodeAction::Fail
                })
            },
        }),
        next == decode_transition(remaining, outcome),
{
    match outcome {
        DecodeOutcome::Decoded { consumed } => {
            let left = remaining - consumed;
            (left, decode_start(left))
        },
        DecodeOutcome::Failed => {
            if remaining < TRUNCATION_WINDOW {
                // Near the end: most likely the recording stopped mid-event.
                (remaining, DecodeAction::Finish)
            } else {
                (remaining, DecodeAction::Fail)
            }
        },
    }
}


/// The sum of the sizes.
pub open spec fn total(sizes: Seq<usize>) -> int
    decreases sizes.len(),
{
    if sizes.len() == 0 {
        0
    } else {
        total(sizes.drop_last()) + sizes.last()
    }
}

/// The bytes left and the action after decoding, from a stream of `len`
/// bytes, events of the given sizes one after another.
pub open spec fn decode_run(len: usize, sizes: Seq<usize>) -> (usize, DecodeAction)
    decreases sizes.len(),
{
    if sizes.len() == 0 {
        (len, start_action(len))
    } else {
        decode_transition(
            decode_run(len, sizes.drop_last()).0,
            DecodeOutcome::Decoded { consumed: sizes.last() },
        )
    }
}

proof fn lemma_total_prefix(sizes: Seq<usize>, k: int)
    requires
        0 <= k <= sizes.len(),
        forall|i: int| 0 <= i < sizes.len() ==> sizes[i] > 0,
    ensures
        total(sizes.take(k)) <= total(sizes),
        k < sizes.len() ==> total(sizes.take(k)) < total(sizes),
        total(sizes.take(k)) >= 0,
    decreases sizes.len(),
{
    if k == sizes.len() {
        assert(sizes.take(k) =~= sizes);
        if sizes.len() > 0 {
            lemma_total_prefix(sizes.drop_last(), 0);
        }
    } else {
        let d = sizes.drop_last();
        lemma_total_prefix(d, k);
        assert(sizes.take(k) =~= d.take(k));
        assert(sizes.last() > 0);
    }
}

proof fn lemma_decode_run_prefix(len: usize, sizes: Seq<usize>, k: int)
    requires
        0 <= k <= sizes.len(),
        forall|i: int| 0 <= i < sizes.len() ==> sizes[i] > 0,
        total(sizes) == len,
    ensures
        decode_run(len, sizes.take(k)) == (
            (len - total(sizes.take(k))) as usize,
            start_action((len - total(sizes.take(k))) as usize),
        ),
    decreases k,
{
    lemma_total_prefix(sizes, k);
    if k == 0 {
        assert(sizes.take(0) =~= Seq::<usize>::empty());
    } else {
        lemma_decode_run_prefix(len, sizes, k - 1);
        lemma_total_prefix(sizes, k - 1);
        assert(sizes.take(k).drop_last() =~= sizes.take(k - 1));
        assert(sizes.take(k).last() == sizes[k - 1]);
    }
}

/// A stream made of whole events is decoded to its end, in order: while
/// events remain the action is to decode the next one, after each decoded
/// event the bytes left shrink by its size, and after the last one no byte is
/// left and the action is to finish.
pub proof fn law_whole_events_decode_to_the_end(len: usize, sizes: Seq<usize>)
    requires
        forall|i: int| 0 <= i < sizes.len() ==> sizes[i] > 0,
        total(sizes) == len,
    ensures
        decode_run(len, sizes) == (0usize, DecodeAction::Finish),
        forall|k: int|
            0 <= k < sizes.len() ==> decode_run(len, #[trigger] sizes.take(k)) == (
                (len - total(sizes.take(k))) as usize,
                DecodeAction::Decode,
            ),
{
    lemma_decode_run_prefix(len, sizes, sizes.len() as int);
    assert(sizes.take(sizes.len() as int) =~= sizes);
    assert forall|k: int| 0 <= k < sizes.len() implies decode_run(len, #[trigger] sizes.take(k)) == (
        (len - total(sizes.take(k))) as usize,
        DecodeAction::Decode,
    ) by {
        lemma_decode_run_prefix(len, sizes, k);
        lemma_total_prefix(sizes, k);
    }
}

} // verus!
