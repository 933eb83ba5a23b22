use embedded_perfmon_analyzer::{decode_start, decode_step, DecodeAction, DecodeOutcome};

#[test]
fn empty_stream_has_nothing_to_decode() {
    assert_eq!(decode_start(0), DecodeAction::Finish);
    assert_eq!(decode_start(1), DecodeAction::Decode);
}

#[test]
fn decoded_events_consume_their_bytes() {
    assert_eq!(
        decode_step(300, DecodeOutcome::Decoded { consumed: 12 }),
        (288, DecodeAction::Decode)
    );
    assert_eq!(decode_step(12, DecodeOutcome::Decoded { consumed: 12 }), (0, DecodeAction::Finish));
}

#[test]
fn failure_near_the_end_is_a_cut_off_stream() {
    assert_eq!(decode_step(127, DecodeOutcome::Failed), (127, DecodeAction::Finish));
    assert_eq!(decode_step(1, DecodeOutcome::Failed), (1, DecodeAction::Finish));
}

#[test]
fn failure_before_the_end_is_an_error() {
    assert_eq!(decode_step(128, DecodeOutcome::Failed), (128, DecodeAction::Fail));
    assert_eq!(decode_step(5000, DecodeOutcome::Failed), (5000, DecodeAction::Fail));
}

#[test]
fn whole_events_are_decoded_to_the_end() {
    let sizes = [5usize, 1, 30];
    let mut remaining: usize = sizes.iter().sum();
    let mut action = decode_start(remaining);
    let mut decoded = 0;
    while action == DecodeAction::Decode {
        let (left, next) = decode_step(remaining, DecodeOutcome::Decoded { consumed: sizes[decoded] });
        decoded += 1;
        remaining = left;
        action = next;
    }
    assert_eq!((decoded, remaining, action), (3, 0, DecodeAction::Finish));
}
