use backtor::bridge::{run_leg, Bridge, BridgeLeg, LegAction, ReadEvent};

#[test]
fn chunks_are_forwarded_in_order_until_eof() {
    let events = vec![
        ReadEvent::Data(vec![1, 2, 3]),
        ReadEvent::Data(vec![4 + 10]),
        ReadEvent::Eof,
        ReadEvent::Data(vec![9, 9]),
    ];
    let out = run_leg(false, &events);
    assert_eq!(out, vec![1, 2, 3, 14]);
}

#[test]
fn failure_ends_the_leg_like_eof() {
    let events = vec![
        ReadEvent::Data(vec![5]),
        ReadEvent::Failed,
        ReadEvent::Data(vec![6]),
    ];
    let out = run_leg(false, &events);
    assert_eq!(out, vec![5]);
}

#[test]
fn escape_byte_ends_the_session_without_being_forwarded() {
    let events = vec![
        ReadEvent::Data(vec![104, 105]),
        ReadEvent::Data(vec![1, 4, 2]),
        ReadEvent::Data(vec![3]),
    ];
    let out = run_leg(true, &events);
    assert_eq!(out, vec![104, 105]);
    assert!(!out.contains(&4));
}

#[test]
fn escape_byte_passes_through_an_unfiltered_leg() {
    let events = vec![ReadEvent::Data(vec![1, 4, 2])];
    let out = run_leg(false, &events);
    assert_eq!(out, vec![1, 4, 2]);
}

#[test]
fn a_stopped_leg_stays_stopped() {
    let mut leg = BridgeLeg::new(true);
    assert!(matches!(
        leg.on_event(&ReadEvent::Data(vec![1])),
        LegAction::Forward
    ));
    assert!(matches!(leg.on_event(&ReadEvent::Eof), LegAction::Stop));
    assert!(leg.done);
    assert!(matches!(
        leg.on_event(&ReadEvent::Data(vec![2])),
        LegAction::Stop
    ));
    assert!(leg.done);
}

#[test]
fn first_leg_to_finish_cancels_the_other() {
    let mut b = Bridge::new();
    assert!(!b.a_done && !b.b_done);
    let cancel_other = b.leg_finished(true);
    assert!(cancel_other, "the first leg to finish must cancel its sibling");
    assert!(b.a_done);
    let cancel_again = b.leg_finished(false);
    assert!(!cancel_again, "the second leg finds the session already over");
    assert!(b.a_done && b.b_done);
}

#[test]
fn empty_event_stream_forwards_nothing() {
    let out = run_leg(true, &Vec::new());
    assert!(out.is_empty());
}
