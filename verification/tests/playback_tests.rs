use pfviz::kind::EventKind;
use pfviz::perf::Event;
use pfviz::playback::{Player, PlaybackMode, Status};
use pfviz::records::{encode_events, Records};

fn event(obj_idx: usize, time_ns: u64, kind: EventKind) -> Event {
    Event {
        obj_idx,
        offset: 0x10 * obj_idx as u64,
        was_write: false,
        time_ns,
        kind,
        event_name: 0,
        addr: 0x1000,
        ip: 0x4f0,
        tid: 1,
    }
}

fn records_of(events: &[Event]) -> Records {
    let bytes = encode_events(&events.to_vec());
    Records::from_bytes(&bytes).unwrap()
}

fn five_events() -> Records {
    records_of(&[
        event(0, 1_000_000_000, EventKind::MinorFault),
        event(1, 1_100_000_000, EventKind::MinorFault),
        event(0, 1_200_000_000, EventKind::CacheMiss),
        event(1, 1_300_000_000, EventKind::MajorFault),
        event(0, 1_400_000_000, EventKind::MinorFault),
    ])
}

#[test]
fn status_new_summarizes_the_stream() {
    let recs = five_events();
    let st = Status::new(&recs);
    assert_eq!(st.num_events, 5);
    assert_eq!(st.cur_event, 0);
    assert_eq!(st.end_time_ns, 1_400_000_000);
    assert_eq!(st.cur_time_ns, 0);
    assert!(st.paused);
    assert!(st.looping);
    assert_eq!(st.marker_a, None);
    assert_eq!(st.marker_b, None);
}

#[test]
fn advance_consumes_and_updates_time() {
    let recs = five_events();
    let mut p = Player::new(Status::new(&recs));
    let r = p.advance(&recs, 2);
    assert_eq!(r.count, 2);
    assert!(!r.hit_breakpoint);
    assert_eq!(p.status.cur_event, 2);
    assert_eq!(p.status.cur_time_ns, 1_100_000_000);
    // counters tally faults and misses per object
    assert_eq!(p.count_of(0), (1, 0));
    assert_eq!(p.count_of(1), (1, 0));
    let r = p.advance(&recs, 100);
    assert_eq!(r.count, 3);
    assert_eq!(p.status.cur_event, 5);
    assert_eq!(p.count_of(0), (2, 1));
    assert_eq!(p.count_of(1), (2, 0));
}

#[test]
fn advance_respects_the_marker_window() {
    let recs = five_events();
    let mut p = Player::new(Status::new(&recs));
    p.status.cur_event = 1;
    p.status.marker_a = Some(1);
    p.status.marker_b = Some(3);
    assert_eq!(p.get_first_play_event(), 1);
    assert_eq!(p.get_last_play_event(), 3);
    let r = p.advance(&recs, 100);
    assert_eq!(r.count, 2);
    assert_eq!(p.status.cur_event, 3);
    // at the window end nothing more is consumed
    let r = p.advance(&recs, 100);
    assert_eq!(r.count, 0);
    assert_eq!(p.status.cur_event, 3);
}

#[test]
fn breakpoint_halts_after_the_flagged_objects_event() {
    let recs = five_events();
    let mut p = Player::new(Status::new(&recs));
    p.toggle_break(1);
    let r = p.advance(&recs, 100);
    // the object-0 event is consumed, then the flagged object-1 event halts
    // the batch inclusively
    assert_eq!(r.count, 2);
    assert!(r.hit_breakpoint);
    assert_eq!(p.status.cur_event, 2);
    assert!(p.status.paused);
    // toggling the flag off clears it
    p.toggle_break(1);
    p.set_pause(false);
    let r = p.advance(&recs, 100);
    assert_eq!(r.count, 3);
    assert!(!r.hit_breakpoint);
}

#[test]
fn markers_toggle_at_the_current_position() {
    let recs = five_events();
    let mut p = Player::new(Status::new(&recs));
    p.advance(&recs, 2);
    p.toggle_marker_a();
    assert_eq!(p.status.marker_a, Some(2));
    p.toggle_marker_a();
    assert_eq!(p.status.marker_a, None);
    p.toggle_marker_b();
    assert_eq!(p.status.marker_b, Some(2));
}

#[test]
fn goto_event_processes_one_event_at_the_destination() {
    let recs = five_events();
    let mut p = Player::new(Status::new(&recs));
    p.goto_event(&recs, 3);
    assert_eq!(p.status.cur_event, 4);
    assert_eq!(p.status.cur_time_ns, 1_300_000_000);
    // jumping to the window end consumes nothing
    p.goto_event(&recs, 5);
    assert_eq!(p.status.cur_event, 5);
}

#[test]
fn frame_step_advances_strictly_past_the_play_speed() {
    // the literal stop rule consumes events until their number exceeds the
    // speed: a speed of two and a half consumes three per tick, and a
    // whole-number speed of two also consumes three
    let recs = five_events();
    let mut p = Player::new(Status::new(&recs));
    p.set_pause(false);
    p.tick(&recs, PlaybackMode::FrameStep, 2_500_000_000);
    assert_eq!(p.status.cur_event, 3);

    let mut q = Player::new(Status::new(&recs));
    q.set_pause(false);
    q.tick(&recs, PlaybackMode::FrameStep, 2_000_000_000);
    assert_eq!(q.status.cur_event, 3);

    let mut z = Player::new(Status::new(&recs));
    z.set_pause(false);
    z.tick(&recs, PlaybackMode::FrameStep, 0);
    assert_eq!(z.status.cur_event, 1);
}

#[test]
fn frame_time_consumes_all_events_at_or_before_the_target() {
    let recs = five_events();
    let mut p = Player::new(Status::new(&recs));
    p.set_pause(false);
    // one tick moves the target one second forward; only the first event
    // lies at or before it
    p.tick(&recs, PlaybackMode::FrameTime, 1_000_000_000);
    assert_eq!(p.status.cur_event, 1);
    assert_eq!(p.status.cur_time_ns, 1_000_000_000);
    // the next tick reaches 2.0 s and consumes the rest
    p.tick(&recs, PlaybackMode::FrameTime, 1_000_000_000);
    assert_eq!(p.status.cur_event, 5);
    assert_eq!(p.status.cur_time_ns, 1_400_000_000);
}

#[test]
fn realtime_lets_time_pass_without_events() {
    let recs = five_events();
    let mut p = Player::new(Status::new(&recs));
    p.set_pause(false);
    p.status.looping = false;
    // one tick of trace time: speed 30e9 over 30 ticks per second gives a
    // one-second target; the first event is exactly at it
    p.tick(&recs, PlaybackMode::Realtime, 30_000_000_000);
    assert_eq!(p.status.cur_event, 1);
    assert_eq!(p.status.cur_time_ns, 1_000_000_000);
    // a short tick passes time but reaches no event
    p.tick(&recs, PlaybackMode::Realtime, 1_500_000_000);
    assert_eq!(p.status.cur_event, 1);
    assert_eq!(p.status.cur_time_ns, 1_050_000_000);
}

#[test]
fn looping_wraps_to_the_window_start_and_clears_counters() {
    let recs = five_events();
    let mut p = Player::new(Status::new(&recs));
    p.set_pause(false);
    p.advance(&recs, 5);
    assert_eq!(p.status.cur_event, 5);
    assert_ne!(p.count_of(0), (0, 0));
    // the wrap resets position and time to the window start, clears the
    // accumulated counters, and processes one event at the destination
    // before the mode advances the stream
    p.tick(&recs, PlaybackMode::FrameStep, 0);
    assert_eq!(p.status.cur_event, 2);
    assert_eq!(p.count_of(0), (1, 0));
    assert_eq!(p.count_of(1), (1, 0));
}

#[test]
fn paused_tick_does_nothing() {
    let recs = five_events();
    let mut p = Player::new(Status::new(&recs));
    assert!(p.status.paused);
    p.tick(&recs, PlaybackMode::FrameStep, 1_000_000_000);
    assert_eq!(p.status.cur_event, 0);
    assert_eq!(p.status.cur_time_ns, 0);
}

#[test]
fn reset_returns_to_the_stream_start() {
    let recs = five_events();
    let mut p = Player::new(Status::new(&recs));
    p.advance(&recs, 3);
    p.status.reset();
    assert_eq!(p.status.cur_event, 0);
    assert_eq!(p.status.cur_time_ns, 0);
}

#[test]
fn advance_with_zero_budget_consumes_nothing() {
    let recs = five_events();
    let mut p = Player::new(Status::new(&recs));
    let r = p.advance(&recs, 0);
    assert_eq!(r.count, 0);
    assert!(!r.hit_breakpoint);
    assert_eq!(p.status.cur_event, 0);
}

#[test]
fn realtime_at_the_stream_end_freezes() {
    let recs = five_events();
    let mut p = Player::new(Status::new(&recs));
    p.set_pause(false);
    p.status.looping = false;
    p.advance(&recs, 5);
    let time_before = p.status.cur_time_ns;
    p.tick(&recs, PlaybackMode::Realtime, 30_000_000_000);
    assert_eq!(p.status.cur_event, 5);
    assert_eq!(p.status.cur_time_ns, time_before);
}

#[test]
fn frame_time_with_no_events_in_reach_changes_nothing() {
    let recs = records_of(&[event(0, 5_000_000_000, EventKind::MinorFault)]);
    let mut p = Player::new(Status::new(&recs));
    p.set_pause(false);
    p.status.looping = false;
    p.tick(&recs, PlaybackMode::FrameTime, 1_000_000_000);
    assert_eq!(p.status.cur_event, 0);
    assert_eq!(p.status.cur_time_ns, 0);
}

#[test]
fn counters_for_an_unseen_object_are_zero() {
    let recs = five_events();
    let p = Player::new(Status::new(&recs));
    assert_eq!(p.count_of(42), (0, 0));
}
