use midibox::midi::{Midi, NOTE_OFF_MSG, NOTE_ON_MSG};
use midibox::player::{route_note, Player, PlayerConfig, PlayingNote, RouteOutcome, Router};
use midibox::runner::{run, LogEntry, ScriptSource};

fn note(pitch: u8, duration: u32, velocity: u8) -> Midi {
    Midi::note(pitch, duration, velocity)
}

fn assert_emit(entry: &LogEntry, port_id: usize, status: u8, pitch: u8, velocity: u8) {
    assert_eq!(
        entry.outcome,
        RouteOutcome::Emit { port_id, status, pitch, velocity }
    );
    assert_eq!(entry.status, status);
}

#[test]
fn scenario_single_note_start_and_stop() {
    // One source, one note {pitch 60, duration 2, velocity 100}, then only
    // empty batches; routed to destination 0.
    let mut channels = vec![ScriptSource::new(vec![
        Some(vec![note(60, 2, 100)]),
        Some(vec![]),
        Some(vec![]),
        Some(vec![]),
    ])];
    let config = PlayerConfig::for_port(0);
    let log = run(&mut channels, &config, 4);

    assert_eq!(log.len(), 2);
    assert_eq!(log[0].status, NOTE_ON_MSG);
    assert_eq!(log[0].tick, 1);
    assert_eq!(log[0].note_id, 1);
    assert_emit(&log[0], 0, 0x90, 60, 100);
    assert_eq!(log[1].status, NOTE_OFF_MSG);
    assert_eq!(log[1].tick, 3);
    assert_eq!(log[1].note_id, 1);
    assert_emit(&log[1], 0, 0x80, 60, 100);
}

#[test]
fn scenario_zero_duration_note() {
    // A zero-duration note produces no events but consumes an identifier,
    // and its source is polled again on the very next tick.
    let mut channels = vec![ScriptSource::new(vec![
        Some(vec![note(60, 0, 100)]),
        Some(vec![note(61, 1, 90)]),
    ])];
    let config = PlayerConfig::for_port(0);
    let log = run(&mut channels, &config, 3);

    assert!(log.iter().all(|e| e.note_id != 1));
    assert_eq!(log.len(), 2);
    // The second note got identifier 2: the counter advanced for the
    // discarded zero-duration note.
    assert_eq!(log[0].status, NOTE_ON_MSG);
    assert_eq!(log[0].tick, 2);
    assert_eq!(log[0].note_id, 2);
    assert_eq!(log[1].status, NOTE_OFF_MSG);
    assert_eq!(log[1].tick, 3);
    assert_eq!(log[1].note_id, 2);
}

#[test]
fn scenario_two_sources_shared_destination() {
    // Source 0 plays duration 3, source 1 plays duration 1, both to
    // destination 0.
    let mut channels = vec![
        ScriptSource::new(vec![Some(vec![note(60, 3, 100)])]),
        ScriptSource::new(vec![Some(vec![note(64, 1, 90)]), Some(vec![])]),
    ];
    let config = PlayerConfig::for_port(0);
    let log = run(&mut channels, &config, 4);

    assert_eq!(log.len(), 4);
    // Both start events at tick 1, in source order.
    assert_eq!((log[0].status, log[0].tick, log[0].record.channel_id), (NOTE_ON_MSG, 1, 0));
    assert_eq!((log[1].status, log[1].tick, log[1].record.channel_id), (NOTE_ON_MSG, 1, 1));
    // Source 1 stops at tick 2, source 0 at tick 4.
    assert_eq!((log[2].status, log[2].tick, log[2].record.channel_id), (NOTE_OFF_MSG, 2, 1));
    assert_eq!((log[3].status, log[3].tick, log[3].record.channel_id), (NOTE_OFF_MSG, 4, 0));
    assert_emit(&log[3], 0, 0x80, 60, 100);
}

#[test]
fn scenario_shutdown_drains_remaining() {
    // The run stops while the note still has ticks to go: the drain routes
    // exactly one stop event for it, at the final tick.
    let mut channels = vec![ScriptSource::new(vec![Some(vec![note(72, 7, 80)])])];
    let config = PlayerConfig::for_port(3);
    let log = run(&mut channels, &config, 3);

    assert_eq!(log.len(), 2);
    assert_eq!((log[0].status, log[0].tick), (NOTE_ON_MSG, 1));
    assert_eq!((log[1].status, log[1].tick), (NOTE_OFF_MSG, 3));
    assert_emit(&log[1], 3, 0x80, 72, 80);
    let stops = log.iter().filter(|e| e.status == NOTE_OFF_MSG).count();
    assert_eq!(stops, 1);
}

#[test]
fn scenario_unrouted_source_reports() {
    // No routing entry for the source: both routing attempts report the
    // misconfiguration, no bytes are sent, and the note still elapses.
    let mut channels = vec![ScriptSource::new(vec![Some(vec![note(60, 2, 100)])])];
    let config = PlayerConfig::from_router(Router::Mapped { routes: vec![] });
    let log = run(&mut channels, &config, 4);

    assert_eq!(log.len(), 2);
    assert_eq!((log[0].status, log[0].tick), (NOTE_ON_MSG, 1));
    assert_eq!(log[0].outcome, RouteOutcome::NoPort);
    assert_eq!((log[1].status, log[1].tick), (NOTE_OFF_MSG, 3));
    assert_eq!(log[1].outcome, RouteOutcome::NoPort);
}

#[test]
fn rest_notes_are_silent() {
    // A rest is tracked for its duration but routes no event in either
    // direction.
    let mut channels = vec![ScriptSource::new(vec![Some(vec![Midi::rest(2)])])];
    let config = PlayerConfig::for_port(0);
    let log = run(&mut channels, &config, 4);

    assert_eq!(log.len(), 2);
    assert_eq!(log[0].outcome, RouteOutcome::Rest);
    assert_eq!(log[1].outcome, RouteOutcome::Rest);
}

#[test]
fn single_flight_blocks_second_batch() {
    // While the first note sounds, the source is not polled; its second
    // batch starts only after the first note stopped.
    let mut channels = vec![ScriptSource::new(vec![
        Some(vec![note(60, 3, 100)]),
        Some(vec![note(62, 1, 100)]),
    ])];
    let config = PlayerConfig::for_port(0);
    let log = run(&mut channels, &config, 4);

    assert_eq!(log.len(), 4);
    assert_eq!((log[0].status, log[0].tick, log[0].note_id), (NOTE_ON_MSG, 1, 1));
    assert_eq!((log[1].status, log[1].tick, log[1].note_id), (NOTE_OFF_MSG, 4, 1));
    // The second batch was admitted at tick 4, right after the stop.
    assert_eq!((log[2].status, log[2].tick, log[2].note_id), (NOTE_ON_MSG, 4, 2));
    // Drain stops it at the final tick.
    assert_eq!((log[3].status, log[3].tick, log[3].note_id), (NOTE_OFF_MSG, 4, 2));
}

#[test]
fn exhausted_source_is_retried() {
    // A source that fails one poll is simply asked again next tick.
    let mut channels = vec![ScriptSource::new(vec![None, Some(vec![note(60, 1, 50)])])];
    let config = PlayerConfig::for_port(0);
    let log = run(&mut channels, &config, 3);

    assert_eq!(log.len(), 2);
    assert_eq!((log[0].status, log[0].tick), (NOTE_ON_MSG, 2));
    assert_eq!((log[1].status, log[1].tick), (NOTE_OFF_MSG, 3));
}

#[test]
fn player_admits_and_reaps() {
    let mut player = Player::new();
    assert_eq!(player.time(), 0);
    assert_eq!(player.advance_tick(), 1);

    let batch = vec![note(60, 2, 100), note(61, 0, 90), Midi::rest(1)];
    let started = player.admit_batch(7, &batch);
    // The zero-duration note consumed identifier 2 but was not admitted.
    assert_eq!(started.len(), 2);
    assert_eq!(started[0].0, 1);
    assert_eq!(started[1].0, 3);
    assert_eq!(player.note_count(), 3);
    assert_eq!(player.sounding_count(), 2);
    assert_eq!(started[0].1.channel_id, 7);
    assert_eq!(started[0].1.start_tick_id, 1);

    assert_eq!(player.advance_tick(), 2);
    let reaped = player.clear_elapsed_notes();
    // Only the rest (duration 1) elapses at tick 2.
    assert_eq!(reaped.len(), 1);
    assert_eq!(reaped[0].note, Midi::rest(1));
    assert_eq!(player.sounding_count(), 1);

    assert_eq!(player.advance_tick(), 3);
    let reaped = player.clear_elapsed_notes();
    assert_eq!(reaped.len(), 1);
    assert_eq!(reaped[0].note, note(60, 2, 100));
    assert_eq!(player.sounding_count(), 0);
}

#[test]
fn player_poll_skips_active_channel() {
    let mut player = Player::new();
    let mut channels = vec![
        ScriptSource::new(vec![Some(vec![note(60, 2, 100)]), Some(vec![note(61, 1, 90)])]),
    ];
    assert!(player.should_poll_channel(0));
    let started = player.poll_channels(&mut channels);
    assert_eq!(started.len(), 1);
    assert_eq!(started[0].note, note(60, 2, 100));
    // The channel now has a sounding note: not polled again.
    assert!(!player.should_poll_channel(0));
    let started = player.poll_channels(&mut channels);
    assert!(started.is_empty());
}

#[test]
fn player_drain_removes_everything() {
    let mut player = Player::new();
    player.advance_tick();
    player.admit_batch(0, &vec![note(60, 9, 100)]);
    player.admit_batch(1, &vec![note(61, 5, 100)]);
    assert_eq!(player.sounding_count(), 2);
    let drained = player.clear_all_notes();
    assert_eq!(drained.len(), 2);
    assert_eq!(drained[0].channel_id, 0);
    assert_eq!(drained[1].channel_id, 1);
    assert_eq!(player.sounding_count(), 0);
    // Counters are untouched by the drain.
    assert_eq!(player.note_count(), 2);
    assert_eq!(player.time(), 1);
}

#[test]
fn route_note_builds_wire_event() {
    let config = PlayerConfig::for_port(4);
    let playing = PlayingNote { channel_id: 9, start_tick_id: 0, note: note(64, 1, 101) };
    assert_eq!(
        route_note(&config, &playing, NOTE_ON_MSG),
        RouteOutcome::Emit { port_id: 4, status: 0x90, pitch: 64, velocity: 101 }
    );
    assert_eq!(
        route_note(&config, &playing, NOTE_OFF_MSG),
        RouteOutcome::Emit { port_id: 4, status: 0x80, pitch: 64, velocity: 101 }
    );

    let rest = PlayingNote { channel_id: 9, start_tick_id: 0, note: Midi::rest(1) };
    assert_eq!(route_note(&config, &rest, NOTE_ON_MSG), RouteOutcome::Rest);

    let unrouted = PlayerConfig::from_router(Router::Mapped { routes: vec![None] });
    assert_eq!(route_note(&unrouted, &playing, NOTE_ON_MSG), RouteOutcome::NoPort);
}

#[test]
fn router_lookup_and_required_ports() {
    let stat = Router::Static { port_id: 5 };
    assert_eq!(stat.route(0), Some(5));
    assert_eq!(stat.route(99), Some(5));
    assert_eq!(stat.required_ports(), vec![5]);

    let mapped = Router::Mapped { routes: vec![Some(2), None, Some(2), Some(5)] };
    assert_eq!(mapped.route(0), Some(2));
    assert_eq!(mapped.route(1), None);
    assert_eq!(mapped.route(3), Some(5));
    assert_eq!(mapped.route(4), None);
    let ports = mapped.required_ports();
    assert_eq!(ports, vec![2, 5]);

    let empty = PlayerConfig::empty();
    assert_eq!(empty.route(3), Some(0));
    assert_eq!(empty.required_ports(), vec![0]);
}

#[test]
fn every_start_gets_exactly_one_stop() {
    // A busier mix: three sources with varying durations, rests and
    // zero-duration notes; every started identifier stops exactly once.
    let mut channels = vec![
        ScriptSource::new(vec![
            Some(vec![note(60, 2, 100), note(62, 4, 100)]),
            Some(vec![note(64, 1, 100)]),
        ]),
        ScriptSource::new(vec![Some(vec![Midi::rest(3)]), None, Some(vec![note(70, 9, 60)])]),
        ScriptSource::new(vec![Some(vec![note(50, 0, 10)]), Some(vec![note(51, 1, 10)])]),
    ];
    let config = PlayerConfig::for_port(1);
    let log = run(&mut channels, &config, 6);

    let starts: Vec<u64> = log
        .iter()
        .filter(|e| e.status == NOTE_ON_MSG)
        .map(|e| e.note_id)
        .collect();
    let stops: Vec<u64> = log
        .iter()
        .filter(|e| e.status == NOTE_OFF_MSG)
        .map(|e| e.note_id)
        .collect();
    assert!(!starts.is_empty());
    for id in &starts {
        assert_eq!(starts.iter().filter(|x| *x == id).count(), 1);
        assert_eq!(stops.iter().filter(|x| *x == id).count(), 1);
    }
    assert_eq!(starts.len(), stops.len());
}
