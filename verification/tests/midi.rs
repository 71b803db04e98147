use soul_symphony_ling::midi::{
    classify, lane_sources, pair_notes, pitch_glyph, song_events, ticks_in_range, Action, EventKind, NoteSpan,
    TimedEvent, TrackEvent, LANE_COUNT,
};
use soul_symphony_ling::midi_file::read_midi;
use soul_symphony_ling::midi::{Fps, Timing};

fn ev(delta: u32, kind: EventKind) -> TrackEvent {
    TrackEvent { delta, kind }
}

fn on(channel: u8, key: u8, vel: u8) -> EventKind {
    EventKind::NoteOn { channel, key, vel }
}

fn off(channel: u8, key: u8) -> EventKind {
    EventKind::NoteOff { channel, key }
}

fn timed(tick: u64, index: usize, track: usize, action: Action) -> TimedEvent {
    TimedEvent { tick, index, track, action }
}

fn at(action: Action) -> TimedEvent {
    TimedEvent { tick: 0, index: 0, track: 0, action }
}

#[test]
fn classification_follows_the_song_rules() {
    assert_eq!(classify(&on(0, 60, 100)), Some(Action::On(0, 60)));
    assert_eq!(classify(&on(0, 60, 0)), Some(Action::Off(0, 60)));
    assert_eq!(classify(&off(3, 61)), Some(Action::Off(3, 61)));
    assert_eq!(classify(&on(9, 36, 100)), None);
    assert_eq!(classify(&off(9, 36)), None);
    assert_eq!(classify(&EventKind::Tempo(400_000)), Some(Action::Tempo(400_000)));
    assert_eq!(classify(&EventKind::Other), None);
}

#[test]
fn events_are_merged_by_tick_then_position() {
    let tracks = vec![
        vec![ev(0, on(0, 60, 100)), ev(10, off(0, 60))],
        vec![ev(5, on(1, 64, 90)), ev(0, on(9, 36, 100)), ev(10, on(1, 64, 0))],
        vec![ev(0, EventKind::Tempo(400_000)), ev(3, EventKind::Other)],
    ];
    assert!(ticks_in_range(&tracks));
    assert_eq!(
        song_events(&tracks),
        vec![
            timed(0, 0, 0, Action::On(0, 60)),
            timed(0, 0, 2, Action::Tempo(400_000)),
            timed(5, 0, 1, Action::On(1, 64)),
            timed(10, 1, 0, Action::Off(0, 60)),
            timed(15, 2, 1, Action::Off(1, 64)),
        ]
    );
}

#[test]
fn equal_ticks_keep_track_order() {
    let tracks = vec![vec![ev(4, off(0, 1))], vec![ev(4, on(0, 1, 1))]];
    assert_eq!(
        song_events(&tracks),
        vec![timed(4, 0, 0, Action::Off(0, 1)), timed(4, 0, 1, Action::On(0, 1))]
    );
}

#[test]
fn large_deltas_still_fit() {
    let tracks = vec![vec![ev(u32::MAX, EventKind::Other)]];
    assert!(ticks_in_range(&tracks));
    let many: Vec<TrackEvent> = (0..3).map(|_| ev(u32::MAX, EventKind::Other)).collect();
    assert!(ticks_in_range(&vec![many]));
}

#[test]
fn starts_pair_with_the_next_stop() {
    let evs = vec![
        at(Action::On(0, 60)),
        at(Action::Tempo(500_000)),
        at(Action::On(1, 64)),
        at(Action::Off(0, 60)),
        at(Action::Off(1, 64)),
    ];
    assert_eq!(
        pair_notes(&evs),
        vec![
            NoteSpan { on: 0, off: Some(3), channel: 0, key: 60 },
            NoteSpan { on: 2, off: Some(4), channel: 1, key: 64 },
        ]
    );
}

#[test]
fn a_restart_drops_the_earlier_start() {
    let evs = vec![at(Action::On(0, 60)), at(Action::On(0, 60)), at(Action::Off(0, 60))];
    assert_eq!(pair_notes(&evs), vec![NoteSpan { on: 1, off: Some(2), channel: 0, key: 60 }]);
}

#[test]
fn stray_stops_are_ignored() {
    let evs = vec![at(Action::Off(0, 60)), at(Action::On(0, 60)), at(Action::Off(0, 60)), at(Action::Off(0, 60))];
    assert_eq!(pair_notes(&evs), vec![NoteSpan { on: 1, off: Some(2), channel: 0, key: 60 }]);
}

#[test]
fn sounding_notes_come_last_by_key() {
    let evs = vec![at(Action::On(2, 5)), at(Action::On(1, 7)), at(Action::On(0, 1)), at(Action::Off(0, 1))];
    assert_eq!(
        pair_notes(&evs),
        vec![
            NoteSpan { on: 2, off: Some(3), channel: 0, key: 1 },
            NoteSpan { on: 1, off: None, channel: 1, key: 7 },
            NoteSpan { on: 0, off: None, channel: 2, key: 5 },
        ]
    );
}

#[test]
fn channels_keep_notes_apart() {
    let evs = vec![at(Action::On(0, 60)), at(Action::On(1, 60)), at(Action::Off(1, 60)), at(Action::Off(0, 60))];
    assert_eq!(
        pair_notes(&evs),
        vec![
            NoteSpan { on: 1, off: Some(2), channel: 1, key: 60 },
            NoteSpan { on: 0, off: Some(3), channel: 0, key: 60 },
        ]
    );
}

#[test]
fn lanes_sample_evenly() {
    assert_eq!(LANE_COUNT, 24);
    assert_eq!(lane_sources(1), vec![0; 24]);
    assert_eq!(lane_sources(48), (0..24).map(|k| 2 * k).collect::<Vec<usize>>());
    assert_eq!(
        lane_sources(10),
        vec![0, 0, 0, 1, 1, 2, 2, 2, 3, 3, 4, 4, 5, 5, 5, 6, 6, 7, 7, 7, 8, 8, 9, 9]
    );
}

#[test]
fn pitches_map_to_letters() {
    assert_eq!(pitch_glyph(0), 0);
    assert_eq!(pitch_glyph(60), 8);
    assert_eq!(pitch_glyph(127), 23);
    assert_eq!(pitch_glyph(26), 0);
}

fn small_midi() -> Vec<u8> {
    let mut d = Vec::new();
    d.extend_from_slice(b"MThd");
    d.extend_from_slice(&[0, 0, 0, 6, 0, 0, 0, 1, 0, 96]);
    d.extend_from_slice(b"MTrk");
    d.extend_from_slice(&[0, 0, 0, 19]);
    d.extend_from_slice(&[0x00, 0x90, 60, 100]);
    d.extend_from_slice(&[0x60, 0x80, 60, 0]);
    d.extend_from_slice(&[0x00, 0xFF, 0x51, 0x03, 0x07, 0xA1, 0x20]);
    d.extend_from_slice(&[0x00, 0xFF, 0x2F, 0x00]);
    d
}

#[test]
fn a_midi_file_reads_into_events() {
    let m = read_midi(&small_midi()).expect("valid file");
    assert_eq!(m.timing, Timing::Metrical(96));
    assert_eq!(
        m.tracks,
        vec![vec![
            ev(0, on(0, 60, 100)),
            ev(96, off(0, 60)),
            ev(0, EventKind::Tempo(500_000)),
            ev(0, EventKind::Other),
        ]]
    );
    let events = song_events(&m.tracks);
    assert_eq!(pair_notes(&events), vec![NoteSpan { on: 0, off: Some(1), channel: 0, key: 60 }]);
}

#[test]
fn timecode_timing_is_read() {
    let mut d = small_midi();
    d[12] = 0xE7; // -25 frames per second
    d[13] = 40;
    let m = read_midi(&d).expect("valid file");
    assert_eq!(m.timing, Timing::Timecode(Fps::Fps25, 40));
}

#[test]
fn garbage_is_not_midi() {
    assert!(read_midi(b"not a midi file").is_err());
    assert!(read_midi(&[]).is_err());
}
