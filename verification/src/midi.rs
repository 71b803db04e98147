use vstd::prelude::*;

verus! {

/// SMPTE frame rate of a timecode-timed file.
#[derive(Clone, Copy, Debug, PartialEq, Eq, Structural)]
pub enum Fps {
    Fps24,
    Fps25,
    Fps29,
    Fps30,
}

/// How the ticks of a MIDI file relate to time.
#[derive(Clone, Copy, Debug, PartialEq, Eq, Structural)]
pub enum Timing {
    /// Ticks per beat.
    Metrical(u16),
    /// Frames per second and ticks per frame.
    Timecode(Fps, u8),
}

/// What a track event carries, as far as song conversion reads it.
#[derive(Clone, Copy, Debug, PartialEq, Eq, Structural)]
pub enum EventKind {
    NoteOn { channel: u8, key: u8, vel: u8 },
    NoteOff { channel: u8, key: u8 },
    Tempo(u32),
    Other,
}

/// One event of a track: ticks since the previous event, and its kind.
#[derive(Clone, Copy, Debug, PartialEq, Eq, Structural)]
pub struct TrackEvent {
    pub delta: u32,
    pub kind: EventKind,
}

/// A song event: a tempo change (microseconds per beat), or a note
/// starting or stopping on `(channel, key)`.
#[derive(Clone, Copy, Debug, PartialEq, Eq, Structural)]
pub enum Action {
    Tempo(u32),
    On(u8, u8),
    Off(u8, u8),
}

/// A song event at absolute tick `tick`, from event `index` of track `track`.
#[derive(Clone, Copy, Debug, PartialEq, Eq, Structural)]
pub struct TimedEvent {
    pub tick: u64,
    pub index: usize,
    pub track: usize,
    pub action: Action,
}

/// The MIDI channel that holds percussion; its notes are not part of the song.
pub const PERCUSSION_CHANNEL: u8 = 9;

/// The song event that a track event stands for, if any: tempo changes, and note
/// starts and stops outside the percussion channel; a note-on of velocity 0 stops the note.
pub open spec fn action_of(kind: EventKind) -> Option<Action> {
    match kind {
        EventKind::Tempo(us) => Some(Action::Tempo(us)),
        EventKind::NoteOn { channel, key, vel } => if channel == PERCUSSION_CHANNEL {
            None
        } else if vel > 0 {
            Some(Action::On(channel, key))
        } else {
            Some(Action::Off(channel, key))
        },
        EventKind::NoteOff { channel, key } => if channel == PERCUSSION_CHANNEL {
            None
        } else {
            Some(Action::Off(channel, key))
        },
        EventKind::Other => None,
    }
}

/// Classifies one track event.
pub fn classify(kind: &EventKind) -> (action: Option<Action>)
    ensures
        action == action_of(*kind),
        *kind matches EventKind::NoteOn { channel, key, vel } ==> (if channel == 9 {
            action is None
        } else if vel > 0 {
            action == Some(Action::On(channel, key))
        } else {
            action == Some(Action::Off(channel, key))
        }),
        *kind matches EventKind::NoteOff { channel, key } ==> (if channel == 9 {
            action is None
        } else {
            action == Some(Action::Off(channel, key))
        }),
        *kind matches EventKind::Tempo(us) ==> action == Some(Action::Tempo(us)),
        *kind is Other ==> action is None,
{
    match *kind {
        EventKind::Tempo(us) => Some(Action::Tempo(us)),
        EventKind::NoteOn { channel, key, vel } => if channel == PERCUSSION_CHANNEL {
            None
        } else if vel > 0 {
            Some(Action::On(channel, key))
        } else {
            Some(Action::Off(channel, key))
        },
        EventKind::NoteOff { channel, key } => if channel == PERCUSSION_CHANNEL {
            None
        } else {
            Some(Action::Off(channel, key))
        },
        EventKind::Other => None,
    }
}

/// Law: only channel 9 is percussion. On every other channel a note-on of positive
/// velocity starts its note, and a note-off or a note-on of velocity 0 stops it; on
/// channel 9 notes are dropped.
pub proof fn law_classify_channels(c: u8, k: u8, v: u8)
    ensures
        c != 9 && v > 0 ==> action_of(EventKind::NoteOn { channel: c, key: k, vel: v }) == Some(Action::On(c, k)),
        c != 9 ==> action_of(EventKind::NoteOn { channel: c, key: k, vel: 0 }) == Some(Action::Off(c, k)),
        c != 9 ==> action_of(EventKind::NoteOff { channel: c, key: k }) == Some(Action::Off(c, k)),
        action_of(EventKind::NoteOn { channel: 9, key: k, vel: v }) is None,
        action_of(EventKind::NoteOff { channel: 9, key: k }) is None,
{
}

/// The sum of the deltas of the events in `s`, whatever their kind.
pub open spec fn delta_sum(s: Seq<TrackEvent>) -> int {
    s.fold_left(0int, |acc: int, e: TrackEvent| acc + e.delta)
}

/// Law: the absolute tick of event `i` is the sum of the deltas of events `0..=i`
/// of its track, ignored events included.
pub proof fn law_tick_is_delta_sum(track: Seq<TrackEvent>, i: int)
    requires
        -1 <= i < track.len(),
    ensures
        tick_at(track, i) == delta_sum(track.take(i + 1)),
    decreases i + 1,
{
    if i >= 0 {
        law_tick_is_delta_sum(track, i - 1);
        assert(track.take(i + 1).drop_last() =~= track.take(i));
    } else {
        assert(track.take(0) =~= Seq::<TrackEvent>::empty());
    }
}

/// Absolute tick of event `i` of a track: the sum of the deltas up to and including it.
pub open spec fn tick_at(track: Seq<TrackEvent>, i: int) -> int
    decreases i + 1,
{
    if i < 0 || i >= track.len() {
        0
    } else {
        tick_at(track, i - 1) + track[i].delta
    }
}

/// The last absolute tick of a track.
pub open spec fn end_tick(track: Seq<TrackEvent>) -> int {
    tick_at(track, track.len() - 1)
}

/// Absolute ticks never decrease along a track.
pub proof fn lemma_tick_monotone(track: Seq<TrackEvent>, i: int, j: int)
    requires
        -1 <= i <= j < track.len(),
    ensures
        tick_at(track, i) <= tick_at(track, j),
    decreases j - i,
{
    if i < j {
        lemma_tick_monotone(track, i, j - 1);
    }
}

/// `a` comes strictly before `b`: by tick, then index within the track, then track.
pub open spec fn event_before(a: TimedEvent, b: TimedEvent) -> bool {
    ||| a.tick < b.tick
    ||| a.tick == b.tick && a.index < b.index
    ||| a.tick == b.tick && a.index == b.index && a.track < b.track
}

/// The view of a list of tracks.
pub open spec fn tracks_view(tracks: Seq<Vec<TrackEvent>>) -> Seq<Seq<TrackEvent>> {
    tracks.map_values(|t: Vec<TrackEvent>| t@)
}

/// `e` is the song event of event `e.index` of track `e.track`.
pub open spec fn is_song_event(tracks: Seq<Seq<TrackEvent>>, e: TimedEvent) -> bool {
    &&& e.track < tracks.len()
    &&& e.index < tracks[e.track as int].len()
    &&& e.tick == tick_at(tracks[e.track as int], e.index as int)
    &&& action_of(tracks[e.track as int][e.index as int].kind) == Some(e.action)
}

/// No absolute tick of any track exceeds the range of `u64`.
pub open spec fn ticks_fit(tracks: Seq<Seq<TrackEvent>>) -> bool {
    forall|t: int| 0 <= t < tracks.len() ==> end_tick(#[trigger] tracks[t]) <= u64::MAX
}

/// The song events of track `t`, in order.
fn track_events(track: &Vec<TrackEvent>, t: usize) -> (out: Vec<TimedEvent>)
    requires
        end_tick(track@) <= u64::MAX,
    ensures
        forall|k: int| 0 <= k < out@.len() ==> (#[trigger] out@[k]).track == t && out@[k].index < track@.len()
            && out@[k].tick == tick_at(track@, out@[k].index as int)
            && action_of(track@[out@[k].index as int].kind) == Some(out@[k].action),
        forall|m: int| 0 <= m < track@.len() && (#[trigger] action_of(track@[m].kind)) is Some ==>
            out@.contains(TimedEvent { tick: tick_at(track@, m) as u64, index: m as usize, track: t,
                action: action_of(track@[m].kind)->0 }),
        forall|k: int, l: int| 0 <= k < l < out@.len() ==> event_before(#[trigger] out@[k], #[trigger] out@[l]),
{
    let mut out: Vec<TimedEvent> = Vec::new();
    let mut tick: u64 = 0;
    let mut i: usize = 0;
    while i < track.len()
        invariant
            i <= track@.len(),
            end_tick(track@) <= u64::MAX,
            tick == tick_at(track@, i - 1),
            forall|k: int| 0 <= k < out@.len() ==> (#[trigger] out@[k]).track == t && out@[k].index < i
                && out@[k].tick == tick_at(track@, out@[k].index as int)
                && action_of(track@[out@[k].index as int].kind) == Some(out@[k].action),
            forall|m: int| 0 <= m < i && (#[trigger] action_of(track@[m].kind)) is Some ==>
                out@.contains(TimedEvent { tick: tick_at(track@, m) as u64, index: m as usize, track: t,
                    action: action_of(track@[m].kind)->0 }),
            forall|k: int, l: int| 0 <= k < l < out@.len() ==> event_before(#[trigger] out@[k], #[trigger] out@[l]),
        decreases track@.len() - i,
    {
        proof {
            lemma_tick_monotone(track@, i as int, track@.len() - 1);
        }
        let ev = track[i];
        tick = tick + ev.delta as u64;
        let ghost out0 = out@;
        match classify(&ev.kind) {
            Some(action) => {
                let e = TimedEvent { tick, index: i, track: t, action };
                proof {
                    assert forall|k: int| 0 <= k < out0.len() implies event_before(out0[k], e) by {
                        lemma_tick_monotone(track@, out0[k].index as int, i as int);
                    }
                }
                out.push(e);
                proof {
                    assert forall|m: int| 0 <= m < i + 1 && (#[trigger] action_of(track@[m].kind)) is Some implies
                        out@.contains(TimedEvent { tick: tick_at(track@, m) as u64, index: m as usize, track: t,
                            action: action_of(track@[m].kind)->0 }) by {
                        if m == i {
                            assert(out@[out0.len() as int] == e);
                        } else {
                            let e2 = TimedEvent { tick: tick_at(track@, m) as u64, index: m as usize, track: t,
                                action: action_of(track@[m].kind)->0 };
                            assert(out0.contains(e2));
                            let k = choose|k: int| 0 <= k < out0.len() && out0[k] == e2;
                            assert(out@[k] == e2);
                        }
                    }
                    assert forall|k: int, l: int| 0 <= k < l < out@.len() implies event_before(#[trigger] out@[k], #[trigger] out@[l]) by {
                        if l == out0.len() {
                            assert(out@[k] == out0[k]);
                        } else {
                            assert(out@[k] == out0[k] && out@[l] == out0[l]);
                        }
                    }
                }
            },
            None => {},
        }
        i += 1;
    }
    out
}

/// Exec form of `event_before`.
fn before(a: &TimedEvent, b: &TimedEvent) -> (r: bool)
    ensures
        r == event_before(*a, *b),
{
    a.tick < b.tick || (a.tick == b.tick && (a.index < b.index || (a.index == b.index && a.track < b.track)))
}

/// `s` is strictly increasing by `event_before`.
pub open spec fn events_sorted(s: Seq<TimedEvent>) -> bool {
    forall|k: int, l: int| 0 <= k < l < s.len() ==> event_before(#[trigger] s[k], #[trigger] s[l])
}

proof fn lemma_before_trans(a: TimedEvent, b: TimedEvent, c: TimedEvent)
    requires
        event_before(a, b),
        event_before(b, c),
    ensures
        event_before(a, c),
{
}

/// Merges two sorted event lists that share no event position.
fn merge_events(a: Vec<TimedEvent>, b: Vec<TimedEvent>) -> (out: Vec<TimedEvent>)
    requires
        events_sorted(a@),
        events_sorted(b@),
        forall|k: int, l: int| 0 <= k < a@.len() && 0 <= l < b@.len() ==> (#[trigger] a@[k]).track != (#[trigger] b@[l]).track,
    ensures
        events_sorted(out@),
        forall|x: TimedEvent| #[trigger] out@.contains(x) <==> a@.contains(x) || b@.contains(x),
{
    let mut out: Vec<TimedEvent> = Vec::new();
    let mut i: usize = 0;
    let mut j: usize = 0;
    while i < a.len() || j < b.len()
        invariant
            i <= a@.len(),
            j <= b@.len(),
            events_sorted(a@),
            events_sorted(b@),
            forall|k: int, l: int| 0 <= k < a@.len() && 0 <= l < b@.len() ==> (#[trigger] a@[k]).track != (#[trigger] b@[l]).track,
            events_sorted(out@),
            forall|k: int, m: int| 0 <= k < out@.len() && i <= m < a@.len() ==> event_before(#[trigger] out@[k], #[trigger] a@[m]),
            forall|k: int, m: int| 0 <= k < out@.len() && j <= m < b@.len() ==> event_before(#[trigger] out@[k], #[trigger] b@[m]),
            forall|k: int| 0 <= k < out@.len() ==> (exists|m: int| 0 <= m < i && a@[m] == #[trigger] out@[k])
                || (exists|m: int| 0 <= m < j && b@[m] == #[trigger] out@[k]),
            forall|m: int| 0 <= m < i ==> out@.contains(#[trigger] a@[m]),
            forall|m: int| 0 <= m < j ==> out@.contains(#[trigger] b@[m]),
        decreases a@.len() + b@.len() - i - j,
    {
        let ghost out0 = out@;
        let take_a = if i < a.len() && j < b.len() {
            before(&a[i], &b[j])
        } else {
            i < a.len()
        };
        let e = if take_a { a[i] } else { b[j] };
        proof {
            if take_a {
                if j < b@.len() {
                    assert(event_before(a@[i as int], b@[j as int]));
                    assert forall|m: int| j <= m < b@.len() implies event_before(e, #[trigger] b@[m]) by {
                        if m > j {
                            lemma_before_trans(e, b@[j as int], b@[m]);
                        }
                    }
                }
                assert forall|m: int| i < m < a@.len() implies event_before(e, #[trigger] a@[m]) by {}
            } else {
                if i < a@.len() {
                    assert(!event_before(a@[i as int], b@[j as int]));
                    assert(a@[i as int].track != b@[j as int].track);
                    assert(event_before(b@[j as int], a@[i as int]));
                    assert forall|m: int| i <= m < a@.len() implies event_before(e, #[trigger] a@[m]) by {
                        if m > i {
                            lemma_before_trans(e, a@[i as int], a@[m]);
                        }
                    }
                }
                assert forall|m: int| j < m < b@.len() implies event_before(e, #[trigger] b@[m]) by {}
            }
        }
        out.push(e);
        if take_a {
            i += 1;
        } else {
            j += 1;
        }
        proof {
            assert forall|k: int, l: int| 0 <= k < l < out@.len() implies event_before(#[trigger] out@[k], #[trigger] out@[l]) by {
                assert(out@[k] == out0[k] || k == out0.len());
                if l < out0.len() {
                    assert(out@[l] == out0[l]);
                }
            }
            assert forall|k: int| 0 <= k < out@.len() implies (exists|m: int| 0 <= m < i && a@[m] == #[trigger] out@[k])
                || (exists|m: int| 0 <= m < j && b@[m] == #[trigger] out@[k]) by {
                if k == out0.len() {
                    if take_a {
                        assert(a@[i - 1] == out@[k]);
                    } else {
                        assert(b@[j - 1] == out@[k]);
                    }
                } else {
                    assert(out@[k] == out0[k]);
                }
            }
            assert forall|m: int| 0 <= m < i implies out@.contains(#[trigger] a@[m]) by {
                if take_a && m == i - 1 {
                    assert(out@[out0.len() as int] == a@[m]);
                } else {
                    let k = choose|k: int| 0 <= k < out0.len() && out0[k] == a@[m];
                    assert(out@[k] == a@[m]);
                }
            }
            assert forall|m: int| 0 <= m < j implies out@.contains(#[trigger] b@[m]) by {
                if !take_a && m == j - 1 {
                    assert(out@[out0.len() as int] == b@[m]);
                } else {
                    let k = choose|k: int| 0 <= k < out0.len() && out0[k] == b@[m];
                    assert(out@[k] == b@[m]);
                }
            }
        }
    }
    proof {
        assert forall|x: TimedEvent| a@.contains(x) || b@.contains(x) implies #[trigger] out@.contains(x) by {
            if a@.contains(x) {
                let m = choose|m: int| 0 <= m < a@.len() && a@[m] == x;
                assert(out@.contains(a@[m]));
            } else if b@.contains(x) {
                let m = choose|m: int| 0 <= m < b@.len() && b@[m] == x;
                assert(out@.contains(b@[m]));
            }
        }
        assert forall|x: TimedEvent| #[trigger] out@.contains(x) implies a@.contains(x) || b@.contains(x) by {
            let k = choose|k: int| 0 <= k < out@.len() && out@[k] == x;
            if exists|m: int| 0 <= m < i && a@[m] == #[trigger] out@[k] {
                let m = choose|m: int| 0 <= m < i && a@[m] == #[trigger] out@[k];
                assert(a@[m] == x);
            } else {
                let m = choose|m: int| 0 <= m < j && b@[m] == #[trigger] out@[k];
                assert(b@[m] == x);
            }
        }
    }
    out
}

/// The song events of all tracks, ordered by tick, then by position within the
/// track, then by track: the order in which the tracks' events, listed track by
/// track, come out of a stable sort by tick and position.
pub fn song_events(tracks: &Vec<Vec<TrackEvent>>) -> (events: Vec<TimedEvent>)
    requires
        ticks_fit(tracks_view(tracks@)),
    ensures
        forall|k: int| 0 <= k < events@.len() ==> is_song_event(tracks_view(tracks@), #[trigger] events@[k]),
        forall|e: TimedEvent| #[trigger] is_song_event(tracks_view(tracks@), e) ==> events@.contains(e),
        events_sorted(events@),
        forall|i: int, j: int| 0 <= i < j < events@.len() ==> {
            let p = #[trigger] events@[i];
            let q = #[trigger] events@[j];
            ||| p.tick < q.tick
            ||| p.tick == q.tick && p.index < q.index
            ||| p.tick == q.tick && p.index == q.index && p.track < q.track
        },
        forall|k: int| 0 <= k < events@.len() ==> (#[trigger] events@[k]).tick as int
            == delta_sum(tracks@[events@[k].track as int]@.take(events@[k].index + 1)),
{
    let ghost tv = tracks_view(tracks@);
    let mut acc: Vec<TimedEvent> = Vec::new();
    let mut t: usize = 0;
    while t < tracks.len()
        invariant
            tv == tracks_view(tracks@),
            t <= tracks@.len(),
            ticks_fit(tv),
            events_sorted(acc@),
            forall|k: int| 0 <= k < acc@.len() ==> is_song_event(tv, #[trigger] acc@[k]) && acc@[k].track < t,
            forall|e: TimedEvent| #[trigger] is_song_event(tv, e) && e.track < t ==> acc@.contains(e),
        decreases tracks@.len() - t,
    {
        assert(tv[t as int] == tracks@[t as int]@);
        assert(end_tick(tv[t as int]) <= u64::MAX);
        let te = track_events(&tracks[t], t);
        let ghost acc0 = acc@;
        let ghost te0 = te@;
        acc = merge_events(acc, te);
        proof {
            assert forall|k: int| 0 <= k < acc@.len() implies is_song_event(tv, #[trigger] acc@[k]) && acc@[k].track < t + 1 by {
                assert(acc@.contains(acc@[k]));
                if acc0.contains(acc@[k]) {
                    let l = choose|l: int| 0 <= l < acc0.len() && acc0[l] == acc@[k];
                    assert(is_song_event(tv, acc0[l]));
                } else {
                    let l = choose|l: int| 0 <= l < te0.len() && te0[l] == acc@[k];
                    assert(te0[l].track == t);
                }
            }
            assert forall|e: TimedEvent| #[trigger] is_song_event(tv, e) && e.track < t + 1 implies acc@.contains(e) by {
                if e.track == t {
                    let m = e.index as int;
                    assert(action_of(tracks@[t as int]@[m].kind) is Some);
                    assert(te0.contains(TimedEvent { tick: tick_at(tracks@[t as int]@, m) as u64, index: m as usize, track: t,
                        action: action_of(tracks@[t as int]@[m].kind)->0 }));
                } else {
                    assert(acc0.contains(e));
                }
            }
        }
        t += 1;
    }
    proof {
        assert forall|k: int| 0 <= k < acc@.len() implies (#[trigger] acc@[k]).tick as int
            == delta_sum(tracks@[acc@[k].track as int]@.take(acc@[k].index + 1)) by {
            assert(is_song_event(tv, acc@[k]));
            assert(tv[acc@[k].track as int] == tracks@[acc@[k].track as int]@);
            law_tick_is_delta_sum(tracks@[acc@[k].track as int]@, acc@[k].index as int);
        }
        law_song_events_order(acc@);
    }
    acc
}

/// Law: song events come out as a stable sort by (tick, position in the track) of
/// the events listed track by track: ordered by tick, then position, then track.
pub proof fn law_song_events_order(events: Seq<TimedEvent>)
    requires
        events_sorted(events),
    ensures
        forall|i: int, j: int| 0 <= i < j < events.len() ==> {
            let p = #[trigger] events[i];
            let q = #[trigger] events[j];
            ||| p.tick < q.tick
            ||| p.tick == q.tick && p.index < q.index
            ||| p.tick == q.tick && p.index == q.index && p.track < q.track
        },
{
    assert forall|i: int, j: int| 0 <= i < j < events.len() implies {
        let p = #[trigger] events[i];
        let q = #[trigger] events[j];
        ||| p.tick < q.tick
        ||| p.tick == q.tick && p.index < q.index
        ||| p.tick == q.tick && p.index == q.index && p.track < q.track
    } by {
        assert(event_before(events[i], events[j]));
    }
}

/// A note of the song: started by event `on`, stopped by event `off` (`None`
/// when nothing stops it before the song ends), on `(channel, key)`.
#[derive(Clone, Copy, Debug, PartialEq, Eq, Structural)]
pub struct NoteSpan {
    pub on: usize,
    pub off: Option<usize>,
    pub channel: u8,
    pub key: u8,
}

/// Action `a` starts or stops a note on `(c, k)`.
pub open spec fn touches(a: Action, c: u8, k: u8) -> bool {
    a == Action::On(c, k) || a == Action::Off(c, k)
}

/// No event strictly between `lo` and `hi` starts or stops a note on `(c, k)`.
pub open spec fn quiet_between(evs: Seq<TimedEvent>, c: u8, k: u8, lo: int, hi: int) -> bool {
    forall|m: int| lo < m < hi ==> !touches(#[trigger] evs[m].action, c, k)
}

/// `n` is a note that a stop event ends: it starts at `n.on`, and `n.off` is the
/// first event after it that starts or stops a note on the same key, a stop.
pub open spec fn completes(evs: Seq<TimedEvent>, n: NoteSpan) -> bool {
    &&& n.off is Some
    &&& n.on < n.off->0 < evs.len()
    &&& evs[n.on as int].action == Action::On(n.channel, n.key)
    &&& evs[n.off->0 as int].action == Action::Off(n.channel, n.key)
    &&& quiet_between(evs, n.channel, n.key, n.on as int, n.off->0 as int)
}

/// `n` is a note still sounding when the song ends: no later event starts or stops its key.
pub open spec fn dangles(evs: Seq<TimedEvent>, n: NoteSpan) -> bool {
    &&& n.off is None
    &&& n.on < evs.len()
    &&& evs[n.on as int].action == Action::On(n.channel, n.key)
    &&& quiet_between(evs, n.channel, n.key, n.on as int, evs.len() as int)
}

/// Order of the notes: stopped notes by their stop event, then notes still
/// sounding by channel and key.
pub open spec fn note_before(p: NoteSpan, q: NoteSpan) -> bool {
    match (p.off, q.off) {
        (Some(a), Some(b)) => a < b,
        (Some(_), None) => true,
        (None, Some(_)) => false,
        (None, None) => p.channel < q.channel || (p.channel == q.channel && p.key < q.key),
    }
}

/// `notes` lists every note of the song exactly once, in `note_before` order.
pub open spec fn song_notes(evs: Seq<TimedEvent>, notes: Seq<NoteSpan>) -> bool {
    &&& forall|i: int| 0 <= i < notes.len() ==> completes(evs, #[trigger] notes[i]) || dangles(evs, notes[i])
    &&& forall|n: NoteSpan| completes(evs, n) || dangles(evs, n) ==> #[trigger] notes.contains(n)
    &&& forall|i: int, j: int| 0 <= i < j < notes.len() ==> note_before(#[trigger] notes[i], #[trigger] notes[j])
}

/// A table entry for key `(c, k)` after `n` events: the start of the note sounding on it, if any.
pub open spec fn entry_ok(evs: Seq<TimedEvent>, entry: Option<usize>, c: u8, k: u8, n: int) -> bool {
    match entry {
        Some(i) => i < n && evs[i as int].action == Action::On(c, k) && quiet_between(evs, c, k, i as int, n),
        None => true,
    }
}

/// Position of key `(c, k)` in the table of sounding notes.
pub open spec fn slot(c: u8, k: u8) -> int {
    c * 256 + k
}

/// Pairs each note start with the stop that ends it. A start on a key that is
/// already sounding restarts the note (the earlier start is dropped), a stop on a
/// key that is not sounding is ignored, and notes still sounding at the end are
/// listed after the stopped ones.
#[verifier::rlimit(50)]
pub fn pair_notes(events: &Vec<TimedEvent>) -> (notes: Vec<NoteSpan>)
    ensures
        song_notes(events@, notes@),
{
    let ghost evs = events@;
    let mut table: Vec<Option<usize>> = Vec::new();
    let mut s: usize = 0;
    while s < 65536
        invariant
            s <= 65536,
            table@.len() == s,
            forall|i: int| 0 <= i < s ==> #[trigger] table@[i] is None,
        decreases 65536 - s,
    {
        table.push(None);
        s += 1;
    }
    let mut notes: Vec<NoteSpan> = Vec::new();
    let mut n: usize = 0;
    while n < events.len()
        invariant
            evs == events@,
            n <= evs.len(),
            table@.len() == 65536,
            forall|c: u8, k: u8| entry_ok(evs, #[trigger] table@[slot(c, k)], c, k, n as int),
            forall|c: u8, k: u8, i: int| 0 <= i < n && evs[i].action == Action::On(c, k)
                && #[trigger] quiet_between(evs, c, k, i, n as int) ==> table@[slot(c, k)] == Some(i as usize),
            forall|t: int| 0 <= t < notes@.len() ==> completes(evs, #[trigger] notes@[t]) && notes@[t].off->0 < n,
            forall|m: NoteSpan| completes(evs, m) && m.off->0 < n ==> #[trigger] notes@.contains(m),
            forall|t: int, u: int| 0 <= t < u < notes@.len() ==> note_before(#[trigger] notes@[t], #[trigger] notes@[u]),
        decreases evs.len() - n,
    {
        let ghost table0 = table@;
        let ghost notes0 = notes@;
        let ev = events[n];
        match ev.action {
            Action::On(c, k) => {
                let sl = c as usize * 256 + k as usize;
                assert(sl as int == slot(c, k));
                table.set(sl, Some(n));
                proof {
                    assert forall|c2: u8, k2: u8| entry_ok(evs, #[trigger] table@[slot(c2, k2)], c2, k2, n + 1) by {
                        if slot(c2, k2) != sl {
                            assert(table@[slot(c2, k2)] == table0[slot(c2, k2)]);
                            assert(c2 != c || k2 != k);
                        } else {
                            assert(c2 == c && k2 == k);
                        }
                    }
                    assert forall|c2: u8, k2: u8, i: int| 0 <= i < n + 1 && evs[i].action == Action::On(c2, k2)
                        && #[trigger] quiet_between(evs, c2, k2, i, n + 1) implies table@[slot(c2, k2)] == Some(i as usize) by {
                        if c2 == c && k2 == k {
                            if i < n {
                                assert(touches(evs[n as int].action, c2, k2));
                            }
                        } else {
                            assert(slot(c2, k2) != sl);
                            if i == n {
                                assert(false);
                            }
                            assert(quiet_between(evs, c2, k2, i, n as int));
                        }
                    }
                    assert forall|m: NoteSpan| completes(evs, m) && m.off->0 < n + 1 implies #[trigger] notes@.contains(m) by {
                        assert(m.off->0 != n);
                    }
                }
            },
            Action::Off(c, k) => {
                let sl = c as usize * 256 + k as usize;
                assert(sl as int == slot(c, k));
                assert(entry_ok(evs, table@[slot(c, k)], c, k, n as int));
                match table[sl] {
                    Some(i) => {
                        let note = NoteSpan { on: i, off: Some(n), channel: c, key: k };
                        assert(completes(evs, note));
                        notes.push(note);
                        table.set(sl, None);
                        proof {
                            assert forall|c2: u8, k2: u8| entry_ok(evs, #[trigger] table@[slot(c2, k2)], c2, k2, n + 1) by {
                                if c2 != c || k2 != k {
                                    assert(slot(c2, k2) != sl);
                                    assert(table@[slot(c2, k2)] == table0[slot(c2, k2)]);
                                    assert(entry_ok(evs, table0[slot(c2, k2)], c2, k2, n as int));
                                }
                            }
                            assert forall|c2: u8, k2: u8, i2: int| 0 <= i2 < n + 1 && evs[i2].action == Action::On(c2, k2)
                                && #[trigger] quiet_between(evs, c2, k2, i2, n + 1) implies table@[slot(c2, k2)] == Some(i2 as usize) by {
                                if c2 == c && k2 == k {
                                    assert(touches(evs[n as int].action, c2, k2));
                                } else {
                                    assert(slot(c2, k2) != sl);
                                    assert(quiet_between(evs, c2, k2, i2, n as int));
                                }
                            }
                            assert forall|m: NoteSpan| completes(evs, m) && m.off->0 < n + 1 implies #[trigger] notes@.contains(m) by {
                                if m.off->0 == n {
                                    assert(m.channel == c && m.key == k);
                                    assert(quiet_between(evs, c, k, m.on as int, n as int));
                                    assert(table0[slot(c, k)] == Some(m.on));
                                    assert(m == note);
                                    assert(notes@[notes0.len() as int] == note);
                                } else {
                                    assert(notes0.contains(m));
                                    let t = choose|t: int| 0 <= t < notes0.len() && notes0[t] == m;
                                    assert(notes@[t] == m);
                                }
                            }
                            assert forall|t: int, u: int| 0 <= t < u < notes@.len() implies note_before(#[trigger] notes@[t], #[trigger] notes@[u]) by {
                                assert(notes@[t] == notes0[t]);
                                if u < notes0.len() {
                                    assert(notes@[u] == notes0[u]);
                                }
                            }
                        }
                    },
                    None => {
                        proof {
                            assert forall|m: NoteSpan| completes(evs, m) && m.off->0 < n + 1 implies #[trigger] notes@.contains(m) by {
                                if m.off->0 == n {
                                    assert(m.channel == c && m.key == k);
                                    assert(quiet_between(evs, c, k, m.on as int, n as int));
                                    assert(table@[slot(c, k)] == Some(m.on));
                                }
                            }
                            assert forall|c2: u8, k2: u8, i2: int| 0 <= i2 < n + 1 && evs[i2].action == Action::On(c2, k2)
                                && #[trigger] quiet_between(evs, c2, k2, i2, n + 1) implies table@[slot(c2, k2)] == Some(i2 as usize) by {
                                assert(quiet_between(evs, c2, k2, i2, n as int));
                            }
                        }
                    },
                }
            },
            Action::Tempo(_) => {
                proof {
                    assert forall|m: NoteSpan| completes(evs, m) && m.off->0 < n + 1 implies #[trigger] notes@.contains(m) by {
                        assert(m.off->0 != n);
                    }
                    assert forall|c2: u8, k2: u8, i2: int| 0 <= i2 < n + 1 && evs[i2].action == Action::On(c2, k2)
                        && #[trigger] quiet_between(evs, c2, k2, i2, n + 1) implies table@[slot(c2, k2)] == Some(i2 as usize) by {
                        assert(quiet_between(evs, c2, k2, i2, n as int));
                    }
                }
            },
        }
        n += 1;
    }
    let ghost stopped = notes@;
    let mut s: usize = 0;
    while s < 65536
        invariant
            evs == events@,
            n == evs.len(),
            s <= 65536,
            table@.len() == 65536,
            forall|c: u8, k: u8| entry_ok(evs, #[trigger] table@[slot(c, k)], c, k, n as int),
            forall|c: u8, k: u8, i: int| 0 <= i < n && evs[i].action == Action::On(c, k)
                && #[trigger] quiet_between(evs, c, k, i, n as int) ==> table@[slot(c, k)] == Some(i as usize),
            forall|t: int| 0 <= t < notes@.len() ==> completes(evs, #[trigger] notes@[t])
                || (dangles(evs, notes@[t]) && slot(notes@[t].channel, notes@[t].key) < s),
            forall|m: NoteSpan| completes(evs, m) ==> #[trigger] notes@.contains(m),
            forall|m: NoteSpan| dangles(evs, m) && slot(m.channel, m.key) < s ==> #[trigger] notes@.contains(m),
            forall|t: int, u: int| 0 <= t < u < notes@.len() ==> note_before(#[trigger] notes@[t], #[trigger] notes@[u]),
        decreases 65536 - s,
    {
        let c = (s / 256) as u8;
        let k = (s % 256) as u8;
        assert(slot(c, k) == s as int);
        let ghost notes0 = notes@;
        assert(entry_ok(evs, table@[slot(c, k)], c, k, n as int));
        match table[s] {
            Some(i) => {
                let note = NoteSpan { on: i, off: None, channel: c, key: k };
                assert(dangles(evs, note));
                notes.push(note);
                proof {
                    assert forall|t: int, u: int| 0 <= t < u < notes@.len() implies note_before(#[trigger] notes@[t], #[trigger] notes@[u]) by {
                        assert(notes@[t] == notes0[t]);
                        if u < notes0.len() {
                            assert(notes@[u] == notes0[u]);
                        } else {
                            if notes0[t].off is None {
                                assert(dangles(evs, notes0[t]));
                                assert(slot(notes0[t].channel, notes0[t].key) < s);
                            }
                        }
                    }
                    assert forall|m: NoteSpan| completes(evs, m) implies #[trigger] notes@.contains(m) by {
                        assert(notes0.contains(m));
                        let t = choose|t: int| 0 <= t < notes0.len() && notes0[t] == m;
                        assert(notes@[t] == m);
                    }
                    assert forall|m: NoteSpan| dangles(evs, m) && slot(m.channel, m.key) < s + 1 implies #[trigger] notes@.contains(m) by {
                        if slot(m.channel, m.key) == s {
                            assert(m.channel == c && m.key == k);
                            assert(table@[slot(c, k)] == Some(m.on));
                            assert(m == note);
                            assert(notes@[notes0.len() as int] == m);
                        } else {
                            assert(notes0.contains(m));
                            let t = choose|t: int| 0 <= t < notes0.len() && notes0[t] == m;
                            assert(notes@[t] == m);
                        }
                    }
                }
            },
            None => {
                proof {
                    assert forall|m: NoteSpan| dangles(evs, m) && slot(m.channel, m.key) < s + 1 implies #[trigger] notes@.contains(m) by {
                        if slot(m.channel, m.key) == s {
                            assert(m.channel == c && m.key == k);
                            assert(table@[slot(c, k)] == Some(m.on));
                        }
                    }
                }
            },
        }
        s += 1;
    }
    proof {
        assert forall|m: NoteSpan| completes(evs, m) || dangles(evs, m) implies #[trigger] notes@.contains(m) by {
            if dangles(evs, m) {
                assert(slot(m.channel, m.key) < 65536);
            }
        }
    }
    notes
}

/// Law: every note lies between its start and its stop, and no start event begins
/// two notes.
pub proof fn lemma_notes_distinct_starts(evs: Seq<TimedEvent>, notes: Seq<NoteSpan>, i: int, j: int)
    requires
        song_notes(evs, notes),
        0 <= i < j < notes.len(),
    ensures
        notes[i].on != notes[j].on,
        notes[i].off matches Some(stop) ==> notes[i].on < stop,
{
    let p = notes[i];
    let q = notes[j];
    assert(completes(evs, p) || dangles(evs, p));
    assert(completes(evs, q) || dangles(evs, q));
    assert(note_before(p, q));
    if p.on == q.on {
        assert(p.channel == q.channel && p.key == q.key);
        match (p.off, q.off) {
            (Some(a), Some(b)) => {
                assert(touches(evs[a as int].action, p.channel, p.key));
            },
            (Some(a), None) => {
                assert(touches(evs[a as int].action, p.channel, p.key));
            },
            (None, Some(b)) => {},
            (None, None) => {},
        }
    }
}

/// Law: how starts and stops pair into notes, over the events themselves.
/// - A stopped note starts with `On(c, k)`, stops with `Off(c, k)` later, and no event
///   in between starts or stops `(c, k)`.
/// - A note still sounding starts with `On(c, k)` and no later event starts or stops `(c, k)`.
/// - Every such start/stop pair, and every such last start, is a note.
/// - Stopped notes come first, in the order of their stops; then the sounding ones by
///   channel and key.
pub proof fn law_note_pairing(evs: Seq<TimedEvent>, notes: Seq<NoteSpan>)
    requires
        song_notes(evs, notes),
        evs.len() <= usize::MAX,
    ensures
        forall|t: int| 0 <= t < notes.len() && (#[trigger] notes[t]).off is Some ==> {
            let n = notes[t];
            let j = n.off->0 as int;
            &&& n.on < j < evs.len()
            &&& evs[n.on as int].action == Action::On(n.channel, n.key)
            &&& evs[j].action == Action::Off(n.channel, n.key)
            &&& forall|m: int| n.on < m < j ==> #[trigger] evs[m].action != Action::On(n.channel, n.key)
                && evs[m].action != Action::Off(n.channel, n.key)
        },
        forall|t: int| 0 <= t < notes.len() && (#[trigger] notes[t]).off is None ==> {
            let n = notes[t];
            &&& n.on < evs.len()
            &&& evs[n.on as int].action == Action::On(n.channel, n.key)
            &&& forall|m: int| n.on < m < evs.len() ==> #[trigger] evs[m].action != Action::On(n.channel, n.key)
                && evs[m].action != Action::Off(n.channel, n.key)
        },
        forall|i: int, j: int, c: u8, k: u8|
            0 <= i < j < evs.len() && evs[i].action == Action::On(c, k) && evs[j].action == Action::Off(c, k)
            && (forall|m: int| i < m < j ==> #[trigger] evs[m].action != Action::On(c, k) && evs[m].action != Action::Off(c, k))
            ==> #[trigger] notes.contains(NoteSpan { on: i as usize, off: Some(j as usize), channel: c, key: k }),
        forall|i: int, c: u8, k: u8|
            0 <= i < evs.len() && evs[i].action == Action::On(c, k)
            && (forall|m: int| i < m < evs.len() ==> #[trigger] evs[m].action != Action::On(c, k) && evs[m].action != Action::Off(c, k))
            ==> #[trigger] notes.contains(NoteSpan { on: i as usize, off: None, channel: c, key: k }),
        forall|t: int, u: int| 0 <= t < u < notes.len() ==> {
            let p = #[trigger] notes[t];
            let q = #[trigger] notes[u];
            ||| p.off is Some && q.off is Some && p.off->0 < q.off->0
            ||| p.off is Some && q.off is None
            ||| p.off is None && q.off is None && (p.channel < q.channel || (p.channel == q.channel && p.key < q.key))
        },
{
    assert forall|t: int| 0 <= t < notes.len() && (#[trigger] notes[t]).off is Some implies {
        let n = notes[t];
        let j = n.off->0 as int;
        &&& n.on < j < evs.len()
        &&& evs[n.on as int].action == Action::On(n.channel, n.key)
        &&& evs[j].action == Action::Off(n.channel, n.key)
        &&& forall|m: int| n.on < m < j ==> #[trigger] evs[m].action != Action::On(n.channel, n.key)
            && evs[m].action != Action::Off(n.channel, n.key)
    } by {
        let n = notes[t];
        assert(completes(evs, n));
        assert forall|m: int| n.on < m < n.off->0 implies #[trigger] evs[m].action != Action::On(n.channel, n.key)
            && evs[m].action != Action::Off(n.channel, n.key) by {
            assert(!touches(evs[m].action, n.channel, n.key));
        }
    }
    assert forall|t: int| 0 <= t < notes.len() && (#[trigger] notes[t]).off is None implies {
        let n = notes[t];
        &&& n.on < evs.len()
        &&& evs[n.on as int].action == Action::On(n.channel, n.key)
        &&& forall|m: int| n.on < m < evs.len() ==> #[trigger] evs[m].action != Action::On(n.channel, n.key)
            && evs[m].action != Action::Off(n.channel, n.key)
    } by {
        let n = notes[t];
        assert(dangles(evs, n));
        assert forall|m: int| n.on < m < evs.len() implies #[trigger] evs[m].action != Action::On(n.channel, n.key)
            && evs[m].action != Action::Off(n.channel, n.key) by {
            assert(!touches(evs[m].action, n.channel, n.key));
        }
    }
    assert forall|i: int, j: int, c: u8, k: u8|
        0 <= i < j < evs.len() && evs[i].action == Action::On(c, k) && evs[j].action == Action::Off(c, k)
        && (forall|m: int| i < m < j ==> #[trigger] evs[m].action != Action::On(c, k) && evs[m].action != Action::Off(c, k))
        implies #[trigger] notes.contains(NoteSpan { on: i as usize, off: Some(j as usize), channel: c, key: k }) by {
        let n = NoteSpan { on: i as usize, off: Some(j as usize), channel: c, key: k };
        assert(quiet_between(evs, c, k, i, j));
        assert(completes(evs, n));
    }
    assert forall|i: int, c: u8, k: u8|
        0 <= i < evs.len() && evs[i].action == Action::On(c, k)
        && (forall|m: int| i < m < evs.len() ==> #[trigger] evs[m].action != Action::On(c, k) && evs[m].action != Action::Off(c, k))
        implies #[trigger] notes.contains(NoteSpan { on: i as usize, off: None, channel: c, key: k }) by {
        let n = NoteSpan { on: i as usize, off: None, channel: c, key: k };
        assert(quiet_between(evs, c, k, i, evs.len() as int));
        assert(dangles(evs, n));
    }
    assert forall|t: int, u: int| 0 <= t < u < notes.len() implies {
        let p = #[trigger] notes[t];
        let q = #[trigger] notes[u];
        ||| p.off is Some && q.off is Some && p.off->0 < q.off->0
        ||| p.off is Some && q.off is None
        ||| p.off is None && q.off is None && (p.channel < q.channel || (p.channel == q.channel && p.key < q.key))
    } by {
        assert(note_before(notes[t], notes[u]));
    }
}

/// Checks the precondition of `song_events`: no track's absolute ticks overflow `u64`.
pub fn ticks_in_range(tracks: &Vec<Vec<TrackEvent>>) -> (ok: bool)
    ensures
        ok == ticks_fit(tracks_view(tracks@)),
        ok == forall|t: int| 0 <= t < tracks@.len() ==> delta_sum((#[trigger] tracks@[t])@) <= u64::MAX,
{
    let ok = ticks_in_range_of(tracks);
    proof {
        let tv = tracks_view(tracks@);
        assert forall|t: int| 0 <= t < tracks@.len() implies end_tick(#[trigger] tv[t]) == delta_sum(tracks@[t]@) by {
            assert(tv[t] == tracks@[t]@);
            law_tick_is_delta_sum(tracks@[t]@, tracks@[t]@.len() - 1);
            assert(tracks@[t]@.take(tracks@[t]@.len() as int) =~= tracks@[t]@);
        }
        if ok {
            assert forall|t: int| 0 <= t < tracks@.len() implies delta_sum((#[trigger] tracks@[t])@) <= u64::MAX by {
                assert(end_tick(tv[t]) <= u64::MAX);
            }
        } else {
            let t = choose|t: int| 0 <= t < tv.len() && !(end_tick(#[trigger] tv[t]) <= u64::MAX);
            assert(delta_sum(tracks@[t]@) > u64::MAX);
        }
    }
    ok
}

fn ticks_in_range_of(tracks: &Vec<Vec<TrackEvent>>) -> (ok: bool)
    ensures
        ok == ticks_fit(tracks_view(tracks@)),
{
    let ghost tv = tracks_view(tracks@);
    let mut t: usize = 0;
    while t < tracks.len()
        invariant
            tv == tracks_view(tracks@),
            t <= tracks@.len(),
            forall|u: int| 0 <= u < t ==> end_tick(#[trigger] tv[u]) <= u64::MAX,
        decreases tracks@.len() - t,
    {
        let track = &tracks[t];
        assert(tv[t as int] == track@);
        let mut tick: u64 = 0;
        let mut i: usize = 0;
        while i < track.len()
            invariant
                tv == tracks_view(tracks@),
                t < tracks@.len(),
                tv[t as int] == track@,
                i <= track@.len(),
                tick == tick_at(track@, i - 1),
            decreases track@.len() - i,
        {
            match tick.checked_add(track[i].delta as u64) {
                Some(next) => tick = next,
                None => {
                    proof {
                        lemma_tick_monotone(track@, i as int, track@.len() - 1);
                    }
                    assert(end_tick(tv[t as int]) > u64::MAX);
                    return false;
                },
            }
            i += 1;
        }
        t += 1;
    }
    true
}

/// Number of collectible lanes sampled from a song.
pub const LANE_COUNT: usize = 24;

/// The note that lane `k` of `n` notes takes its pitch from: notes are sampled
/// evenly across the song, `k * n / LANE_COUNT`, capped at the last note.
pub open spec fn lane_source(k: int, n: int) -> int {
    if k * n / (LANE_COUNT as int) < n - 1 {
        k * n / (LANE_COUNT as int)
    } else {
        n - 1
    }
}

/// For each of the `LANE_COUNT` lanes, the index of the note it samples.
pub fn lane_sources(n: usize) -> (picks: Vec<usize>)
    requires
        n > 0,
    ensures
        picks@.len() == LANE_COUNT,
        forall|k: int| 0 <= k < LANE_COUNT ==> #[trigger] picks@[k] as int == lane_source(k, n as int),
        forall|k: int| 0 <= k < 24 ==> #[trigger] picks@[k] as int == (if k * n / 24 < n - 1 {
            k * n / 24
        } else {
            n - 1
        }),
{
    let mut picks: Vec<usize> = Vec::new();
    let mut k: usize = 0;
    while k < LANE_COUNT
        invariant
            n > 0,
            k <= LANE_COUNT,
            picks@.len() == k,
            forall|j: int| 0 <= j < k ==> #[trigger] picks@[j] as int == lane_source(j, n as int),
        decreases LANE_COUNT - k,
    {
        proof {
            assert(0 <= (k as int) * (n as int) <= 24 * (n as int)) by (nonlinear_arith)
                requires 0 <= k < 24, n > 0;
        }
        let q: u128 = (k as u128) * (n as u128) / 24;
        let idx: usize = if q < (n - 1) as u128 { q as usize } else { n - 1 };
        picks.push(idx);
        k += 1;
    }
    picks
}

/// Law: the lanes sample existing notes, in song order.
pub proof fn lemma_lane_sources_ordered(n: int, k: int, l: int)
    requires
        n > 0,
        0 <= k <= l < LANE_COUNT,
    ensures
        0 <= lane_source(k, n) <= lane_source(l, n) < n,
{
    assert(0 <= k * n <= l * n) by (nonlinear_arith)
        requires 0 <= k <= l, n > 0;
    assert(k * n / 24 <= l * n / 24) by (nonlinear_arith)
        requires 0 <= k * n <= l * n;
    assert(0 <= k * n / 24) by (nonlinear_arith)
        requires 0 <= k * n;
}

/// Law: lane `k` samples note `min(k * n / 24, n - 1)`, so the lanes spread over the
/// whole song: the last lane samples a note at or after `23 * n / 24 - 1`.
pub proof fn law_lanes_span_song(n: int, k: int)
    requires
        n > 0,
        0 <= k < LANE_COUNT,
    ensures
        lane_source(k, n) == (if k * n / 24 < n - 1 { k * n / 24 } else { n - 1 }),
        lane_source(23, n) >= 23 * n / 24 - 1,
        lane_source(k, n) <= k * n / 24,
{
}

/// The glyph (0 for 'a' to 25 for 'z') that stands for MIDI pitch `m`.
pub fn pitch_glyph(m: u8) -> (g: i32)
    ensures
        g as int == m as int % 26,
{
    (m % 26) as i32
}

} // verus!
