use vstd::prelude::*;
use midly::{MetaMessage, MidiMessage, TrackEventKind};
use crate::midi::{EventKind, Fps, Timing, TrackEvent, tracks_view};

verus! {

/// A parsed Standard MIDI File (`midly::Smf`), borrowing the bytes it was parsed from.
#[verifier::external_type_specification]
#[verifier::external_body]
pub struct ExSmf<'a>(midly::Smf<'a>);

/// What `midly::Smf::parse` makes of `data`: `None` when it rejects the bytes,
/// else the file's timing and the events of its tracks.
pub uninterp spec fn midi_parse(data: Seq<u8>) -> Option<(Timing, Seq<Seq<TrackEvent>>)>;

/// The timing that a parsed file holds.
pub uninterp spec fn smf_timing(smf: midly::Smf) -> Timing;

/// The events that the tracks of a parsed file hold.
pub uninterp spec fn smf_tracks(smf: midly::Smf) -> Seq<Seq<TrackEvent>>;

/// Calls `midly::Smf::parse`. Claimed: it accepts exactly the bytes for which
/// `midi_parse` is `Some`, and the file it returns holds that timing and those
/// tracks. The error is rendered as text, of which nothing is claimed.
#[verifier::external_body]
fn smf_parse<'a>(data: &'a [u8]) -> (r: Result<midly::Smf<'a>, String>)
    ensures
        r is Ok <==> midi_parse(data@) is Some,
        r matches Ok(smf) ==> midi_parse(data@) == Some((smf_timing(smf), smf_tracks(smf))),
{
    midly::Smf::parse(data).map_err(|e| e.to_string())
}

/// Reads `header.timing` of a parsed file, as the library's `Timing`.
#[verifier::external_body]
fn smf_timing_of(smf: &midly::Smf) -> (t: Timing)
    ensures
        t == smf_timing(*smf),
{
    match smf.header.timing {
        midly::Timing::Metrical(tpb) => Timing::Metrical(tpb.as_int()),
        midly::Timing::Timecode(midly::Fps::Fps24, sub) => Timing::Timecode(Fps::Fps24, sub),
        midly::Timing::Timecode(midly::Fps::Fps25, sub) => Timing::Timecode(Fps::Fps25, sub),
        midly::Timing::Timecode(midly::Fps::Fps29, sub) => Timing::Timecode(Fps::Fps29, sub),
        midly::Timing::Timecode(midly::Fps::Fps30, sub) => Timing::Timecode(Fps::Fps30, sub),
    }
}

/// The number of tracks of a parsed file (`tracks.len()`).
#[verifier::external_body]
fn smf_track_count(smf: &midly::Smf) -> (n: usize)
    ensures
        n == smf_tracks(*smf).len(),
{
    smf.tracks.len()
}

/// The number of events of track `t` of a parsed file.
#[verifier::external_body]
fn smf_track_len(smf: &midly::Smf, t: usize) -> (n: usize)
    requires
        t < smf_tracks(*smf).len(),
    ensures
        n == smf_tracks(*smf)[t as int].len(),
{
    smf.tracks[t].len()
}

/// Event `i` of track `t` of a parsed file: its delta (`u28::as_int`) and its kind,
/// note-on and note-off messages with their channel, key and velocity, tempo meta
/// events with their microseconds per beat, and every other event as `Other`.
#[verifier::external_body]
fn smf_event(smf: &midly::Smf, t: usize, i: usize) -> (e: TrackEvent)
    requires
        t < smf_tracks(*smf).len(),
        i < smf_tracks(*smf)[t as int].len(),
    ensures
        e == smf_tracks(*smf)[t as int][i as int],
{
    let ev = &smf.tracks[t][i];
    let kind = match ev.kind {
        TrackEventKind::Midi { channel, message: MidiMessage::NoteOn { key, vel } } =>
            EventKind::NoteOn { channel: channel.as_int(), key: key.as_int(), vel: vel.as_int() },
        TrackEventKind::Midi { channel, message: MidiMessage::NoteOff { key, .. } } =>
            EventKind::NoteOff { channel: channel.as_int(), key: key.as_int() },
        TrackEventKind::Meta(MetaMessage::Tempo(us)) => EventKind::Tempo(us.as_int()),
        _ => EventKind::Other,
    };
    TrackEvent { delta: ev.delta.as_int(), kind }
}

/// A MIDI file as song conversion reads it.
pub struct MidiFile {
    pub timing: Timing,
    pub tracks: Vec<Vec<TrackEvent>>,
}

/// Parses a Standard MIDI File. Succeeds exactly when `midly` accepts the bytes,
/// and then holds the timing and every event of every track, in order.
pub fn read_midi(data: &[u8]) -> (r: Result<MidiFile, String>)
    ensures
        r is Ok <==> midi_parse(data@) is Some,
        r matches Ok(m) ==> midi_parse(data@) == Some((m.timing, tracks_view(m.tracks@))),
{
    match smf_parse(data) {
        Err(msg) => Err(msg),
        Ok(smf) => {
            let timing = smf_timing_of(&smf);
            let n = smf_track_count(&smf);
            let mut tracks: Vec<Vec<TrackEvent>> = Vec::new();
            let mut t: usize = 0;
            while t < n
                invariant
                    n == smf_tracks(smf).len(),
                    t <= n,
                    tracks@.len() == t,
                    forall|u: int| 0 <= u < t ==> (#[trigger] tracks@[u])@ == smf_tracks(smf)[u],
                decreases n - t,
            {
                let len = smf_track_len(&smf, t);
                let mut track: Vec<TrackEvent> = Vec::new();
                let mut i: usize = 0;
                while i < len
                    invariant
                        n == smf_tracks(smf).len(),
                        t < n,
                        len == smf_tracks(smf)[t as int].len(),
                        i <= len,
                        track@ == smf_tracks(smf)[t as int].subrange(0, i as int),
                    decreases len - i,
                {
                    let e = smf_event(&smf, t, i);
                    track.push(e);
                    i += 1;
                }
                assert(track@ == smf_tracks(smf)[t as int]);
                tracks.push(track);
                t += 1;
            }
            let file = MidiFile { timing, tracks };
            assert(tracks_view(file.tracks@) =~= smf_tracks(smf));
            Ok(file)
        },
    }
}

} // verus!
