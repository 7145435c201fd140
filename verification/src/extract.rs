//! Note extraction: normalizes per-track timed MIDI events into a flat,
//! time-ordered list of notes rescaled to the canonical tick rate and
//! snapped to the grid, plus a tempo-change timeline.

use vstd::prelude::*;
use crate::lengths::spec_snap_to_grid;
use crate::lengths::snap_to_grid;
use crate::types::Note;
use crate::types::note_wf;
use crate::types::TempoChange;
use crate::types::TICK_LIMIT;

verus! {

/// A timed event of one MIDI track, already parsed out of the container.
#[derive(Clone, Copy, PartialEq, Eq, Structural)]
pub struct TimedEvent {
    /// Ticks since the previous event of the same track.
    pub delta: u32,
    /// What happened.
    pub kind: EventKind,
}

/// The event kinds the extractor reads; everything else is `Other`.
#[derive(Clone, Copy, PartialEq, Eq, Structural)]
pub enum EventKind {
    /// A tempo meta event, in microseconds per beat.
    Tempo(u32),
    /// A key pressed (a note-on with velocity zero releases instead).
    NoteOn { channel: u8, key: u8, velocity: u8 },
    /// A key released.
    NoteOff { channel: u8, key: u8 },
    /// An instrument change on a channel.
    ProgramChange { channel: u8, program: u8 },
    /// Any event the extractor ignores.
    Other,
}

/// The timing reference of the source.
#[derive(Clone, Copy, PartialEq, Eq, Structural)]
pub enum Timing {
    /// Metrical timing: ticks per beat.
    Metrical(u16),
    /// A timecode-based reference, which the pipeline does not support.
    NonMetrical,
}

/// Why a conversion failed.
#[derive(Debug)]
pub enum MmlError {
    /// The container could not be parsed.
    ParseError(String),
    /// The source uses a non-metrical timing reference.
    UnsupportedTimingFormat,
}

/// Abstract view of a track list.
pub open spec fn tracks_view(ts: Seq<Vec<TimedEvent>>) -> Seq<Seq<TimedEvent>> {
    ts.map_values(|t: Vec<TimedEvent>| t@)
}

/// Total delta time of a track.
pub open spec fn sum_deltas(t: Seq<TimedEvent>) -> int
    decreases t.len(),
{
    if t.len() == 0 {
        0
    } else {
        sum_deltas(t.drop_last()) + t.last().delta
    }
}

/// Rescaling from source ticks per beat to the canonical rate, rounding to
/// the nearest tick.
pub open spec fn spec_rescale(x: int, tpb: int) -> int
    recommends
        tpb > 0,
{
    (2 * x * 384 + tpb) / (2 * tpb)
}

/// Integer beats per minute for a tempo in microseconds per beat, rounded
/// to the nearest integer; a zero tempo saturates.
pub open spec fn spec_bpm_of(us: u32) -> u32 {
    if us == 0 {
        u32::MAX
    } else {
        ((120_000_000 + us) / (2 * us as int)) as u32
    }
}

/// The tempo events of one track, as source ticks and rounded BPM, in
/// order of appearance.
pub open spec fn track_tempos(t: Seq<TimedEvent>, tick0: int) -> Seq<(int, u32)>
    decreases t.len(),
{
    if t.len() == 0 {
        Seq::empty()
    } else {
        let tick = tick0 + t[0].delta;
        let here: Seq<(int, u32)> = match t[0].kind {
            EventKind::Tempo(us) => seq![(tick, spec_bpm_of(us))],
            _ => Seq::empty(),
        };
        here + track_tempos(t.drop_first(), tick)
    }
}

/// The tempo events of all tracks, concatenated in track order.
pub open spec fn all_tempos(ts: Seq<Seq<TimedEvent>>) -> Seq<(int, u32)>
    decreases ts.len(),
{
    if ts.len() == 0 {
        Seq::empty()
    } else {
        track_tempos(ts[0], 0) + all_tempos(ts.drop_first())
    }
}

/// Inserts a tempo event into a tick-sorted list, after entries with the
/// same tick.
pub open spec fn insert_tempo(s: Seq<(int, u32)>, x: (int, u32)) -> Seq<(int, u32)>
    decreases s.len(),
{
    if s.len() == 0 {
        seq![x]
    } else if x.0 < s[0].0 {
        seq![x] + s
    } else {
        seq![s[0]] + insert_tempo(s.drop_first(), x)
    }
}

/// Stable sort of tempo events by tick.
pub open spec fn sort_tempos(s: Seq<(int, u32)>) -> Seq<(int, u32)>
    decreases s.len(),
{
    if s.len() == 0 {
        s
    } else {
        insert_tempo(sort_tempos(s.drop_last()), s.last())
    }
}

/// The entries after a kept one, dropping those that repeat its tick.
pub open spec fn dedup_tempos_rest(s: Seq<(int, u32)>, last_tick: int) -> Seq<(int, u32)>
    decreases s.len(),
{
    if s.len() == 0 {
        s
    } else if s[0].0 == last_tick {
        dedup_tempos_rest(s.drop_first(), last_tick)
    } else {
        seq![s[0]] + dedup_tempos_rest(s.drop_first(), s[0].0)
    }
}

/// Keeps the first entry of each run of equal ticks.
pub open spec fn dedup_tempos(s: Seq<(int, u32)>) -> Seq<(int, u32)> {
    if s.len() == 0 {
        s
    } else {
        seq![s[0]] + dedup_tempos_rest(s.drop_first(), s[0].0)
    }
}

/// The source's tempo events sorted by tick and deduplicated.
pub open spec fn source_tempos(ts: Seq<Seq<TimedEvent>>) -> Seq<(int, u32)> {
    dedup_tempos(sort_tempos(all_tempos(ts)))
}

/// The starting BPM: the first tempo event's, or 120 when there is none.
pub open spec fn spec_start_bpm(ts: Seq<Seq<TimedEvent>>) -> u32 {
    let st = source_tempos(ts);
    if st.len() == 0 {
        120
    } else {
        st[0].1
    }
}

/// A source tempo event rescaled and snapped to the canonical grid.
pub open spec fn convert_tempo(e: (int, u32), tpb: int) -> TempoChange {
    TempoChange { tick: spec_snap_to_grid(spec_rescale(e.0, tpb)) as u32, bpm: e.1 }
}

/// All source tempo events converted to canonical ticks.
pub open spec fn converted_tempos(s: Seq<(int, u32)>, tpb: int) -> Seq<TempoChange> {
    s.map_values(|e: (int, u32)| convert_tempo(e, tpb))
}

/// The entries after a kept converted tempo, dropping repeated ticks.
pub open spec fn dedup_converted_rest(s: Seq<TempoChange>, last_tick: u32) -> Seq<TempoChange>
    decreases s.len(),
{
    if s.len() == 0 {
        s
    } else if s[0].tick == last_tick {
        dedup_converted_rest(s.drop_first(), last_tick)
    } else {
        seq![s[0]] + dedup_converted_rest(s.drop_first(), s[0].tick)
    }
}

/// Converted tempo changes with repeated grid ticks dropped, keeping the
/// first at each tick.
pub open spec fn dedup_converted(s: Seq<TempoChange>) -> Seq<TempoChange> {
    if s.len() == 0 {
        s
    } else {
        seq![s[0]] + dedup_converted_rest(s.drop_first(), s[0].tick)
    }
}

/// The final tempo timeline of a conversion.
pub open spec fn spec_tempo_changes(ts: Seq<Seq<TimedEvent>>, tpb: int) -> Seq<TempoChange> {
    dedup_converted(converted_tempos(source_tempos(ts), tpb))
}

/// The running state of note pairing within one track.
pub struct TrackState {
    /// Per (channel, key): the source start tick and velocity of the
    /// currently sounding note.
    pub active: Seq<Option<(int, u8)>>,
    /// Per channel: the most recent program change.
    pub programs: Seq<u8>,
    /// The current source tick.
    pub tick: int,
    /// Notes closed so far, in closing order.
    pub notes: Seq<Note>,
}

/// The pairing state at the start of a track.
pub open spec fn init_state() -> TrackState {
    TrackState {
        active: Seq::new(2048, |i: int| None),
        programs: Seq::new(16, |i: int| 0u8),
        tick: 0,
        notes: Seq::empty(),
    }
}

/// The note built when the key sounding since source tick `start` is
/// released at source tick `tick`: start and duration are rescaled
/// independently, both ends snapped to the grid, and the duration clamped
/// to at least one grid unit.
pub open spec fn built_note(
    start: int,
    tick: int,
    key: int,
    vel: u8,
    prog: u8,
    tpb: int,
    names: Seq<String>,
) -> Note {
    let dur = if tick >= start {
        tick - start
    } else {
        0
    };
    let sc = spec_rescale(start, tpb);
    let dc = spec_rescale(dur, tpb);
    let ss = spec_snap_to_grid(sc);
    let es = spec_snap_to_grid(sc + dc);
    let ds0 = if es >= ss {
        es - ss
    } else {
        0
    };
    let ds = if ds0 < 24 {
        24
    } else {
        ds0
    };
    Note {
        note: key as u8,
        start: ss as u32,
        end: (ss + ds) as u32,
        duration: ds as u32,
        velocity: vel,
        instrument: names[prog as int],
    }
}

/// Closes the sounding note on (channel, key), if any: rescales its start
/// and duration, snaps both ends to the grid, enforces the one-grid-unit
/// minimum and tags the instrument label of the channel's current program.
pub open spec fn close_note(
    st: TrackState,
    ch: int,
    key: int,
    tpb: int,
    names: Seq<String>,
) -> TrackState {
    let idx = ch * 128 + key;
    match st.active[idx] {
        None => st,
        Some((start, vel)) => {
            let note = built_note(start, st.tick, key, vel, st.programs[ch], tpb, names);
            TrackState { active: st.active.update(idx, None), notes: st.notes.push(note), ..st }
        },
    }
}

/// One event's effect on the pairing state.
pub open spec fn track_step(st: TrackState, ev: TimedEvent, tpb: int, names: Seq<String>) -> TrackState {
    let st1 = TrackState { tick: st.tick + ev.delta, ..st };
    match ev.kind {
        EventKind::ProgramChange { channel, program } => {
            if channel < 16 && program <= 127 {
                TrackState { programs: st1.programs.update(channel as int, program), ..st1 }
            } else {
                st1
            }
        },
        EventKind::NoteOn { channel, key, velocity } => {
            if velocity > 0 && key <= 127 && channel != 9 && channel < 16 {
                TrackState {
                    active: st1.active.update(
                        channel as int * 128 + key as int,
                        Some((st1.tick, velocity)),
                    ),
                    ..st1
                }
            } else if velocity == 0 && key <= 127 && channel < 16 {
                close_note(st1, channel as int, key as int, tpb, names)
            } else {
                st1
            }
        },
        EventKind::NoteOff { channel, key } => {
            if key <= 127 && channel < 16 {
                close_note(st1, channel as int, key as int, tpb, names)
            } else {
                st1
            }
        },
        EventKind::Tempo(_) => st1,
        EventKind::Other => st1,
    }
}

/// Folds a whole track's events over the pairing state.
pub open spec fn run_track(
    events: Seq<TimedEvent>,
    st: TrackState,
    tpb: int,
    names: Seq<String>,
) -> TrackState
    decreases events.len(),
{
    if events.len() == 0 {
        st
    } else {
        run_track(events.drop_first(), track_step(st, events[0], tpb, names), tpb, names)
    }
}

/// All raw notes of all tracks, each track paired independently.
pub open spec fn raw_notes(ts: Seq<Seq<TimedEvent>>, tpb: int, names: Seq<String>) -> Seq<Note>
    decreases ts.len(),
{
    if ts.len() == 0 {
        Seq::empty()
    } else {
        run_track(ts[0], init_state(), tpb, names).notes + raw_notes(ts.drop_first(), tpb, names)
    }
}

/// Whether one note must come before another in the extracted order:
/// earlier start first, higher pitch first within a start.
pub open spec fn note_before(a: Note, b: Note) -> bool {
    a.start < b.start || (a.start == b.start && a.note > b.note)
}

/// Inserts a note into a sorted list, after entries it does not strictly
/// precede.
pub open spec fn insert_note(s: Seq<Note>, x: Note) -> Seq<Note>
    decreases s.len(),
{
    if s.len() == 0 {
        seq![x]
    } else if note_before(x, s[0]) {
        seq![x] + s
    } else {
        seq![s[0]] + insert_note(s.drop_first(), x)
    }
}

/// Stable sort of notes by start tick, then by descending pitch.
pub open spec fn sort_notes(s: Seq<Note>) -> Seq<Note>
    decreases s.len(),
{
    if s.len() == 0 {
        s
    } else {
        insert_note(sort_notes(s.drop_last()), s.last())
    }
}

/// The notes after a kept one: duplicates of its start and pitch replace
/// it when at least as loud, so the loudest (and latest of equal loudness)
/// survives.
pub open spec fn dedup_notes_rest(s: Seq<Note>, kept: Note) -> Seq<Note>
    decreases s.len(),
{
    if s.len() == 0 {
        seq![kept]
    } else if s[0].start == kept.start && s[0].note == kept.note {
        if s[0].velocity >= kept.velocity {
            dedup_notes_rest(s.drop_first(), s[0])
        } else {
            dedup_notes_rest(s.drop_first(), kept)
        }
    } else {
        seq![kept] + dedup_notes_rest(s.drop_first(), s[0])
    }
}

/// Collapses exact duplicates (same start tick and pitch), keeping the
/// highest-velocity instance.
pub open spec fn dedup_notes(s: Seq<Note>) -> Seq<Note> {
    if s.len() == 0 {
        s
    } else {
        dedup_notes_rest(s.drop_first(), s[0])
    }
}

/// The extracted note list: paired, sorted and deduplicated.
pub open spec fn spec_extract_notes(
    ts: Seq<Seq<TimedEvent>>,
    tpb: int,
    names: Seq<String>,
) -> Seq<Note> {
    dedup_notes(sort_notes(raw_notes(ts, tpb, names)))
}

/// The delta-time budget the extractor asks of its input: every track,
/// rescaled to the canonical rate, must stay well below the tick limit.
pub open spec fn tracks_bounded(ts: Seq<Seq<TimedEvent>>, tpb: int) -> bool {
    forall|i: int|
        0 <= i < ts.len() ==> sum_deltas(#[trigger] ts[i]) * 384 <= (TICK_LIMIT - 64) * tpb
}

fn bpm_of(us: u32) -> (r: u32)
    ensures
        r == spec_bpm_of(us),
{
    if us == 0 {
        u32::MAX
    } else {
        let r64: u64 = (120_000_000u64 + us as u64) / (2 * us as u64);
        proof {
            assert(r64 <= 120_000_000u64) by (nonlinear_arith)
                requires
                    us >= 1,
                    r64 == (120_000_000u64 + us as u64) as int / (2 * us as u64) as int,
            ;
        }
        r64 as u32
    }
}

fn rescale(x: u64, tpb: u16) -> (r: u64)
    requires
        tpb > 0,
        x <= 0x4000_0000_0000u64,
    ensures
        r as int == spec_rescale(x as int, tpb as int),
{
    (2 * x * 384 + tpb as u64) / (2 * tpb as u64)
}

proof fn lemma_rescale_bound(x: int, tpb: int, cap: int)
    requires
        tpb > 0,
        x >= 0,
        cap >= 0,
        x * 384 <= cap * tpb,
    ensures
        0 <= spec_rescale(x, tpb) <= cap,
{
    let d = 2 * tpb;
    let u = 2 * x * 384 + tpb;
    assert(u < d * (cap + 1)) by (nonlinear_arith)
        requires
            x * 384 <= cap * tpb,
            tpb > 0,
            d == 2 * tpb,
            u == 2 * x * 384 + tpb,
    ;
    assert(u / d < cap + 1) by (nonlinear_arith)
        requires
            u < d * (cap + 1),
            d > 0,
            u >= 0,
    ;
    assert(u / d >= 0) by (nonlinear_arith)
        requires
            u >= 0,
            d > 0,
    ;
}

proof fn lemma_rescale_add(a: int, b: int, tpb: int)
    requires
        tpb > 0,
        a >= 0,
        b >= 0,
    ensures
        spec_rescale(a, tpb) + spec_rescale(b, tpb) <= spec_rescale(a + b, tpb) + 1,
{
    let d = 2 * tpb;
    let u = 2 * a * 384 + tpb;
    let v = 2 * b * 384 + tpb;
    let w = 2 * (a + b) * 384 + tpb;
    assert(u + v == w + tpb) by (nonlinear_arith)
        requires
            u == 2 * a * 384 + tpb,
            v == 2 * b * 384 + tpb,
            w == 2 * (a + b) * 384 + tpb,
    ;
    vstd::arithmetic::div_mod::lemma_fundamental_div_mod(u, d);
    vstd::arithmetic::div_mod::lemma_fundamental_div_mod(v, d);
    let qu = u / d;
    let ru = u % d;
    let qv = v / d;
    let rv = v % d;
    if ru + rv < d {
        assert(u + v == (qu + qv) * d + (ru + rv)) by (nonlinear_arith)
            requires
                u == d * qu + ru,
                v == d * qv + rv,
        ;
        vstd::arithmetic::div_mod::lemma_fundamental_div_mod_converse(u + v, d, qu + qv, ru + rv);
    } else {
        assert(u + v == (qu + qv + 1) * d + (ru + rv - d)) by (nonlinear_arith)
            requires
                u == d * qu + ru,
                v == d * qv + rv,
        ;
        vstd::arithmetic::div_mod::lemma_fundamental_div_mod_converse(
            u + v,
            d,
            qu + qv + 1,
            ru + rv - d,
        );
    }
    assert(u / d + v / d <= (u + v) / d);
    vstd::arithmetic::div_mod::lemma_div_is_ordered(u + v, w + d, d);
    vstd::arithmetic::div_mod::lemma_fundamental_div_mod(w, d);
    assert(w + d == (w / d + 1) * d + w % d) by (nonlinear_arith)
        requires
            w == d * (w / d) + w % d,
    ;
    vstd::arithmetic::div_mod::lemma_fundamental_div_mod_converse(w + d, d, w / d + 1, w % d);
}

proof fn lemma_sum_take(t: Seq<TimedEvent>, j: int)
    requires
        0 <= j <= t.len(),
    ensures
        sum_deltas(t.take(j)) <= sum_deltas(t),
        sum_deltas(t.take(j)) >= 0,
    decreases t.len(),
{
    if j == t.len() {
        assert(t.take(j) =~= t);
        lemma_sum_nonneg_events(t);
    } else {
        assert(t.drop_last().take(j) =~= t.take(j));
        lemma_sum_take(t.drop_last(), j);
    }
}

proof fn lemma_sum_nonneg_events(t: Seq<TimedEvent>)
    ensures
        sum_deltas(t) >= 0,
    decreases t.len(),
{
    if t.len() > 0 {
        lemma_sum_nonneg_events(t.drop_last());
    }
}

proof fn lemma_sum_take_step(t: Seq<TimedEvent>, j: int)
    requires
        0 <= j < t.len(),
    ensures
        sum_deltas(t.take(j + 1)) == sum_deltas(t.take(j)) + t[j].delta,
{
    assert(t.take(j + 1).drop_last() =~= t.take(j));
    assert(t.take(j + 1).last() == t[j]);
}

/// Abstract view of collected tempo events.
pub open spec fn tempos_view(v: Seq<(u64, u32)>) -> Seq<(int, u32)> {
    v.map_values(|e: (u64, u32)| (e.0 as int, e.1))
}

fn collect_tempos(tracks: &Vec<Vec<TimedEvent>>, tpb: u16) -> (r: Vec<(u64, u32)>)
    requires
        tpb > 0,
        tracks_bounded(tracks_view(tracks@), tpb as int),
    ensures
        tempos_view(r@) == all_tempos(tracks_view(tracks@)),
        forall|k: int|
            0 <= k < r@.len() ==> (#[trigger] r@[k]).0 as int * 384 <= (TICK_LIMIT - 64) * (
            tpb as int),
{
    let ghost tv = tracks_view(tracks@);
    let ghost total = all_tempos(tv);
    let mut out: Vec<(u64, u32)> = Vec::new();
    proof {
        assert(tv.skip(0) =~= tv);
        assert(tempos_view(out@) + all_tempos(tv.skip(0)) =~= total);
    }
    let mut i: usize = 0;
    while i < tracks.len()
        invariant
            i <= tracks@.len(),
            tv == tracks_view(tracks@),
            tpb > 0,
            tracks_bounded(tv, tpb as int),
            tempos_view(out@) + all_tempos(tv.skip(i as int)) == total,
            forall|k: int|
                0 <= k < out@.len() ==> (#[trigger] out@[k]).0 as int * 384 <= (TICK_LIMIT - 64)
                    * (tpb as int),
        decreases tracks@.len() - i,
    {
        let ghost track = tv[i as int];
        proof {
            assert(track == tracks@[i as int]@);
            assert(tv.skip(i as int)[0] == track);
            assert(tv.skip(i as int).drop_first() =~= tv.skip(i as int + 1));
            assert(track.skip(0) =~= track);
            assert(sum_deltas(track.take(0)) == 0) by {
                assert(track.take(0) =~= Seq::<TimedEvent>::empty());
            }
        }
        let mut tick: u64 = 0;
        let mut j: usize = 0;
        while j < tracks[i].len()
            invariant
                i < tracks@.len(),
                j <= track.len(),
                tv == tracks_view(tracks@),
                track == tv[i as int],
                track == tracks@[i as int]@,
                tpb > 0,
                tracks_bounded(tv, tpb as int),
                tick as int == sum_deltas(track.take(j as int)),
                tempos_view(out@) + track_tempos(track.skip(j as int), tick as int) + all_tempos(
                    tv.skip(i as int + 1),
                ) == total,
                forall|k: int|
                    0 <= k < out@.len() ==> (#[trigger] out@[k]).0 as int * 384 <= (TICK_LIMIT
                        - 64) * (tpb as int),
            decreases track.len() - j,
        {
            proof {
                lemma_sum_take_step(track, j as int);
                lemma_sum_take(track, j as int + 1);
                lemma_sum_nonneg_events(track);
                assert(sum_deltas(track) * 384 <= (TICK_LIMIT - 64) * (tpb as int));
                assert(sum_deltas(track.take(j as int + 1)) * 384 <= (TICK_LIMIT - 64) * (
                tpb as int)) by (nonlinear_arith)
                    requires
                        sum_deltas(track.take(j as int + 1)) <= sum_deltas(track),
                        sum_deltas(track) * 384 <= (TICK_LIMIT - 64) * (tpb as int),
                ;
                assert(sum_deltas(track.take(j as int + 1)) <= 0x4000_0000_0000)
                    by (nonlinear_arith)
                    requires
                        sum_deltas(track.take(j as int + 1)) * 384 <= (TICK_LIMIT - 64) * (
                        tpb as int),
                        tpb <= 0xFFFF,
                        TICK_LIMIT == 0x0800_0000,
                ;
                assert(track.skip(j as int)[0] == track[j as int]);
                assert(track.skip(j as int).drop_first() =~= track.skip(j as int + 1));
            }
            let ev = tracks[i][j];
            tick = tick + ev.delta as u64;
            match ev.kind {
                EventKind::Tempo(us) => {
                    let b = bpm_of(us);
                    let ghost old_out = out@;
                    out.push((tick, b));
                    proof {
                        assert(tempos_view(out@) =~= tempos_view(old_out) + seq![
                            (tick as int, spec_bpm_of(us)),
                        ]);
                        assert(tempos_view(out@) + track_tempos(
                            track.skip(j as int + 1),
                            tick as int,
                        ) + all_tempos(tv.skip(i as int + 1)) =~= total);
                    }
                },
                _ => {
                    proof {
                        assert(tempos_view(out@) + track_tempos(
                            track.skip(j as int + 1),
                            tick as int,
                        ) + all_tempos(tv.skip(i as int + 1)) =~= total);
                    }
                },
            }
            j = j + 1;
        }
        proof {
            assert(track.skip(track.len() as int) =~= Seq::<TimedEvent>::empty());
            assert(tempos_view(out@) + all_tempos(tv.skip(i as int + 1)) =~= total);
        }
        i = i + 1;
    }
    proof {
        assert(all_tempos(tv.skip(tv.len() as int)) =~= Seq::<(int, u32)>::empty());
        assert(tempos_view(out@) =~= total);
    }
    out
}

proof fn lemma_insert_tempo_at(s: Seq<(int, u32)>, x: (int, u32), j: int)
    requires
        0 <= j <= s.len(),
        forall|m: int| 0 <= m < j ==> (#[trigger] s[m]).0 <= x.0,
        j < s.len() ==> x.0 < s[j].0,
    ensures
        insert_tempo(s, x) == s.insert(j, x),
    decreases j,
{
    if j == 0 {
        if s.len() == 0 {
            assert(insert_tempo(s, x) =~= s.insert(0, x));
        } else {
            assert(seq![x] + s =~= s.insert(0, x));
        }
    } else {
        assert(s[0].0 <= x.0);
        lemma_insert_tempo_at(s.drop_first(), x, j - 1);
        assert(seq![s[0]] + s.drop_first().insert(j - 1, x) =~= s.insert(j, x));
    }
}

fn sort_tempos_exec(events: Vec<(u64, u32)>) -> (r: Vec<(u64, u32)>)
    ensures
        tempos_view(r@) == sort_tempos(tempos_view(events@)),
{
    let ghost ev = tempos_view(events@);
    let mut out: Vec<(u64, u32)> = Vec::new();
    proof {
        assert(ev.take(0) =~= Seq::<(int, u32)>::empty());
        assert(tempos_view(out@) =~= sort_tempos(ev.take(0)));
    }
    let mut k: usize = 0;
    while k < events.len()
        invariant
            k <= events@.len(),
            ev == tempos_view(events@),
            tempos_view(out@) == sort_tempos(ev.take(k as int)),
        decreases events@.len() - k,
    {
        let x = events[k];
        let mut j: usize = 0;
        while j < out.len() && out[j].0 <= x.0
            invariant
                j <= out@.len(),
                x == events@[k as int],
                forall|m: int| 0 <= m < j ==> (#[trigger] out@[m]).0 <= x.0,
            decreases out@.len() - j,
        {
            j = j + 1;
        }
        proof {
            assert(forall|m: int|
                0 <= m < j ==> (#[trigger] tempos_view(out@)[m]).0 <= x.0 as int);
            lemma_insert_tempo_at(tempos_view(out@), (x.0 as int, x.1), j as int);
        }
        let ghost old_out = out@;
        out.insert(j, x);
        proof {
            assert(tempos_view(out@) =~= tempos_view(old_out).insert(
                j as int,
                (x.0 as int, x.1),
            ));
            assert(ev.take(k as int + 1).drop_last() =~= ev.take(k as int));
            assert(ev.take(k as int + 1).last() == ev[k as int]);
            assert(tempos_view(out@) =~= sort_tempos(ev.take(k as int + 1)));
        }
        k = k + 1;
    }
    proof {
        assert(ev.take(ev.len() as int) =~= ev);
    }
    out
}

fn dedup_tempos_exec(events: Vec<(u64, u32)>) -> (r: Vec<(u64, u32)>)
    ensures
        tempos_view(r@) == dedup_tempos(tempos_view(events@)),
{
    let ghost ev = tempos_view(events@);
    let mut out: Vec<(u64, u32)> = Vec::new();
    if events.len() == 0 {
        proof {
            assert(tempos_view(out@) =~= dedup_tempos(ev));
        }
        return out;
    }
    out.push(events[0]);
    let mut last_tick: u64 = events[0].0;
    proof {
        assert(ev.skip(1) =~= ev.drop_first());
        assert(tempos_view(out@) =~= seq![ev[0]]);
        assert(tempos_view(out@) + dedup_tempos_rest(ev.skip(1), last_tick as int) =~= seq![
            ev[0],
        ] + dedup_tempos_rest(ev.drop_first(), ev[0].0));
    }
    let mut k: usize = 1;
    while k < events.len()
        invariant
            1 <= k <= events@.len(),
            ev == tempos_view(events@),
            tempos_view(out@) + dedup_tempos_rest(ev.skip(k as int), last_tick as int)
                == dedup_tempos(ev),
        decreases events@.len() - k,
    {
        proof {
            assert(ev.skip(k as int)[0] == ev[k as int]);
            assert(ev.skip(k as int).drop_first() =~= ev.skip(k as int + 1));
        }
        let x = events[k];
        if x.0 != last_tick {
            let ghost old_out = out@;
            out.push(x);
            last_tick = x.0;
            proof {
                assert(tempos_view(out@) =~= tempos_view(old_out) + seq![(x.0 as int, x.1)]);
                assert(tempos_view(out@) + dedup_tempos_rest(
                    ev.skip(k as int + 1),
                    last_tick as int,
                ) =~= dedup_tempos(ev));
            }
        }
        k = k + 1;
    }
    proof {
        assert(ev.skip(ev.len() as int) =~= Seq::<(int, u32)>::empty());
        assert(tempos_view(out@) =~= dedup_tempos(ev));
    }
    out
}

proof fn lemma_sort_tempos_elems(s: Seq<(int, u32)>, j: int)
    requires
        0 <= j < sort_tempos(s).len(),
    ensures
        sort_tempos(s).len() == s.len(),
        s.contains(sort_tempos(s)[j]),
    decreases s.len(),
{
    lemma_sort_tempos_len(s);
    if s.len() > 0 {
        let sorted_rest = sort_tempos(s.drop_last());
        lemma_insert_tempo_elems(sorted_rest, s.last(), j);
        let e = sort_tempos(s)[j];
        if e == s.last() {
            assert(s[s.len() - 1] == e);
        } else {
            assert(sorted_rest.contains(e));
            let w = choose|w: int| 0 <= w < sorted_rest.len() && sorted_rest[w] == e;
            lemma_sort_tempos_elems(s.drop_last(), w);
            let w2 = choose|w2: int| 0 <= w2 < s.drop_last().len() && s.drop_last()[w2] == e;
            assert(s[w2] == e);
        }
    }
}

proof fn lemma_sort_tempos_len(s: Seq<(int, u32)>)
    ensures
        sort_tempos(s).len() == s.len(),
    decreases s.len(),
{
    if s.len() > 0 {
        lemma_sort_tempos_len(s.drop_last());
        lemma_insert_tempo_len(sort_tempos(s.drop_last()), s.last());
    }
}

proof fn lemma_insert_tempo_len(s: Seq<(int, u32)>, x: (int, u32))
    ensures
        insert_tempo(s, x).len() == s.len() + 1,
    decreases s.len(),
{
    if s.len() == 0 {
    } else if x.0 < s[0].0 {
    } else {
        lemma_insert_tempo_len(s.drop_first(), x);
    }
}

proof fn lemma_insert_tempo_elems(s: Seq<(int, u32)>, x: (int, u32), j: int)
    requires
        0 <= j < insert_tempo(s, x).len(),
    ensures
        insert_tempo(s, x).len() == s.len() + 1,
        insert_tempo(s, x)[j] == x || s.contains(insert_tempo(s, x)[j]),
    decreases s.len(),
{
    lemma_insert_tempo_len(s, x);
    if s.len() == 0 {
    } else if x.0 < s[0].0 {
    } else {
        let r = insert_tempo(s, x);
        if j == 0 {
            assert(r[0] == s[0]);
        } else {
            lemma_insert_tempo_elems(s.drop_first(), x, j - 1);
            assert(r[j] == insert_tempo(s.drop_first(), x)[j - 1]);
            if insert_tempo(s.drop_first(), x)[j - 1] == x {
            } else {
                let w = choose|w: int|
                    0 <= w < s.drop_first().len() && s.drop_first()[w] == insert_tempo(
                        s.drop_first(),
                        x,
                    )[j - 1];
                assert(s[w + 1] == r[j]);
            }
        }
    }
}

proof fn lemma_dedup_tempos_rest_elems(s: Seq<(int, u32)>, lt: int, j: int)
    requires
        0 <= j < dedup_tempos_rest(s, lt).len(),
    ensures
        s.contains(dedup_tempos_rest(s, lt)[j]),
    decreases s.len(),
{
    if s.len() > 0 {
        if s[0].0 == lt {
            lemma_dedup_tempos_rest_elems(s.drop_first(), lt, j);
            let w = choose|w: int|
                0 <= w < s.drop_first().len() && s.drop_first()[w] == dedup_tempos_rest(
                    s.drop_first(),
                    lt,
                )[j];
            assert(s[w + 1] == dedup_tempos_rest(s, lt)[j]);
        } else {
            if j == 0 {
                assert(dedup_tempos_rest(s, lt)[0] == s[0]);
            } else {
                lemma_dedup_tempos_rest_elems(s.drop_first(), s[0].0, j - 1);
                let w = choose|w: int|
                    0 <= w < s.drop_first().len() && s.drop_first()[w] == dedup_tempos_rest(
                        s.drop_first(),
                        s[0].0,
                    )[j - 1];
                assert(s[w + 1] == dedup_tempos_rest(s, lt)[j]);
            }
        }
    }
}

proof fn lemma_dedup_tempos_elems(s: Seq<(int, u32)>, j: int)
    requires
        0 <= j < dedup_tempos(s).len(),
    ensures
        s.contains(dedup_tempos(s)[j]),
{
    if s.len() > 0 {
        if j == 0 {
            assert(dedup_tempos(s)[0] == s[0]);
        } else {
            lemma_dedup_tempos_rest_elems(s.drop_first(), s[0].0, j - 1);
            let w = choose|w: int|
                0 <= w < s.drop_first().len() && s.drop_first()[w] == dedup_tempos_rest(
                    s.drop_first(),
                    s[0].0,
                )[j - 1];
            assert(s[w + 1] == dedup_tempos(s)[j]);
        }
    }
}

/// Abstract view of the active-note table.
pub open spec fn active_view(a: Seq<Option<(u64, u8)>>) -> Seq<Option<(int, u8)>> {
    a.map_values(
        |e: Option<(u64, u8)>|
            match e {
                None => None,
                Some((s, v)) => Some((s as int, v)),
            },
    )
}

proof fn lemma_snap_bounds(x: int, y: int)
    requires
        0 <= x <= y,
    ensures
        0 <= spec_snap_to_grid(x) <= x + 12,
        spec_snap_to_grid(x) <= spec_snap_to_grid(y),
{
    let sx = (x + 12) / 24;
    let sy = (y + 12) / 24;
    vstd::arithmetic::div_mod::lemma_div_is_ordered(x + 12, y + 12, 24);
    assert(sx * 24 <= sy * 24) by (nonlinear_arith)
        requires
            sx <= sy,
    ;
    assert(0 <= sx * 24 <= x + 12) by (nonlinear_arith)
        requires
            x >= 0,
            sx == (x + 12) / 24,
    ;
}

/// The note closed at a bounded source tick is well formed.
proof fn lemma_built_note_wf(
    start: int,
    tick: int,
    key: int,
    vel: u8,
    prog: u8,
    tpb: int,
    names: Seq<String>,
)
    requires
        tpb > 0,
        0 <= start <= tick,
        tick * 384 <= (TICK_LIMIT - 64) * tpb,
        0 <= key <= 127,
    ensures
        note_wf(built_note(start, tick, key, vel, prog, tpb, names)),
        built_note(start, tick, key, vel, prog, tpb, names).note == key,
{
    let dur = tick - start;
    assert(start * 384 <= (TICK_LIMIT - 64) * tpb) by (nonlinear_arith)
        requires
            0 <= start <= tick,
            tick * 384 <= (TICK_LIMIT - 64) * tpb,
    ;
    assert(dur * 384 <= (TICK_LIMIT - 64) * tpb) by (nonlinear_arith)
        requires
            0 <= dur <= tick,
            tick * 384 <= (TICK_LIMIT - 64) * tpb,
    ;
    lemma_rescale_bound(start, tpb, TICK_LIMIT - 64);
    lemma_rescale_bound(dur, tpb, TICK_LIMIT - 64);
    lemma_rescale_bound(tick, tpb, TICK_LIMIT - 64);
    lemma_rescale_add(start, dur, tpb);
    let sc = spec_rescale(start, tpb);
    let dc = spec_rescale(dur, tpb);
    assert(sc + dc <= TICK_LIMIT - 63);
    lemma_snap_bounds(sc, sc + dc);
    lemma_snap_bounds(sc + dc, sc + dc);
}

fn close_exec(
    active: &mut Vec<Option<(u64, u8)>>,
    programs: &Vec<u8>,
    tick: u64,
    notes: &mut Vec<Note>,
    channel: u8,
    key: u8,
    tpb: u16,
    names: &Vec<String>,
)
    requires
        tpb > 0,
        names@.len() == 128,
        channel < 16,
        key <= 127,
        old(active)@.len() == 2048,
        programs@.len() == 16,
        forall|c: int| 0 <= c < 16 ==> #[trigger] programs@[c] <= 127,
        forall|x: int|
            0 <= x < 2048 ==> ((#[trigger] old(active)@[x]) is Some ==> (old(active)@[x]->0).0
                <= tick),
        tick as int * 384 <= (TICK_LIMIT - 64) * (tpb as int),
        forall|k: int| 0 <= k < old(notes)@.len() ==> note_wf(#[trigger] old(notes)@[k]),
    ensures
        final(active)@.len() == 2048,
        ({
            let idx = channel as int * 128 + key as int;
            match active_view(old(active)@)[idx] {
                None => final(active)@ == old(active)@ && final(notes)@ == old(notes)@,
                Some((start, vel)) => {
                    &&& active_view(final(active)@) == active_view(old(active)@).update(idx, None)
                    &&& final(notes)@ == old(notes)@.push(
                        built_note(
                            start,
                            tick as int,
                            key as int,
                            vel,
                            programs@[channel as int],
                            tpb as int,
                            names@,
                        ),
                    )
                },
            }
        }),
        forall|k: int| 0 <= k < final(notes)@.len() ==> note_wf(#[trigger] final(notes)@[k]),
        forall|x: int|
            0 <= x < 2048 ==> ((#[trigger] final(active)@[x]) is Some ==> (final(active)@[x]->0).0
                <= tick),
{
    let idx: usize = channel as usize * 128 + key as usize;
    let entry = active[idx];
    match entry {
        None => {
            proof {
                assert(active_view(active@)[idx as int] is None);
            }
        },
        Some((start, vel)) => {
            active[idx] = None;
            proof {
                assert(active_view(active@) =~= active_view(old(active)@).update(
                    idx as int,
                    None,
                ));
                assert(start as int * 384 <= (TICK_LIMIT - 64) * (tpb as int))
                    by (nonlinear_arith)
                    requires
                        0 <= start <= tick,
                        tick as int * 384 <= (TICK_LIMIT - 64) * (tpb as int),
                ;
                assert(start <= 0x4000_0000_0000u64) by (nonlinear_arith)
                    requires
                        start as int * 384 <= (TICK_LIMIT - 64) * (tpb as int),
                        tpb <= 0xFFFF,
                        TICK_LIMIT == 0x0800_0000,
                ;
            }
            let dur: u64 = tick - start;
            proof {
                assert(dur as int * 384 <= (TICK_LIMIT - 64) * (tpb as int)) by (nonlinear_arith)
                    requires
                        0 <= dur <= tick,
                        tick as int * 384 <= (TICK_LIMIT - 64) * (tpb as int),
                ;
                assert(dur <= 0x4000_0000_0000u64) by (nonlinear_arith)
                    requires
                        dur as int * 384 <= (TICK_LIMIT - 64) * (tpb as int),
                        tpb <= 0xFFFF,
                        TICK_LIMIT == 0x0800_0000,
                ;
            }
            let sc = rescale(start, tpb);
            let dc = rescale(dur, tpb);
            proof {
                lemma_rescale_bound(start as int, tpb as int, TICK_LIMIT - 64);
                lemma_rescale_bound(dur as int, tpb as int, TICK_LIMIT - 64);
                lemma_rescale_bound(tick as int, tpb as int, TICK_LIMIT - 64);
                lemma_rescale_add(start as int, dur as int, tpb as int);
            }
            let ss = snap_to_grid(sc as u32);
            let es = snap_to_grid((sc + dc) as u32);
            let ds0: u32 = if es >= ss {
                es - ss
            } else {
                0
            };
            let ds: u32 = if ds0 < 24 {
                24
            } else {
                ds0
            };
            let prog = programs[channel as usize];
            let name = names[prog as usize].clone();
            proof {
                lemma_built_note_wf(
                    start as int,
                    tick as int,
                    key as int,
                    vel,
                    prog,
                    tpb as int,
                    names@,
                );
                lemma_snap_bounds(sc as int, sc as int + dc as int);
            }
            let note = Note {
                note: key,
                start: ss,
                end: ss + ds,
                duration: ds,
                velocity: vel,
                instrument: name,
            };
            proof {
                assert(note == built_note(
                    start as int,
                    tick as int,
                    key as int,
                    vel,
                    prog,
                    tpb as int,
                    names@,
                ));
            }
            notes.push(note);
        },
    }
}

fn pair_track(track: &Vec<TimedEvent>, tpb: u16, names: &Vec<String>, notes: &mut Vec<Note>)
    requires
        tpb > 0,
        names@.len() == 128,
        sum_deltas(track@) * 384 <= (TICK_LIMIT - 64) * (tpb as int),
        forall|k: int| 0 <= k < old(notes)@.len() ==> note_wf(#[trigger] old(notes)@[k]),
    ensures
        final(notes)@ == old(notes)@ + run_track(track@, init_state(), tpb as int, names@).notes,
        forall|k: int| 0 <= k < final(notes)@.len() ==> note_wf(#[trigger] final(notes)@[k]),
{
    let ghost tr = track@;
    let ghost plen = notes@.len() as int;
    let ghost full = run_track(tr, init_state(), tpb as int, names@);
    let mut active: Vec<Option<(u64, u8)>> = vec![None; 2048];
    let mut programs: Vec<u8> = vec![0u8; 16];
    let mut tick: u64 = 0;
    proof {
        assert(active_view(active@) =~= init_state().active);
        assert(programs@ =~= init_state().programs);
        assert(notes@.skip(plen) =~= Seq::<Note>::empty());
        assert(tr.skip(0) =~= tr);
        assert(tr.take(0) =~= Seq::<TimedEvent>::empty());
        assert((TrackState {
            active: active_view(active@),
            programs: programs@,
            tick: tick as int,
            notes: notes@.skip(plen),
        }) =~~= init_state());
    }
    let mut j: usize = 0;
    while j < track.len()
        invariant
            j <= tr.len(),
            tr == track@,
            tpb > 0,
            names@.len() == 128,
            sum_deltas(tr) * 384 <= (TICK_LIMIT - 64) * (tpb as int),
            active@.len() == 2048,
            programs@.len() == 16,
            0 <= plen <= notes@.len(),
            notes@.take(plen) == old(notes)@,
            tick as int == sum_deltas(tr.take(j as int)),
            forall|c: int| 0 <= c < 16 ==> #[trigger] programs@[c] <= 127,
            forall|x: int|
                0 <= x < 2048 ==> ((#[trigger] active@[x]) is Some ==> (active@[x]->0).0 <= tick),
            forall|k: int| 0 <= k < notes@.len() ==> note_wf(#[trigger] notes@[k]),
            run_track(
                tr.skip(j as int),
                TrackState {
                    active: active_view(active@),
                    programs: programs@,
                    tick: tick as int,
                    notes: notes@.skip(plen),
                },
                tpb as int,
                names@,
            ) == full,
        decreases tr.len() - j,
    {
        let ghost st_old = TrackState {
            active: active_view(active@),
            programs: programs@,
            tick: tick as int,
            notes: notes@.skip(plen),
        };
        proof {
            lemma_sum_take_step(tr, j as int);
            lemma_sum_take(tr, j as int + 1);
            lemma_sum_nonneg_events(tr);
            assert(tr.skip(j as int)[0] == tr[j as int]);
            assert(tr.skip(j as int).drop_first() =~= tr.skip(j as int + 1));
            assert(sum_deltas(tr.take(j as int + 1)) * 384 <= (TICK_LIMIT - 64) * (tpb as int))
                by (nonlinear_arith)
                requires
                    sum_deltas(tr.take(j as int + 1)) <= sum_deltas(tr),
                    sum_deltas(tr) * 384 <= (TICK_LIMIT - 64) * (tpb as int),
            ;
        }
        let ev = track[j];
        proof {
            assert(sum_deltas(tr.take(j as int + 1)) <= 0x4000_0000_0000) by (nonlinear_arith)
                requires
                    sum_deltas(tr.take(j as int + 1)) * 384 <= (TICK_LIMIT - 64) * (tpb as int),
                    tpb <= 0xFFFF,
                    TICK_LIMIT == 0x0800_0000,
            ;
        }
        tick = tick + ev.delta as u64;
        let ghost st_mid = TrackState { tick: tick as int, ..st_old };
        match ev.kind {
            EventKind::ProgramChange { channel, program } => {
                if channel < 16 && program <= 127 {
                    programs[channel as usize] = program;
                    proof {
                        assert((TrackState {
                            active: active_view(active@),
                            programs: programs@,
                            tick: tick as int,
                            notes: notes@.skip(plen),
                        }) =~~= track_step(st_old, ev, tpb as int, names@));
                    }
                } else {
                    proof {
                        assert((TrackState {
                            active: active_view(active@),
                            programs: programs@,
                            tick: tick as int,
                            notes: notes@.skip(plen),
                        }) =~~= track_step(st_old, ev, tpb as int, names@));
                    }
                }
            },
            EventKind::NoteOn { channel, key, velocity } => {
                if velocity > 0 && key <= 127 && channel != 9 && channel < 16 {
                    let idx: usize = channel as usize * 128 + key as usize;
                    active[idx] = Some((tick, velocity));
                    proof {
                        assert(active_view(active@) =~= st_mid.active.update(
                            channel as int * 128 + key as int,
                            Some((tick as int, velocity)),
                        ));
                        assert((TrackState {
                            active: active_view(active@),
                            programs: programs@,
                            tick: tick as int,
                            notes: notes@.skip(plen),
                        }) =~~= track_step(st_old, ev, tpb as int, names@));
                    }
                } else if velocity == 0 && key <= 127 && channel < 16 {
                    let ghost pre_notes = notes@;
                    close_exec(&mut active, &programs, tick, notes, channel, key, tpb, names);
                    proof {
                        lemma_close_glue(st_mid, pre_notes, notes@, plen, channel as int,
                            key as int, tpb as int, names@);
                        assert((TrackState {
                            active: active_view(active@),
                            programs: programs@,
                            tick: tick as int,
                            notes: notes@.skip(plen),
                        }) =~~= track_step(st_old, ev, tpb as int, names@));
                        assert(notes@.take(plen) =~= old(notes)@);
                    }
                } else {
                    proof {
                        assert((TrackState {
                            active: active_view(active@),
                            programs: programs@,
                            tick: tick as int,
                            notes: notes@.skip(plen),
                        }) =~~= track_step(st_old, ev, tpb as int, names@));
                    }
                }
            },
            EventKind::NoteOff { channel, key } => {
                if key <= 127 && channel < 16 {
                    let ghost pre_notes = notes@;
                    close_exec(&mut active, &programs, tick, notes, channel, key, tpb, names);
                    proof {
                        lemma_close_glue(st_mid, pre_notes, notes@, plen, channel as int,
                            key as int, tpb as int, names@);
                        assert((TrackState {
                            active: active_view(active@),
                            programs: programs@,
                            tick: tick as int,
                            notes: notes@.skip(plen),
                        }) =~~= track_step(st_old, ev, tpb as int, names@));
                        assert(notes@.take(plen) =~= old(notes)@);
                    }
                } else {
                    proof {
                        assert((TrackState {
                            active: active_view(active@),
                            programs: programs@,
                            tick: tick as int,
                            notes: notes@.skip(plen),
                        }) =~~= track_step(st_old, ev, tpb as int, names@));
                    }
                }
            },
            EventKind::Tempo(_) => {
                proof {
                    assert((TrackState {
                        active: active_view(active@),
                        programs: programs@,
                        tick: tick as int,
                        notes: notes@.skip(plen),
                    }) =~~= track_step(st_old, ev, tpb as int, names@));
                }
            },
            EventKind::Other => {
                proof {
                    assert((TrackState {
                        active: active_view(active@),
                        programs: programs@,
                        tick: tick as int,
                        notes: notes@.skip(plen),
                    }) =~~= track_step(st_old, ev, tpb as int, names@));
                }
            },
        }
        j = j + 1;
    }
    proof {
        assert(tr.skip(tr.len() as int) =~= Seq::<TimedEvent>::empty());
        let st_end = TrackState {
            active: active_view(active@),
            programs: programs@,
            tick: tick as int,
            notes: notes@.skip(plen),
        };
        assert(run_track(Seq::<TimedEvent>::empty(), st_end, tpb as int, names@) == st_end);
        assert(notes@ =~= notes@.take(plen) + notes@.skip(plen));
    }
}

/// Glue between the executable close operation on the shared note vector
/// and the per-track state, whose note list is the suffix this track added.
proof fn lemma_close_glue(
    st_mid: TrackState,
    pre_notes: Seq<Note>,
    post_notes: Seq<Note>,
    plen: int,
    ch: int,
    key: int,
    tpb: int,
    names: Seq<String>,
)
    requires
        0 <= plen <= pre_notes.len(),
        st_mid.notes == pre_notes.skip(plen),
        0 <= ch * 128 + key < st_mid.active.len(),
        match st_mid.active[ch * 128 + key] {
            None => post_notes == pre_notes,
            Some((start, vel)) => post_notes == pre_notes.push(
                built_note(start, st_mid.tick, key, vel, st_mid.programs[ch], tpb, names),
            ),
        },
    ensures
        post_notes.skip(plen) == close_note(st_mid, ch, key, tpb, names).notes,
        post_notes.take(plen) == pre_notes.take(plen),
{
    match st_mid.active[ch * 128 + key] {
        None => {
            assert(post_notes.take(plen) =~= pre_notes.take(plen));
        },
        Some((start, vel)) => {
            assert(post_notes.skip(plen) =~= pre_notes.skip(plen).push(
                built_note(start, st_mid.tick, key, vel, st_mid.programs[ch], tpb, names),
            ));
            assert(post_notes.take(plen) =~= pre_notes.take(plen));
        },
    }
}

proof fn lemma_insert_note_at(s: Seq<Note>, x: Note, j: int)
    requires
        0 <= j <= s.len(),
        forall|m: int| 0 <= m < j ==> !note_before(x, #[trigger] s[m]),
        j < s.len() ==> note_before(x, s[j]),
    ensures
        insert_note(s, x) == s.insert(j, x),
    decreases j,
{
    if j == 0 {
        if s.len() == 0 {
            assert(insert_note(s, x) =~= s.insert(0, x));
        } else {
            assert(seq![x] + s =~= s.insert(0, x));
        }
    } else {
        assert(!note_before(x, s[0]));
        lemma_insert_note_at(s.drop_first(), x, j - 1);
        assert(seq![s[0]] + s.drop_first().insert(j - 1, x) =~= s.insert(j, x));
    }
}

proof fn lemma_insert_note_len(s: Seq<Note>, x: Note)
    ensures
        insert_note(s, x).len() == s.len() + 1,
    decreases s.len(),
{
    if s.len() == 0 {
    } else if note_before(x, s[0]) {
    } else {
        lemma_insert_note_len(s.drop_first(), x);
    }
}

proof fn lemma_insert_note_elems(s: Seq<Note>, x: Note, j: int)
    requires
        0 <= j < insert_note(s, x).len(),
    ensures
        insert_note(s, x).len() == s.len() + 1,
        insert_note(s, x)[j] == x || s.contains(insert_note(s, x)[j]),
    decreases s.len(),
{
    lemma_insert_note_len(s, x);
    if s.len() == 0 {
    } else if note_before(x, s[0]) {
    } else {
        let r = insert_note(s, x);
        if j == 0 {
            assert(r[0] == s[0]);
        } else {
            lemma_insert_note_elems(s.drop_first(), x, j - 1);
            assert(r[j] == insert_note(s.drop_first(), x)[j - 1]);
            if insert_note(s.drop_first(), x)[j - 1] == x {
            } else {
                let w = choose|w: int|
                    0 <= w < s.drop_first().len() && s.drop_first()[w] == insert_note(
                        s.drop_first(),
                        x,
                    )[j - 1];
                assert(s[w + 1] == r[j]);
            }
        }
    }
}

proof fn lemma_sort_notes_len(s: Seq<Note>)
    ensures
        sort_notes(s).len() == s.len(),
    decreases s.len(),
{
    if s.len() > 0 {
        lemma_sort_notes_len(s.drop_last());
        lemma_insert_note_len(sort_notes(s.drop_last()), s.last());
    }
}

proof fn lemma_sort_notes_elems(s: Seq<Note>, j: int)
    requires
        0 <= j < sort_notes(s).len(),
    ensures
        sort_notes(s).len() == s.len(),
        s.contains(sort_notes(s)[j]),
    decreases s.len(),
{
    lemma_sort_notes_len(s);
    if s.len() > 0 {
        let sorted_rest = sort_notes(s.drop_last());
        lemma_insert_note_elems(sorted_rest, s.last(), j);
        let e = sort_notes(s)[j];
        if e == s.last() {
            assert(s[s.len() - 1] == e);
        } else {
            assert(sorted_rest.contains(e));
            let w = choose|w: int| 0 <= w < sorted_rest.len() && sorted_rest[w] == e;
            lemma_sort_notes_elems(s.drop_last(), w);
            let w2 = choose|w2: int| 0 <= w2 < s.drop_last().len() && s.drop_last()[w2] == e;
            assert(s[w2] == e);
        }
    }
}

proof fn lemma_dedup_notes_rest_elems(s: Seq<Note>, kept: Note, j: int)
    requires
        0 <= j < dedup_notes_rest(s, kept).len(),
    ensures
        dedup_notes_rest(s, kept)[j] == kept || s.contains(dedup_notes_rest(s, kept)[j]),
    decreases s.len(),
{
    if s.len() == 0 {
    } else if s[0].start == kept.start && s[0].note == kept.note {
        let k2 = if s[0].velocity >= kept.velocity {
            s[0]
        } else {
            kept
        };
        lemma_dedup_notes_rest_elems(s.drop_first(), k2, j);
        let e = dedup_notes_rest(s, kept)[j];
        if e == k2 && k2 == s[0] {
            assert(s[0] == e);
        } else if e != kept && e != k2 {
            let w = choose|w: int| 0 <= w < s.drop_first().len() && s.drop_first()[w] == e;
            assert(s[w + 1] == e);
        } else if e == k2 {
        } else {
        }
    } else {
        let e = dedup_notes_rest(s, kept)[j];
        if j == 0 {
            assert(e == kept);
        } else {
            lemma_dedup_notes_rest_elems(s.drop_first(), s[0], j - 1);
            let e2 = dedup_notes_rest(s.drop_first(), s[0])[j - 1];
            assert(e == e2);
            if e2 == s[0] {
                assert(s[0] == e);
            } else {
                let w = choose|w: int| 0 <= w < s.drop_first().len() && s.drop_first()[w] == e2;
                assert(s[w + 1] == e);
            }
        }
    }
}

fn sort_notes_exec(notes: Vec<Note>) -> (r: Vec<Note>)
    ensures
        r@ == sort_notes(notes@),
{
    let ghost nv = notes@;
    let mut out: Vec<Note> = Vec::new();
    proof {
        assert(nv.take(0) =~= Seq::<Note>::empty());
    }
    let mut k: usize = 0;
    while k < notes.len()
        invariant
            k <= nv.len(),
            nv == notes@,
            out@ == sort_notes(nv.take(k as int)),
        decreases nv.len() - k,
    {
        let x = notes[k].clone();
        let mut j: usize = 0;
        while j < out.len() && !(x.start < out[j].start || (x.start == out[j].start && x.note
            > out[j].note))
            invariant
                j <= out@.len(),
                x == nv[k as int],
                out@ == sort_notes(nv.take(k as int)),
                forall|m: int| 0 <= m < j ==> !note_before(x, #[trigger] out@[m]),
            decreases out@.len() - j,
        {
            j = j + 1;
        }
        proof {
            lemma_insert_note_at(out@, x, j as int);
        }
        out.insert(j, x);
        proof {
            assert(nv.take(k as int + 1).drop_last() =~= nv.take(k as int));
            assert(nv.take(k as int + 1).last() == nv[k as int]);
        }
        k = k + 1;
    }
    proof {
        assert(nv.take(nv.len() as int) =~= nv);
    }
    out
}

fn dedup_notes_exec(notes: Vec<Note>) -> (r: Vec<Note>)
    ensures
        r@ == dedup_notes(notes@),
{
    let ghost nv = notes@;
    let mut out: Vec<Note> = Vec::new();
    if notes.len() == 0 {
        proof {
            assert(out@ =~= dedup_notes(nv));
        }
        return out;
    }
    let mut kept: Note = notes[0].clone();
    proof {
        assert(nv.skip(1) =~= nv.drop_first());
        assert(out@ + dedup_notes_rest(nv.skip(1), kept) =~= dedup_notes(nv));
    }
    let mut k: usize = 1;
    while k < notes.len()
        invariant
            1 <= k <= nv.len(),
            nv == notes@,
            out@ + dedup_notes_rest(nv.skip(k as int), kept) == dedup_notes(nv),
        decreases nv.len() - k,
    {
        proof {
            assert(nv.skip(k as int)[0] == nv[k as int]);
            assert(nv.skip(k as int).drop_first() =~= nv.skip(k as int + 1));
        }
        let x = notes[k].clone();
        if x.start == kept.start && x.note == kept.note {
            if x.velocity >= kept.velocity {
                kept = x;
            }
        } else {
            let ghost old_out = out@;
            out.push(kept);
            kept = x;
            proof {
                assert(out@ + dedup_notes_rest(nv.skip(k as int + 1), kept) =~= dedup_notes(nv));
            }
        }
        k = k + 1;
    }
    let ghost old_out = out@;
    out.push(kept);
    proof {
        assert(nv.skip(nv.len() as int) =~= Seq::<Note>::empty());
        assert(dedup_notes_rest(Seq::<Note>::empty(), kept) == seq![kept]);
        assert(out@ =~= dedup_notes(nv));
    }
    out
}

/// Total number of events over all tracks.
pub open spec fn total_events(ts: Seq<Seq<TimedEvent>>) -> int
    decreases ts.len(),
{
    if ts.len() == 0 {
        0
    } else {
        total_events(ts.drop_last()) + ts.last().len()
    }
}

proof fn lemma_run_track_count(events: Seq<TimedEvent>, st: TrackState, tpb: int, names: Seq<String>)
    ensures
        run_track(events, st, tpb, names).notes.len() <= st.notes.len() + events.len(),
    decreases events.len(),
{
    if events.len() > 0 {
        let st2 = track_step(st, events[0], tpb, names);
        assert(st2.notes.len() <= st.notes.len() + 1);
        lemma_run_track_count(events.drop_first(), st2, tpb, names);
    }
}

proof fn lemma_raw_notes_count(ts: Seq<Seq<TimedEvent>>, tpb: int, names: Seq<String>)
    ensures
        raw_notes(ts, tpb, names).len() <= total_events(ts),
    decreases ts.len(),
{
    if ts.len() > 0 {
        lemma_run_track_count(ts[0], init_state(), tpb, names);
        lemma_raw_notes_count(ts.drop_first(), tpb, names);
        lemma_total_events_split(ts);
    }
}

proof fn lemma_total_events_split(ts: Seq<Seq<TimedEvent>>)
    requires
        ts.len() > 0,
    ensures
        total_events(ts) == ts[0].len() + total_events(ts.drop_first()),
    decreases ts.len(),
{
    if ts.len() == 1 {
        assert(ts.drop_first() =~= Seq::<Seq<TimedEvent>>::empty());
        assert(ts.drop_last() =~= Seq::<Seq<TimedEvent>>::empty());
        assert(ts.last() == ts[0]);
    } else {
        lemma_total_events_split(ts.drop_last());
        assert(ts.drop_last()[0] == ts[0]);
        assert(ts.drop_last().drop_first() =~= ts.drop_first().drop_last());
        assert(ts.drop_first().last() == ts.last());
    }
}

proof fn lemma_dedup_rest_count(s: Seq<Note>, kept: Note)
    ensures
        dedup_notes_rest(s, kept).len() <= s.len() + 1,
    decreases s.len(),
{
    if s.len() > 0 {
        if s[0].start == kept.start && s[0].note == kept.note {
            if s[0].velocity >= kept.velocity {
                lemma_dedup_rest_count(s.drop_first(), s[0]);
            } else {
                lemma_dedup_rest_count(s.drop_first(), kept);
            }
        } else {
            lemma_dedup_rest_count(s.drop_first(), s[0]);
        }
    }
}

/// The extractor never produces more notes than there were events.
pub proof fn lemma_extract_count(ts: Seq<Seq<TimedEvent>>, tpb: int, names: Seq<String>)
    ensures
        spec_extract_notes(ts, tpb, names).len() <= total_events(ts),
        total_events(ts) >= 0,
{
    lemma_raw_notes_count(ts, tpb, names);
    let raw = raw_notes(ts, tpb, names);
    lemma_sort_notes_len(raw);
    let sorted = sort_notes(raw);
    if sorted.len() > 0 {
        lemma_dedup_rest_count(sorted.drop_first(), sorted[0]);
    }
    lemma_total_events_nonneg(ts);
}

proof fn lemma_total_events_nonneg(ts: Seq<Seq<TimedEvent>>)
    ensures
        total_events(ts) >= 0,
    decreases ts.len(),
{
    if ts.len() > 0 {
        lemma_total_events_nonneg(ts.drop_last());
    }
}


/// Sortedness of tempo events by source tick.
pub open spec fn tempos_sorted(s: Seq<(int, u32)>) -> bool {
    forall|i: int, j: int| 0 <= i < j < s.len() ==> (#[trigger] s[i]).0 <= (#[trigger] s[j]).0
}

proof fn lemma_insert_tempo_sorted(s: Seq<(int, u32)>, x: (int, u32))
    requires
        tempos_sorted(s),
    ensures
        tempos_sorted(insert_tempo(s, x)),
    decreases s.len(),
{
    lemma_insert_tempo_len(s, x);
    if s.len() == 0 {
    } else if x.0 < s[0].0 {
        let r = seq![x] + s;
        assert forall|i: int, j: int| 0 <= i < j < r.len() implies (#[trigger] r[i]).0 <= (
        #[trigger] r[j]).0 by {
            if i > 0 {
                assert(r[i] == s[i - 1] && r[j] == s[j - 1]);
            } else if j > 0 {
                assert(r[j] == s[j - 1]);
                if j - 1 > 0 {
                    assert(s[0].0 <= s[j - 1].0);
                }
            }
        }
    } else {
        assert forall|i: int, j: int|
            0 <= i < j < s.drop_first().len() implies (#[trigger] s.drop_first()[i]).0 <= (
        #[trigger] s.drop_first()[j]).0 by {
            assert(s.drop_first()[i] == s[i + 1] && s.drop_first()[j] == s[j + 1]);
        }
        lemma_insert_tempo_sorted(s.drop_first(), x);
        let r2 = insert_tempo(s.drop_first(), x);
        let r = seq![s[0]] + r2;
        lemma_insert_tempo_len(s.drop_first(), x);
        assert forall|i: int, j: int| 0 <= i < j < r.len() implies (#[trigger] r[i]).0 <= (
        #[trigger] r[j]).0 by {
            if i > 0 {
                assert(r[i] == r2[i - 1] && r[j] == r2[j - 1]);
            } else {
                assert(r[j] == r2[j - 1]);
                // the head is no later than anything inserted behind it
                lemma_insert_tempo_elems(s.drop_first(), x, j - 1);
                if r2[j - 1] == x {
                } else {
                    let w = choose|w: int|
                        0 <= w < s.drop_first().len() && s.drop_first()[w] == r2[j - 1];
                    assert(s[w + 1] == r2[j - 1]);
                }
            }
        }
    }
}

proof fn lemma_sort_tempos_sorted(s: Seq<(int, u32)>)
    ensures
        tempos_sorted(sort_tempos(s)),
    decreases s.len(),
{
    if s.len() > 0 {
        lemma_sort_tempos_sorted(s.drop_last());
        lemma_insert_tempo_sorted(sort_tempos(s.drop_last()), s.last());
    }
}

proof fn lemma_dedup_tempos_rest_sorted(s: Seq<(int, u32)>, lt: int)
    requires
        tempos_sorted(s),
        forall|i: int| 0 <= i < s.len() ==> (#[trigger] s[i]).0 >= lt,
    ensures
        tempos_sorted(dedup_tempos_rest(s, lt)),
        forall|i: int|
            0 <= i < dedup_tempos_rest(s, lt).len() ==> (#[trigger] dedup_tempos_rest(s, lt)[i]).0
                >= lt,
    decreases s.len(),
{
    if s.len() > 0 {
        assert forall|i: int, j: int|
            0 <= i < j < s.drop_first().len() implies (#[trigger] s.drop_first()[i]).0 <= (
        #[trigger] s.drop_first()[j]).0 by {
            assert(s.drop_first()[i] == s[i + 1] && s.drop_first()[j] == s[j + 1]);
        }
        assert forall|i: int| 0 <= i < s.drop_first().len() implies (#[trigger] s.drop_first()[
        i]).0 >= s[0].0 by {
            assert(s.drop_first()[i] == s[i + 1]);
        }
        if s[0].0 == lt {
            lemma_dedup_tempos_rest_sorted(s.drop_first(), lt);
        } else {
            lemma_dedup_tempos_rest_sorted(s.drop_first(), s[0].0);
            let r2 = dedup_tempos_rest(s.drop_first(), s[0].0);
            let r = seq![s[0]] + r2;
            assert forall|i: int, j: int| 0 <= i < j < r.len() implies (#[trigger] r[i]).0 <= (
            #[trigger] r[j]).0 by {
                if i > 0 {
                    assert(r[i] == r2[i - 1] && r[j] == r2[j - 1]);
                } else {
                    assert(r[j] == r2[j - 1]);
                }
            }
        }
    }
}

/// The sorted, deduplicated source tempo list is sorted by tick.
proof fn lemma_source_tempos_sorted(ts: Seq<Seq<TimedEvent>>)
    ensures
        tempos_sorted(source_tempos(ts)),
{
    let sorted = sort_tempos(all_tempos(ts));
    lemma_sort_tempos_sorted(all_tempos(ts));
    if sorted.len() > 0 {
        assert forall|i: int, j: int|
            0 <= i < j < sorted.drop_first().len() implies (#[trigger] sorted.drop_first()[
        i]).0 <= (#[trigger] sorted.drop_first()[j]).0 by {
            assert(sorted.drop_first()[i] == sorted[i + 1] && sorted.drop_first()[j] == sorted[j
                + 1]);
        }
        assert forall|i: int| 0 <= i < sorted.drop_first().len() implies (
        #[trigger] sorted.drop_first()[i]).0 >= sorted[0].0 by {
            assert(sorted.drop_first()[i] == sorted[i + 1]);
        }
        lemma_dedup_tempos_rest_sorted(sorted.drop_first(), sorted[0].0);
        let r2 = dedup_tempos_rest(sorted.drop_first(), sorted[0].0);
        let r = seq![sorted[0]] + r2;
        assert forall|i: int, j: int| 0 <= i < j < r.len() implies (#[trigger] r[i]).0 <= (
        #[trigger] r[j]).0 by {
            if i > 0 {
                assert(r[i] == r2[i - 1] && r[j] == r2[j - 1]);
            } else {
                assert(r[j] == r2[j - 1]);
            }
        }
    }
}

proof fn lemma_rescale_monotone(x: int, y: int, tpb: int)
    requires
        tpb > 0,
        x <= y,
    ensures
        spec_rescale(x, tpb) <= spec_rescale(y, tpb),
{
    vstd::arithmetic::div_mod::lemma_div_is_ordered(2 * x * 384 + tpb, 2 * y * 384 + tpb, 2 * tpb);
}

proof fn lemma_snap_monotone(x: int, y: int)
    requires
        x <= y,
    ensures
        spec_snap_to_grid(x) <= spec_snap_to_grid(y),
{
    vstd::arithmetic::div_mod::lemma_div_is_ordered(x + 12, y + 12, 24);
    assert(((x + 12) / 24) * 24 <= ((y + 12) / 24) * 24) by (nonlinear_arith)
        requires
            (x + 12) / 24 <= (y + 12) / 24,
    ;
}

proof fn lemma_dedup_converted_rest_strict(s: Seq<TempoChange>, lt: u32)
    requires
        forall|i: int, j: int|
            0 <= i < j < s.len() ==> (#[trigger] s[i]).tick <= (#[trigger] s[j]).tick,
        forall|i: int| 0 <= i < s.len() ==> (#[trigger] s[i]).tick >= lt,
    ensures
        forall|i: int, j: int|
            0 <= i < j < dedup_converted_rest(s, lt).len() ==> (#[trigger] dedup_converted_rest(
                s,
                lt,
            )[i]).tick < (#[trigger] dedup_converted_rest(s, lt)[j]).tick,
        forall|i: int|
            0 <= i < dedup_converted_rest(s, lt).len() ==> (#[trigger] dedup_converted_rest(
                s,
                lt,
            )[i]).tick > lt,
    decreases s.len(),
{
    if s.len() > 0 {
        assert forall|i: int, j: int|
            0 <= i < j < s.drop_first().len() implies (#[trigger] s.drop_first()[i]).tick <= (
        #[trigger] s.drop_first()[j]).tick by {
            assert(s.drop_first()[i] == s[i + 1] && s.drop_first()[j] == s[j + 1]);
        }
        assert forall|i: int| 0 <= i < s.drop_first().len() implies (#[trigger] s.drop_first()[
        i]).tick >= s[0].tick by {
            assert(s.drop_first()[i] == s[i + 1]);
        }
        if s[0].tick == lt {
            lemma_dedup_converted_rest_strict(s.drop_first(), lt);
            assert(dedup_converted_rest(s, lt) == dedup_converted_rest(s.drop_first(), lt));
        } else {
            lemma_dedup_converted_rest_strict(s.drop_first(), s[0].tick);
            let r2 = dedup_converted_rest(s.drop_first(), s[0].tick);
            let r = seq![s[0]] + r2;
            assert(dedup_converted_rest(s, lt) == r);
            assert forall|i: int, j: int| 0 <= i < j < r.len() implies (#[trigger] r[i]).tick < (
            #[trigger] r[j]).tick by {
                if i > 0 {
                    assert(r[i] == r2[i - 1] && r[j] == r2[j - 1]);
                } else {
                    assert(r[j] == r2[j - 1]);
                }
            }
            assert forall|i: int| 0 <= i < r.len() implies (#[trigger] r[i]).tick > lt by {
                if i > 0 {
                    assert(r[i] == r2[i - 1]);
                }
            }
        }
    }
}

proof fn lemma_sum_deltas_split(t: Seq<TimedEvent>)
    requires
        t.len() > 0,
    ensures
        sum_deltas(t) == t[0].delta + sum_deltas(t.drop_first()),
    decreases t.len(),
{
    if t.len() == 1 {
        assert(t.drop_first() =~= Seq::<TimedEvent>::empty());
        assert(t.drop_last() =~= Seq::<TimedEvent>::empty());
        assert(t.last() == t[0]);
    } else {
        lemma_sum_deltas_split(t.drop_last());
        assert(t.drop_last()[0] == t[0]);
        assert(t.drop_last().drop_first() =~= t.drop_first().drop_last());
        assert(t.drop_first().last() == t.last());
    }
}

proof fn lemma_track_tempos_bound(t: Seq<TimedEvent>, tick0: int, k: int)
    requires
        0 <= k < track_tempos(t, tick0).len(),
    ensures
        tick0 <= track_tempos(t, tick0)[k].0 <= tick0 + sum_deltas(t),
    decreases t.len(),
{
    lemma_sum_deltas_split(t);
    lemma_sum_nonneg_events(t.drop_first());
    let tick = tick0 + t[0].delta;
    match t[0].kind {
        EventKind::Tempo(us) => {
            if k == 0 {
                assert(track_tempos(t, tick0)[0].0 == tick);
            } else {
                lemma_track_tempos_bound(t.drop_first(), tick, k - 1);
                assert(track_tempos(t, tick0)[k] == track_tempos(t.drop_first(), tick)[k - 1]);
            }
        },
        _ => {
            lemma_track_tempos_bound(t.drop_first(), tick, k);
            assert(track_tempos(t, tick0)[k] == track_tempos(t.drop_first(), tick)[k]);
        },
    }
}

proof fn lemma_all_tempos_bound(ts: Seq<Seq<TimedEvent>>, tpb: int, k: int)
    requires
        tracks_bounded(ts, tpb),
        0 <= k < all_tempos(ts).len(),
    ensures
        0 <= all_tempos(ts)[k].0,
        all_tempos(ts)[k].0 * 384 <= (TICK_LIMIT - 64) * tpb,
    decreases ts.len(),
{
    let head = track_tempos(ts[0], 0);
    if k < head.len() {
        lemma_track_tempos_bound(ts[0], 0, k);
        assert(all_tempos(ts)[k] == head[k]);
        assert(head[k].0 <= sum_deltas(ts[0]));
        assert(head[k].0 * 384 <= sum_deltas(ts[0]) * 384) by (nonlinear_arith)
            requires
                head[k].0 <= sum_deltas(ts[0]),
        ;
        assert(sum_deltas(ts[0]) * 384 <= (TICK_LIMIT - 64) * tpb);
    } else {
        assert forall|i: int|
            0 <= i < ts.drop_first().len() implies sum_deltas(#[trigger] ts.drop_first()[i]) * 384
            <= (TICK_LIMIT - 64) * tpb by {
            assert(ts.drop_first()[i] == ts[i + 1]);
        }
        lemma_all_tempos_bound(ts.drop_first(), tpb, k - head.len());
        assert(all_tempos(ts)[k] == all_tempos(ts.drop_first())[k - head.len()]);
    }
}

/// The final tempo timeline has strictly increasing ticks.
pub proof fn lemma_tempo_timeline_strict(ts: Seq<Seq<TimedEvent>>, tpb: int)
    requires
        tpb > 0,
        tracks_bounded(ts, tpb),
    ensures
        forall|i: int, j: int|
            0 <= i < j < spec_tempo_timeline(ts, tpb).len() ==> (#[trigger] spec_tempo_timeline(
                ts,
                tpb,
            )[i]).tick < (#[trigger] spec_tempo_timeline(ts, tpb)[j]).tick,
{
    let st = source_tempos(ts);
    lemma_source_tempos_sorted(ts);
    // every source tick is bounded, so the converted ticks stay inside
    // the tick limit and casting them preserves order
    assert forall|k: int| 0 <= k < st.len() implies 0 <= (#[trigger] st[k]).0 && st[k].0 * 384
        <= (TICK_LIMIT - 64) * tpb by {
        lemma_dedup_tempos_elems(sort_tempos(all_tempos(ts)), k);
        let w = choose|w: int|
            0 <= w < sort_tempos(all_tempos(ts)).len() && sort_tempos(all_tempos(ts))[w] == st[k];
        lemma_sort_tempos_elems(all_tempos(ts), w);
        let w2 = choose|w2: int|
            0 <= w2 < all_tempos(ts).len() && all_tempos(ts)[w2] == sort_tempos(
                all_tempos(ts),
            )[w];
        lemma_all_tempos_bound(ts, tpb, w2);
    }
    let conv = converted_tempos(st, tpb);
    assert(conv.len() == st.len());
    assert forall|i: int, j: int| 0 <= i < j < conv.len() implies (#[trigger] conv[i]).tick <= (
    #[trigger] conv[j]).tick by {
        lemma_rescale_monotone(st[i].0, st[j].0, tpb);
        lemma_snap_monotone(spec_rescale(st[i].0, tpb), spec_rescale(st[j].0, tpb));
        lemma_rescale_bound(st[i].0, tpb, TICK_LIMIT - 64);
        lemma_rescale_bound(st[j].0, tpb, TICK_LIMIT - 64);
        lemma_snap_bounds(spec_rescale(st[i].0, tpb), spec_rescale(st[i].0, tpb));
        lemma_snap_bounds(spec_rescale(st[j].0, tpb), spec_rescale(st[j].0, tpb));
        assert(conv[i] == convert_tempo(st[i], tpb));
        assert(conv[j] == convert_tempo(st[j], tpb));
    }
    let c = spec_tempo_changes(ts, tpb);
    if conv.len() > 0 {
        assert forall|i: int, j: int|
            0 <= i < j < conv.drop_first().len() implies (#[trigger] conv.drop_first()[i]).tick
            <= (#[trigger] conv.drop_first()[j]).tick by {
            assert(conv.drop_first()[i] == conv[i + 1] && conv.drop_first()[j] == conv[j + 1]);
        }
        assert forall|i: int| 0 <= i < conv.drop_first().len() implies (
        #[trigger] conv.drop_first()[i]).tick >= conv[0].tick by {
            assert(conv.drop_first()[i] == conv[i + 1]);
        }
        lemma_dedup_converted_rest_strict(conv.drop_first(), conv[0].tick);
        let r2 = dedup_converted_rest(conv.drop_first(), conv[0].tick);
        let r = seq![conv[0]] + r2;
        assert forall|i: int, j: int| 0 <= i < j < r.len() implies (#[trigger] r[i]).tick < (
        #[trigger] r[j]).tick by {
            if i > 0 {
                assert(r[i] == r2[i - 1] && r[j] == r2[j - 1]);
            } else {
                assert(r[j] == r2[j - 1]);
            }
        }
    }
}

/// The final tempo timeline: the converted tempo changes, or a single
/// default of 120 BPM at tick zero when the source has none.
pub open spec fn spec_tempo_timeline(ts: Seq<Seq<TimedEvent>>, tpb: int) -> Seq<TempoChange> {
    let c = spec_tempo_changes(ts, tpb);
    if c.len() == 0 {
        seq![TempoChange { tick: 0, bpm: 120 }]
    } else {
        c
    }
}

/// Extracts notes and tempo changes from parsed per-track MIDI events.
/// Fails on a non-metrical (or zero ticks-per-beat) timing reference. On
/// success, every note is well formed, the notes are the paired, sorted
/// and velocity-deduplicated list of the source's note events, the BPM is
/// the first tempo's (or 120), and the tempo timeline is rescaled, snapped
/// and deduplicated, bounded by the tick limit.
pub fn extract_midi_notes(
    tracks: &Vec<Vec<TimedEvent>>,
    timing: Timing,
    instrument_names: &Vec<String>,
) -> (r: Result<(Vec<Note>, u32, Vec<TempoChange>), MmlError>)
    requires
        instrument_names@.len() == 128,
        match timing {
            Timing::Metrical(tpb) => tpb > 0 ==> tracks_bounded(
                tracks_view(tracks@),
                tpb as int,
            ),
            Timing::NonMetrical => true,
        },
    ensures
        match timing {
            Timing::Metrical(tpb) => if tpb > 0 {
                match r {
                    Ok((notes, bpm, tempos)) => {
                        &&& notes@ == spec_extract_notes(
                            tracks_view(tracks@),
                            tpb as int,
                            instrument_names@,
                        )
                        &&& forall|k: int| 0 <= k < notes@.len() ==> note_wf(#[trigger] notes@[k])
                        &&& bpm == spec_start_bpm(tracks_view(tracks@))
                        &&& tempos@ == spec_tempo_timeline(tracks_view(tracks@), tpb as int)
                        &&& tempos@.len() > 0
                        &&& forall|j: int|
                            0 <= j < tempos@.len() ==> (#[trigger] tempos@[j]).tick <= TICK_LIMIT
                        &&& forall|i: int, j: int|
                            0 <= i < j < tempos@.len() ==> (#[trigger] tempos@[i]).tick < (
                            #[trigger] tempos@[j]).tick
                    },
                    Err(_) => false,
                }
            } else {
                r matches Err(MmlError::UnsupportedTimingFormat)
            },
            Timing::NonMetrical => r matches Err(MmlError::UnsupportedTimingFormat),
        },
{
    let tpb: u16 = match timing {
        Timing::Metrical(t) => {
            if t == 0 {
                return Err(MmlError::UnsupportedTimingFormat);
            }
            t
        },
        Timing::NonMetrical => {
            return Err(MmlError::UnsupportedTimingFormat);
        },
    };
    let ghost tv = tracks_view(tracks@);
    // tempo timeline
    let collected = collect_tempos(tracks, tpb);
    let sorted = sort_tempos_exec(collected);
    let deduped = dedup_tempos_exec(sorted);
    proof {
        assert(tempos_view(deduped@) == source_tempos(tv));
        assert forall|k: int|
            0 <= k < deduped@.len() implies (#[trigger] deduped@[k]).0 as int * 384 <= (
        TICK_LIMIT - 64) * (tpb as int) by {
            lemma_dedup_tempos_elems(tempos_view(sorted@), k);
            assert(tempos_view(deduped@)[k] == (deduped@[k].0 as int, deduped@[k].1));
            let w = choose|w: int|
                0 <= w < tempos_view(sorted@).len() && tempos_view(sorted@)[w] == tempos_view(
                    deduped@,
                )[k];
            lemma_sort_tempos_elems(tempos_view(collected@), w);
            let w2 = choose|w2: int|
                0 <= w2 < tempos_view(collected@).len() && tempos_view(collected@)[w2]
                    == tempos_view(sorted@)[w];
        }
    }
    let bpm: u32 = if deduped.len() > 0 {
        deduped[0].1
    } else {
        120
    };
    let mut conv: Vec<TempoChange> = Vec::new();
    proof {
        assert(conv@ =~= converted_tempos(tempos_view(deduped@).take(0), tpb as int));
    }
    let mut k: usize = 0;
    while k < deduped.len()
        invariant
            k <= deduped@.len(),
            tpb > 0,
            forall|j: int|
                0 <= j < deduped@.len() ==> (#[trigger] deduped@[j]).0 as int * 384 <= (
                TICK_LIMIT - 64) * (tpb as int),
            conv@ == converted_tempos(tempos_view(deduped@).take(k as int), tpb as int),
            forall|j: int| 0 <= j < conv@.len() ==> (#[trigger] conv@[j]).tick <= TICK_LIMIT,
        decreases deduped@.len() - k,
    {
        let e = deduped[k];
        proof {
            assert(e.0 <= 0x4000_0000_0000u64) by (nonlinear_arith)
                requires
                    e.0 as int * 384 <= (TICK_LIMIT - 64) * (tpb as int),
                    tpb <= 0xFFFF,
                    TICK_LIMIT == 0x0800_0000,
            ;
            lemma_rescale_bound(e.0 as int, tpb as int, TICK_LIMIT - 64);
        }
        let rc = rescale(e.0, tpb);
        let snapped = snap_to_grid(rc as u32);
        let ghost old_conv = conv@;
        conv.push(TempoChange { tick: snapped, bpm: e.1 });
        proof {
            assert(tempos_view(deduped@).take(k as int + 1).drop_last() =~= tempos_view(
                deduped@,
            ).take(k as int));
            assert(conv@ =~= converted_tempos(
                tempos_view(deduped@).take(k as int + 1),
                tpb as int,
            )) by {
                assert(conv@.last() == convert_tempo(tempos_view(deduped@)[k as int], tpb as int));
                assert(old_conv =~= converted_tempos(
                    tempos_view(deduped@).take(k as int),
                    tpb as int,
                ));
            }
        }
        k = k + 1;
    }
    proof {
        assert(tempos_view(deduped@).take(deduped@.len() as int) =~= tempos_view(deduped@));
    }
    // drop repeated grid ticks
    let ghost cv = conv@;
    let mut final_tempos: Vec<TempoChange> = Vec::new();
    if conv.len() > 0 {
        final_tempos.push(conv[0]);
        let mut last_tick: u32 = conv[0].tick;
        proof {
            assert(cv.skip(1) =~= cv.drop_first());
            assert(final_tempos@ + dedup_converted_rest(cv.skip(1), last_tick) =~= dedup_converted(
                cv,
            ));
        }
        let mut j: usize = 1;
        while j < conv.len()
            invariant
                1 <= j <= cv.len(),
                cv == conv@,
                final_tempos@ + dedup_converted_rest(cv.skip(j as int), last_tick)
                    == dedup_converted(cv),
            decreases cv.len() - j,
        {
            proof {
                assert(cv.skip(j as int)[0] == cv[j as int]);
                assert(cv.skip(j as int).drop_first() =~= cv.skip(j as int + 1));
            }
            let x = conv[j];
            if x.tick != last_tick {
                let ghost old_ft = final_tempos@;
                final_tempos.push(x);
                last_tick = x.tick;
                proof {
                    assert(final_tempos@ + dedup_converted_rest(cv.skip(j as int + 1), last_tick)
                        =~= dedup_converted(cv));
                }
            }
            j = j + 1;
        }
        proof {
            assert(cv.skip(cv.len() as int) =~= Seq::<TempoChange>::empty());
            assert(final_tempos@ =~= dedup_converted(cv));
        }
    } else {
        proof {
            assert(final_tempos@ =~= dedup_converted(cv));
        }
    }
    if final_tempos.len() == 0 {
        final_tempos.push(TempoChange { tick: 0, bpm: 120 });
        proof {
            assert(final_tempos@ =~= seq![TempoChange { tick: 0, bpm: 120 }]);
        }
    }
    proof {
        assert(final_tempos@ == spec_tempo_timeline(tv, tpb as int));
        assert forall|j: int|
            0 <= j < final_tempos@.len() implies (#[trigger] final_tempos@[j]).tick
            <= TICK_LIMIT by {
            let c = spec_tempo_changes(tv, tpb as int);
            if c.len() == 0 {
            } else {
                lemma_dedup_converted_elems(cv, j);
                let w = choose|w: int| 0 <= w < cv.len() && cv[w] == final_tempos@[j];
            }
        }
    }
    // notes
    let mut notes: Vec<Note> = Vec::new();
    proof {
        assert(tv.skip(0) =~= tv);
        assert(notes@ + raw_notes(tv.skip(0), tpb as int, instrument_names@) =~= raw_notes(
            tv,
            tpb as int,
            instrument_names@,
        ));
    }
    let mut i: usize = 0;
    while i < tracks.len()
        invariant
            i <= tracks@.len(),
            tv == tracks_view(tracks@),
            tpb > 0,
            instrument_names@.len() == 128,
            tracks_bounded(tv, tpb as int),
            notes@ + raw_notes(tv.skip(i as int), tpb as int, instrument_names@) == raw_notes(
                tv,
                tpb as int,
                instrument_names@,
            ),
            forall|k2: int| 0 <= k2 < notes@.len() ==> note_wf(#[trigger] notes@[k2]),
        decreases tracks@.len() - i,
    {
        proof {
            assert(tv[i as int] == tracks@[i as int]@);
            assert(tv.skip(i as int)[0] == tv[i as int]);
            assert(tv.skip(i as int).drop_first() =~= tv.skip(i as int + 1));
        }
        pair_track(&tracks[i], tpb, instrument_names, &mut notes);
        i = i + 1;
    }
    proof {
        assert(raw_notes(tv.skip(tv.len() as int), tpb as int, instrument_names@) =~= Seq::<
            Note,
        >::empty());
        assert(notes@ =~= raw_notes(tv, tpb as int, instrument_names@));
    }
    proof {
        lemma_tempo_timeline_strict(tv, tpb as int);
    }
    let ghost raw = notes@;
    let sorted_notes = sort_notes_exec(notes);
    let deduped_notes = dedup_notes_exec(sorted_notes);
    proof {
        assert forall|k2: int|
            0 <= k2 < deduped_notes@.len() implies note_wf(#[trigger] deduped_notes@[k2]) by {
            lemma_dedup_wf(sort_notes(raw), raw, k2);
        }
    }
    Ok((deduped_notes, bpm, final_tempos))
}

proof fn lemma_dedup_converted_elems(s: Seq<TempoChange>, j: int)
    requires
        0 <= j < dedup_converted(s).len(),
    ensures
        exists|w: int| 0 <= w < s.len() && s[w] == dedup_converted(s)[j],
{
    if s.len() > 0 {
        if j == 0 {
            assert(s[0] == dedup_converted(s)[0]);
        } else {
            lemma_dedup_converted_rest_elems(s.drop_first(), s[0].tick, j - 1);
            let w = choose|w: int|
                0 <= w < s.drop_first().len() && s.drop_first()[w] == dedup_converted_rest(
                    s.drop_first(),
                    s[0].tick,
                )[j - 1];
            assert(s[w + 1] == dedup_converted(s)[j]);
        }
    }
}

proof fn lemma_dedup_converted_rest_elems(s: Seq<TempoChange>, lt: u32, j: int)
    requires
        0 <= j < dedup_converted_rest(s, lt).len(),
    ensures
        exists|w: int| 0 <= w < s.len() && s[w] == dedup_converted_rest(s, lt)[j],
    decreases s.len(),
{
    if s.len() > 0 {
        if s[0].tick == lt {
            lemma_dedup_converted_rest_elems(s.drop_first(), lt, j);
            let w = choose|w: int|
                0 <= w < s.drop_first().len() && s.drop_first()[w] == dedup_converted_rest(
                    s.drop_first(),
                    lt,
                )[j];
            assert(s[w + 1] == dedup_converted_rest(s, lt)[j]);
        } else {
            if j == 0 {
                assert(dedup_converted_rest(s, lt)[0] == s[0]);
            } else {
                lemma_dedup_converted_rest_elems(s.drop_first(), s[0].tick, j - 1);
                let w = choose|w: int|
                    0 <= w < s.drop_first().len() && s.drop_first()[w] == dedup_converted_rest(
                        s.drop_first(),
                        s[0].tick,
                    )[j - 1];
                assert(s[w + 1] == dedup_converted_rest(s, lt)[j]);
            }
        }
    }
}

/// Well-formedness survives sorting and deduplication, since both only
/// rearrange or drop notes.
proof fn lemma_dedup_wf(sorted: Seq<Note>, raw: Seq<Note>, k: int)
    requires
        sorted == sort_notes(raw),
        forall|j: int| 0 <= j < raw.len() ==> note_wf(#[trigger] raw[j]),
        0 <= k < dedup_notes(sorted).len(),
    ensures
        note_wf(dedup_notes(sorted)[k]),
{
    let e = dedup_notes(sorted)[k];
    if sorted.len() > 0 {
        lemma_dedup_notes_rest_elems(sorted.drop_first(), sorted[0], k);
        if e == sorted[0] {
            lemma_sort_notes_elems(raw, 0);
            let w = choose|w: int| 0 <= w < raw.len() && raw[w] == sorted[0];
        } else {
            let w0 = choose|w0: int|
                0 <= w0 < sorted.drop_first().len() && sorted.drop_first()[w0] == e;
            lemma_sort_notes_elems(raw, w0 + 1);
            let w = choose|w: int| 0 <= w < raw.len() && raw[w] == sorted[w0 + 1];
        }
    }
}

} // verus!
