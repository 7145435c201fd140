//! Voice allocation: greedily distributes notes (including chords) across
//! monophonic voices, keeping voice 0 as a preemptible melody lane and all
//! other voices as first-fit lanes. Notes that fit nowhere under the
//! priority rules open a new voice; within a chord, notes beyond the
//! available voices are placed in freshly created voices as well.

use vstd::prelude::*;
use crate::lengths::dist;
use crate::types::Note;
use crate::types::voice_non_overlapping;

verus! {

/// Abstract view of a list of voices.
pub open spec fn voices_view(v: Seq<Vec<Note>>) -> Seq<Seq<Note>> {
    v.map_values(|x: Vec<Note>| x@)
}

/// A note can be appended to a voice when the voice is empty or its last
/// note has ended by the time the new note starts.
pub open spec fn note_fits(voice: Seq<Note>, n: Note) -> bool {
    voice.len() == 0 || voice.last().end <= n.start
}

/// Shortens the last note of a voice so that it ends where a preempting
/// note at tick `t` begins.
pub open spec fn preempt_last(voice: Seq<Note>, t: u32) -> Seq<Note>
    recommends
        voice.len() > 0,
{
    let last = voice.last();
    let cut = Note {
        end: t,
        duration: if t >= last.start {
            (t - last.start) as u32
        } else {
            0
        },
        ..last
    };
    voice.update(voice.len() - 1, cut)
}

/// Appends `n` to the first voice it fits, scanning from index `i`; when
/// none fits, a new voice is created. Landing in voice 0 updates the last
/// melody pitch.
pub open spec fn first_fit_from(
    voices: Seq<Seq<Note>>,
    n: Note,
    lm: Option<u8>,
    i: int,
) -> (Seq<Seq<Note>>, Option<u8>)
    recommends
        0 <= i,
    decreases voices.len() - i,
{
    if i < 0 || i >= voices.len() {
        (voices.push(seq![n]), lm)
    } else if note_fits(voices[i], n) {
        (
            voices.update(i, voices[i].push(n)),
            if i == 0 {
                Some(n.note)
            } else {
                lm
            },
        )
    } else {
        first_fit_from(voices, n, lm, i + 1)
    }
}

/// Whether a pitch lies within the melodic continuity window of the last
/// melody pitch.
pub open spec fn pitch_close(a: u8, last: Option<u8>) -> bool {
    match last {
        Some(l) => dist(a as int, l as int) <= 5,
        None => false,
    }
}

/// Places a lone note: high or melody-adjacent notes try voice 0 first,
/// preempting a lower-pitched note still sounding there; everything else
/// goes to the first voice that fits.
pub open spec fn spec_place_single(voices: Seq<Seq<Note>>, lm: Option<u8>, n: Note) -> (
    Seq<Seq<Note>>,
    Option<u8>,
) {
    let is_high = n.note >= 72;
    let is_close = pitch_close(n.note, lm);
    if is_high || is_close {
        if voices.len() == 0 {
            (seq![seq![n]], Some(n.note))
        } else if note_fits(voices[0], n) {
            (voices.update(0, voices[0].push(n)), Some(n.note))
        } else if is_high && voices[0].last().note < n.note {
            (voices.update(0, preempt_last(voices[0], n.start).push(n)), Some(n.note))
        } else {
            first_fit_from(voices, n, lm, 0)
        }
    } else {
        first_fit_from(voices, n, lm, 0)
    }
}

/// Places one note of a chord's priority list; only the melody note (the
/// first of the list) in the high register may preempt voice 0.
pub open spec fn spec_place_chord_note(
    voices: Seq<Seq<Note>>,
    lm: Option<u8>,
    n: Note,
    first: bool,
) -> (Seq<Seq<Note>>, Option<u8>) {
    if first && n.note >= 72 {
        if voices.len() == 0 {
            (seq![seq![n]], Some(n.note))
        } else if voices[0].len() != 0 && voices[0].last().end > n.start {
            if voices[0].last().note < n.note {
                (voices.update(0, preempt_last(voices[0], n.start).push(n)), Some(n.note))
            } else {
                first_fit_from(voices, n, lm, 0)
            }
        } else {
            (voices.update(0, voices[0].push(n)), Some(n.note))
        }
    } else {
        first_fit_from(voices, n, lm, 0)
    }
}

/// Inserts `x` into a pitch-descending list, after any equal pitches.
pub open spec fn insert_desc(s: Seq<Note>, x: Note) -> Seq<Note>
    decreases s.len(),
{
    if s.len() == 0 {
        seq![x]
    } else if x.note > s[0].note {
        seq![x] + s
    } else {
        seq![s[0]] + insert_desc(s.drop_first(), x)
    }
}

/// Stable sort of a chord by descending pitch.
pub open spec fn sort_chord(s: Seq<Note>) -> Seq<Note>
    decreases s.len(),
{
    if s.len() == 0 {
        s
    } else {
        insert_desc(sort_chord(s.drop_last()), s.last())
    }
}

/// The best melody candidate among `s[..i]`: the first of the highest
/// pitches within the continuity window of the last melody pitch.
pub open spec fn pick_melody_upto(s: Seq<Note>, last: u8, i: int) -> Option<int>
    decreases i,
{
    if i <= 0 {
        None
    } else {
        let prev = pick_melody_upto(s, last, i - 1);
        let ok = dist(s[i - 1].note as int, last as int) <= 5;
        match prev {
            None => if ok {
                Some(i - 1)
            } else {
                None
            },
            Some(p) => if ok && s[i - 1].note > s[p].note {
                Some(i - 1)
            } else {
                Some(p)
            },
        }
    }
}

/// The index of the chord note chosen as melody: with a last melody pitch,
/// the highest in-window candidate; otherwise the highest pitch.
pub open spec fn melody_idx(s: Seq<Note>, lm: Option<u8>) -> int {
    match lm {
        None => 0,
        Some(l) => match pick_melody_upto(s, l, s.len() as int) {
            None => 0,
            Some(p) => p,
        },
    }
}

/// The placement order of a pitch-sorted chord: melody, then bass when it
/// differs from the melody, then the remaining harmony notes by descending
/// pitch.
pub open spec fn chord_priority(sorted: Seq<Note>, lm: Option<u8>) -> Seq<Note>
    recommends
        sorted.len() > 0,
{
    let melody = sorted[melody_idx(sorted, lm)];
    let bass = sorted.last();
    let harmony = sorted.filter(|x: Note| x.note != melody.note && x.note != bass.note);
    let base = if bass.note != melody.note {
        seq![melody, bass]
    } else {
        seq![melody]
    };
    base + harmony
}

/// Places the notes of a priority list in order.
pub open spec fn place_notes(
    priority: Seq<Note>,
    voices: Seq<Seq<Note>>,
    lm: Option<u8>,
    first: bool,
) -> (Seq<Seq<Note>>, Option<u8>)
    decreases priority.len(),
{
    if priority.len() == 0 {
        (voices, lm)
    } else {
        let r = spec_place_chord_note(voices, lm, priority[0], first);
        place_notes(priority.drop_first(), r.0, r.1, false)
    }
}

/// Places a group of notes that share a start tick.
pub open spec fn place_group(group: Seq<Note>, voices: Seq<Seq<Note>>, lm: Option<u8>) -> (
    Seq<Seq<Note>>,
    Option<u8>,
) {
    if group.len() == 0 {
        (voices, lm)
    } else if group.len() == 1 {
        spec_place_single(voices, lm, group[0])
    } else {
        let sorted = sort_chord(group);
        place_notes(chord_priority(sorted, lm), voices, lm, true)
    }
}

/// The smallest start tick among a non-empty list of notes.
pub open spec fn min_start(s: Seq<Note>) -> u32
    recommends
        s.len() > 0,
    decreases s.len(),
{
    if s.len() <= 1 {
        s[0].start
    } else {
        let m = min_start(s.drop_last());
        if s.last().start < m {
            s.last().start
        } else {
            m
        }
    }
}

proof fn lemma_min_start_le(s: Seq<Note>, i: int)
    requires
        0 <= i < s.len(),
    ensures
        min_start(s) <= s[i].start,
    decreases s.len(),
{
    if s.len() > 1 && i < s.len() - 1 {
        lemma_min_start_le(s.drop_last(), i);
    }
}

proof fn lemma_min_start_in(s: Seq<Note>)
    requires
        s.len() > 0,
    ensures
        exists|i: int| 0 <= i < s.len() && s[i].start == min_start(s),
    decreases s.len(),
{
    if s.len() <= 1 {
        assert(s[0].start == min_start(s));
    } else if s.last().start < min_start(s.drop_last()) {
        assert(s[s.len() - 1].start == min_start(s));
    } else {
        lemma_min_start_in(s.drop_last());
        let i = choose|i: int| 0 <= i < s.drop_last().len() && s.drop_last()[i].start == min_start(
            s.drop_last(),
        );
        assert(s[i].start == min_start(s));
    }
}

proof fn lemma_filter_misses_one(s: Seq<Note>, pred: spec_fn(Note) -> bool)
    requires
        exists|i: int| 0 <= i < s.len() && !pred(s[i]),
    ensures
        s.filter(pred).len() < s.len(),
    decreases s.len(),
{
    reveal(Seq::filter);
    broadcast use vstd::seq_lib::group_seq_lib_default;

    let i = choose|i: int| 0 <= i < s.len() && !pred(s[i]);
    if !pred(s.last()) {
        assert(s.filter(pred).len() <= s.drop_last().len());
    } else {
        assert(i < s.len() - 1);
        assert(s.drop_last()[i] == s[i]);
        lemma_filter_misses_one(s.drop_last(), pred);
    }
}

#[via_fn]
proof fn spec_allocate_from_dec(remaining: Seq<Note>, voices: Seq<Seq<Note>>, lm: Option<u8>) {
    if remaining.len() > 0 {
        let t = min_start(remaining);
        lemma_min_start_in(remaining);
        lemma_filter_misses_one(remaining, |n: Note| n.start != t);
    }
}

/// Allocates notes to voices, processing groups of simultaneous notes in
/// ascending start-tick order while threading the last melody pitch.
pub open spec fn spec_allocate_from(
    remaining: Seq<Note>,
    voices: Seq<Seq<Note>>,
    lm: Option<u8>,
) -> Seq<Seq<Note>>
    decreases remaining.len(),
    via spec_allocate_from_dec
{
    if remaining.len() == 0 {
        voices
    } else {
        let t = min_start(remaining);
        let group = remaining.filter(|n: Note| n.start == t);
        let rest = remaining.filter(|n: Note| n.start != t);
        let r = place_group(group, voices, lm);
        spec_allocate_from(rest, r.0, r.1)
    }
}

/// The voices the allocator produces for a list of notes.
pub open spec fn spec_allocate(notes: Seq<Note>) -> Seq<Seq<Note>> {
    spec_allocate_from(notes, Seq::empty(), None)
}

/// All voices in a list are free of overlaps.
pub open spec fn voices_ok(vs: Seq<Seq<Note>>) -> bool {
    forall|i: int| 0 <= i < vs.len() ==> voice_non_overlapping(#[trigger] vs[i])
}

proof fn lemma_preempt_push_ok(voice: Seq<Note>, n: Note)
    requires
        voice_non_overlapping(voice),
        voice.len() > 0,
    ensures
        voice_non_overlapping(preempt_last(voice, n.start).push(n)),
{
    let v2 = preempt_last(voice, n.start).push(n);
    assert forall|i: int| 0 <= i && i + 1 < v2.len() implies #[trigger] v2[i].end <= v2[i + 1].start
    by {
        if i + 2 < v2.len() - 1 {
            assert(v2[i] == voice[i] && v2[i + 1] == voice[i + 1]);
        } else if i + 2 == v2.len() - 1 {
            // an untouched note followed by the truncated one, whose start
            // is unchanged
            assert(v2[i] == voice[i] && v2[i + 1].start == voice[i + 1].start);
        } else {
            // the truncated note followed by the preempting note
            assert(v2[i].end == n.start && v2[i + 1] == n);
        }
    }
}

proof fn lemma_push_fit_ok(voice: Seq<Note>, n: Note)
    requires
        voice_non_overlapping(voice),
        note_fits(voice, n),
    ensures
        voice_non_overlapping(voice.push(n)),
{
    let v2 = voice.push(n);
    assert forall|i: int| 0 <= i && i + 1 < v2.len() implies #[trigger] v2[i].end <= v2[i + 1].start
    by {
        if i + 2 < v2.len() {
            assert(v2[i] == voice[i] && v2[i + 1] == voice[i + 1]);
        } else {
            assert(v2[i] == voice.last() && v2[i + 1] == n);
        }
    }
}

proof fn lemma_first_fit_ok(voices: Seq<Seq<Note>>, n: Note, lm: Option<u8>, i: int)
    requires
        voices_ok(voices),
    ensures
        voices_ok(first_fit_from(voices, n, lm, i).0),
    decreases voices.len() - i,
{
    if i < 0 || i >= voices.len() {
        let vs2 = voices.push(seq![n]);
        assert(voice_non_overlapping(seq![n]));
        assert forall|k: int| 0 <= k < vs2.len() implies voice_non_overlapping(
            #[trigger] vs2[k],
        ) by {
            if k < voices.len() {
                assert(vs2[k] == voices[k]);
            }
        }
    } else if note_fits(voices[i], n) {
        lemma_push_fit_ok(voices[i], n);
        let vs2 = voices.update(i, voices[i].push(n));
        assert forall|k: int| 0 <= k < vs2.len() implies voice_non_overlapping(
            #[trigger] vs2[k],
        ) by {
            if k != i {
                assert(vs2[k] == voices[k]);
            }
        }
    } else {
        lemma_first_fit_ok(voices, n, lm, i + 1);
    }
}

proof fn lemma_update0_ok(voices: Seq<Seq<Note>>, v0: Seq<Note>)
    requires
        voices_ok(voices),
        voices.len() > 0,
        voice_non_overlapping(v0),
    ensures
        voices_ok(voices.update(0, v0)),
{
    let vs2 = voices.update(0, v0);
    assert forall|k: int| 0 <= k < vs2.len() implies voice_non_overlapping(#[trigger] vs2[k]) by {
        if k != 0 {
            assert(vs2[k] == voices[k]);
        }
    }
}

proof fn lemma_place_single_ok(voices: Seq<Seq<Note>>, lm: Option<u8>, n: Note)
    requires
        voices_ok(voices),
    ensures
        voices_ok(spec_place_single(voices, lm, n).0),
{
    let is_high = n.note >= 72;
    let is_close = pitch_close(n.note, lm);
    if is_high || is_close {
        if voices.len() == 0 {
            assert(voice_non_overlapping(seq![n]));
            assert(voices_ok(seq![seq![n]]));
        } else if note_fits(voices[0], n) {
            lemma_push_fit_ok(voices[0], n);
            lemma_update0_ok(voices, voices[0].push(n));
        } else if is_high && voices[0].last().note < n.note {
            lemma_preempt_push_ok(voices[0], n);
            lemma_update0_ok(voices, preempt_last(voices[0], n.start).push(n));
        } else {
            lemma_first_fit_ok(voices, n, lm, 0);
        }
    } else {
        lemma_first_fit_ok(voices, n, lm, 0);
    }
}

proof fn lemma_place_chord_note_ok(voices: Seq<Seq<Note>>, lm: Option<u8>, n: Note, first: bool)
    requires
        voices_ok(voices),
    ensures
        voices_ok(spec_place_chord_note(voices, lm, n, first).0),
{
    if first && n.note >= 72 {
        if voices.len() == 0 {
            assert(voice_non_overlapping(seq![n]));
            assert(voices_ok(seq![seq![n]]));
        } else if voices[0].len() != 0 && voices[0].last().end > n.start {
            if voices[0].last().note < n.note {
                lemma_preempt_push_ok(voices[0], n);
                lemma_update0_ok(voices, preempt_last(voices[0], n.start).push(n));
            } else {
                lemma_first_fit_ok(voices, n, lm, 0);
            }
        } else {
            lemma_push_fit_ok(voices[0], n);
            lemma_update0_ok(voices, voices[0].push(n));
        }
    } else {
        lemma_first_fit_ok(voices, n, lm, 0);
    }
}

proof fn lemma_place_notes_ok(priority: Seq<Note>, voices: Seq<Seq<Note>>, lm: Option<u8>, first: bool)
    requires
        voices_ok(voices),
    ensures
        voices_ok(place_notes(priority, voices, lm, first).0),
    decreases priority.len(),
{
    if priority.len() > 0 {
        lemma_place_chord_note_ok(voices, lm, priority[0], first);
        let r = spec_place_chord_note(voices, lm, priority[0], first);
        lemma_place_notes_ok(priority.drop_first(), r.0, r.1, false);
    }
}

proof fn lemma_place_group_ok(group: Seq<Note>, voices: Seq<Seq<Note>>, lm: Option<u8>)
    requires
        voices_ok(voices),
    ensures
        voices_ok(place_group(group, voices, lm).0),
{
    if group.len() == 0 {
    } else if group.len() == 1 {
        lemma_place_single_ok(voices, lm, group[0]);
    } else {
        lemma_place_notes_ok(chord_priority(sort_chord(group), lm), voices, lm, true);
    }
}

proof fn lemma_allocate_from_ok(remaining: Seq<Note>, voices: Seq<Seq<Note>>, lm: Option<u8>)
    requires
        voices_ok(voices),
    ensures
        voices_ok(spec_allocate_from(remaining, voices, lm)),
    decreases remaining.len(),
{
    if remaining.len() > 0 {
        let t = min_start(remaining);
        let group = remaining.filter(|n: Note| n.start == t);
        let rest = remaining.filter(|n: Note| n.start != t);
        lemma_place_group_ok(group, voices, lm);
        let r = place_group(group, voices, lm);
        lemma_min_start_in(remaining);
        lemma_filter_misses_one(remaining, |n: Note| n.start != t);
        lemma_allocate_from_ok(rest, r.0, r.1);
    }
}

/// No two notes in a voice overlap: every voice the allocator produces is
/// monophonic, with each note ending at or before the next one starts.
pub proof fn lemma_allocator_non_overlapping(notes: Seq<Note>)
    ensures
        forall|i: int|
            0 <= i < spec_allocate(notes).len() ==> voice_non_overlapping(
                #[trigger] spec_allocate(notes)[i],
            ),
{
    lemma_allocate_from_ok(notes, Seq::empty(), None);
}

/// A note as the allocator may hold it: ordered, bounded ticks and a
/// consistent duration (the grid minimum may be lost to preemption).
pub open spec fn alloc_note_ok(n: Note) -> bool {
    &&& n.start < n.end
    &&& n.end <= crate::types::TICK_LIMIT
    &&& n.duration == n.end - n.start
}

/// All notes in all voices are allocator-well-formed.
pub open spec fn vnotes_ok(vs: Seq<Seq<Note>>) -> bool {
    forall|v: int, k: int|
        0 <= v < vs.len() && 0 <= k < vs[v].len() ==> alloc_note_ok(#[trigger] vs[v][k])
}

/// All notes in all voices start strictly before tick `t`.
pub open spec fn vnotes_below(vs: Seq<Seq<Note>>, t: int) -> bool {
    forall|v: int, k: int|
        0 <= v < vs.len() && 0 <= k < vs[v].len() ==> (#[trigger] vs[v][k]).start < t
}

/// All notes in all voices start at or before tick `t`.
pub open spec fn vnotes_at_most(vs: Seq<Seq<Note>>, t: int) -> bool {
    forall|v: int, k: int|
        0 <= v < vs.len() && 0 <= k < vs[v].len() ==> (#[trigger] vs[v][k]).start <= t
}

/// The total number of notes across all voices.
pub open spec fn total_count(vs: Seq<Seq<Note>>) -> int
    decreases vs.len(),
{
    if vs.len() == 0 {
        0
    } else {
        total_count(vs.drop_last()) + vs.last().len()
    }
}

proof fn lemma_total_update(vs: Seq<Seq<Note>>, i: int, v2: Seq<Note>)
    requires
        0 <= i < vs.len(),
    ensures
        total_count(vs.update(i, v2)) == total_count(vs) + v2.len() - vs[i].len(),
    decreases vs.len(),
{
    let u = vs.update(i, v2);
    if i == vs.len() - 1 {
        assert(u.drop_last() =~= vs.drop_last());
        assert(u.last() == v2);
    } else {
        assert(u.drop_last() =~= vs.drop_last().update(i, v2));
        assert(u.last() == vs.last());
        lemma_total_update(vs.drop_last(), i, v2);
    }
}

proof fn lemma_total_push(vs: Seq<Seq<Note>>, v2: Seq<Note>)
    ensures
        total_count(vs.push(v2)) == total_count(vs) + v2.len(),
{
    assert(vs.push(v2).drop_last() =~= vs);
    assert(vs.push(v2).last() == v2);
}

proof fn lemma_count_ge_each(vs: Seq<Seq<Note>>, v: int)
    requires
        0 <= v < vs.len(),
    ensures
        vs[v].len() <= total_count(vs),
        total_count(vs) >= 0,
    decreases vs.len(),
{
    if vs.len() > 0 {
        if v == vs.len() - 1 {
            lemma_count_nonneg(vs.drop_last());
        } else {
            lemma_count_ge_each(vs.drop_last(), v);
        }
    }
}

proof fn lemma_count_nonneg(vs: Seq<Seq<Note>>)
    ensures
        total_count(vs) >= 0,
    decreases vs.len(),
{
    if vs.len() > 0 {
        lemma_count_nonneg(vs.drop_last());
    }
}

proof fn lemma_first_fit_props(voices: Seq<Seq<Note>>, n: Note, lm: Option<u8>, i: int, t: int)
    requires
        vnotes_ok(voices),
        alloc_note_ok(n),
        vnotes_at_most(voices, t),
        n.start <= t,
    ensures
        vnotes_ok(first_fit_from(voices, n, lm, i).0),
        vnotes_at_most(first_fit_from(voices, n, lm, i).0, t),
        total_count(first_fit_from(voices, n, lm, i).0) == total_count(voices) + 1,
    decreases voices.len() - i,
{
    if i < 0 || i >= voices.len() {
        lemma_total_push(voices, seq![n]);
        let vs2 = voices.push(seq![n]);
        assert forall|v: int, k: int|
            0 <= v < vs2.len() && 0 <= k < vs2[v].len() implies alloc_note_ok(#[trigger] vs2[v][k])
            && vs2[v][k].start <= t by {
            if v < voices.len() {
                assert(vs2[v] == voices[v]);
            } else {
                assert(vs2[v][k] == n);
            }
        }
    } else if note_fits(voices[i], n) {
        lemma_total_update(voices, i, voices[i].push(n));
        let vs2 = voices.update(i, voices[i].push(n));
        assert forall|v: int, k: int|
            0 <= v < vs2.len() && 0 <= k < vs2[v].len() implies alloc_note_ok(#[trigger] vs2[v][k])
            && vs2[v][k].start <= t by {
            if v != i {
                assert(vs2[v] == voices[v]);
            } else {
                if k < voices[i].len() {
                    assert(vs2[v][k] == voices[i][k]);
                } else {
                    assert(vs2[v][k] == n);
                }
            }
        }
    } else {
        lemma_first_fit_props(voices, n, lm, i + 1, t);
    }
}

proof fn lemma_preempt_entry_props(voices: Seq<Seq<Note>>, n: Note, t: int)
    requires
        vnotes_ok(voices),
        alloc_note_ok(n),
        vnotes_below(voices, n.start as int),
        vnotes_at_most(voices, t),
        n.start <= t,
        voices.len() > 0,
        voices[0].len() > 0,
    ensures
        vnotes_ok(voices.update(0, preempt_last(voices[0], n.start).push(n))),
        vnotes_at_most(voices.update(0, preempt_last(voices[0], n.start).push(n)), t),
        total_count(voices.update(0, preempt_last(voices[0], n.start).push(n))) == total_count(
            voices,
        ) + 1,
{
    let v2 = preempt_last(voices[0], n.start).push(n);
    let vs2 = voices.update(0, v2);
    lemma_total_update(voices, 0, v2);
    assert forall|v: int, k: int|
        0 <= v < vs2.len() && 0 <= k < vs2[v].len() implies alloc_note_ok(#[trigger] vs2[v][k])
        && vs2[v][k].start <= t by {
        if v != 0 {
            assert(vs2[v] == voices[v]);
        } else {
            if k < voices[0].len() - 1 {
                assert(vs2[0][k] == voices[0][k]);
            } else if k == voices[0].len() - 1 {
                // the truncated note
                let last = voices[0].last();
                assert(vs2[0][k].start == last.start && vs2[0][k].end == n.start);
            } else {
                assert(vs2[0][k] == n);
            }
        }
    }
}

proof fn lemma_place_single_props(voices: Seq<Seq<Note>>, lm: Option<u8>, n: Note, t: int)
    requires
        vnotes_ok(voices),
        alloc_note_ok(n),
        vnotes_below(voices, n.start as int),
        vnotes_at_most(voices, t),
        n.start <= t,
    ensures
        vnotes_ok(spec_place_single(voices, lm, n).0),
        vnotes_at_most(spec_place_single(voices, lm, n).0, t),
        total_count(spec_place_single(voices, lm, n).0) == total_count(voices) + 1,
{
    let is_high = n.note >= 72;
    let is_close = pitch_close(n.note, lm);
    if is_high || is_close {
        if voices.len() == 0 {
            let vs2 = seq![seq![n]];
            assert(vs2.drop_last() =~= Seq::<Seq<Note>>::empty());
            assert(total_count(Seq::<Seq<Note>>::empty()) == 0);
            assert(total_count(vs2) == 1);
            assert(vnotes_ok(vs2) && vnotes_at_most(vs2, t));
        } else if note_fits(voices[0], n) {
            lemma_total_update(voices, 0, voices[0].push(n));
            let vs2 = voices.update(0, voices[0].push(n));
            assert forall|v: int, k: int|
                0 <= v < vs2.len() && 0 <= k < vs2[v].len() implies alloc_note_ok(
                #[trigger] vs2[v][k],
            ) && vs2[v][k].start <= t by {
                if v != 0 {
                    assert(vs2[v] == voices[v]);
                } else if k < voices[0].len() {
                    assert(vs2[v][k] == voices[0][k]);
                } else {
                    assert(vs2[v][k] == n);
                }
            }
        } else if is_high && voices[0].last().note < n.note {
            lemma_preempt_entry_props(voices, n, t);
        } else {
            lemma_first_fit_props(voices, n, lm, 0, t);
        }
    } else {
        lemma_first_fit_props(voices, n, lm, 0, t);
    }
}

proof fn lemma_place_chord_note_props(
    voices: Seq<Seq<Note>>,
    lm: Option<u8>,
    n: Note,
    first: bool,
    t: int,
)
    requires
        vnotes_ok(voices),
        alloc_note_ok(n),
        first ==> vnotes_below(voices, n.start as int),
        vnotes_at_most(voices, t),
        n.start <= t,
    ensures
        vnotes_ok(spec_place_chord_note(voices, lm, n, first).0),
        vnotes_at_most(spec_place_chord_note(voices, lm, n, first).0, t),
        total_count(spec_place_chord_note(voices, lm, n, first).0) == total_count(voices) + 1,
{
    if first && n.note >= 72 {
        if voices.len() == 0 {
            let vs2 = seq![seq![n]];
            assert(vs2.drop_last() =~= Seq::<Seq<Note>>::empty());
            assert(total_count(Seq::<Seq<Note>>::empty()) == 0);
            assert(total_count(vs2) == 1);
        } else if voices[0].len() != 0 && voices[0].last().end > n.start {
            if voices[0].last().note < n.note {
                lemma_preempt_entry_props(voices, n, t);
            } else {
                lemma_first_fit_props(voices, n, lm, 0, t);
            }
        } else {
            lemma_total_update(voices, 0, voices[0].push(n));
            let vs2 = voices.update(0, voices[0].push(n));
            assert forall|v: int, k: int|
                0 <= v < vs2.len() && 0 <= k < vs2[v].len() implies alloc_note_ok(
                #[trigger] vs2[v][k],
            ) && vs2[v][k].start <= t by {
                if v != 0 {
                    assert(vs2[v] == voices[v]);
                } else if k < voices[0].len() {
                    assert(vs2[v][k] == voices[0][k]);
                } else {
                    assert(vs2[v][k] == n);
                }
            }
        }
    } else {
        lemma_first_fit_props(voices, n, lm, 0, t);
    }
}

proof fn lemma_filter_misses_two(s: Seq<Note>, pred: spec_fn(Note) -> bool, i1: int, i2: int)
    requires
        0 <= i1 < i2 < s.len(),
        !pred(s[i1]),
        !pred(s[i2]),
    ensures
        s.filter(pred).len() <= s.len() - 2,
    decreases s.len(),
{
    reveal(Seq::filter);
    broadcast use vstd::seq_lib::group_seq_lib_default;

    if i2 == s.len() - 1 {
        assert(s.drop_last()[i1] == s[i1]);
        lemma_filter_misses_one(s.drop_last(), pred);
    } else {
        assert(s.drop_last()[i1] == s[i1]);
        assert(s.drop_last()[i2] == s[i2]);
        lemma_filter_misses_two(s.drop_last(), pred, i1, i2);
    }
}

proof fn lemma_insert_desc_len_elems(s: Seq<Note>, x: Note, j: int)
    requires
        0 <= j < insert_desc(s, x).len(),
    ensures
        insert_desc(s, x).len() == s.len() + 1,
        insert_desc(s, x)[j] == x || s.contains(insert_desc(s, x)[j]),
    decreases s.len(),
{
    if s.len() == 0 {
    } else if x.note > s[0].note {
    } else {
        let r = insert_desc(s, x);
        if j == 0 {
            assert(r[0] == s[0]);
            lemma_insert_desc_len_elems(s.drop_first(), x, 0);
        } else {
            lemma_insert_desc_len_elems(s.drop_first(), x, j - 1);
            assert(r[j] == insert_desc(s.drop_first(), x)[j - 1]);
            if insert_desc(s.drop_first(), x)[j - 1] == x {
            } else {
                let w = choose|w: int|
                    0 <= w < s.drop_first().len() && s.drop_first()[w] == insert_desc(
                        s.drop_first(),
                        x,
                    )[j - 1];
                assert(s[w + 1] == r[j]);
            }
        }
    }
}

proof fn lemma_insert_desc_len(s: Seq<Note>, x: Note)
    ensures
        insert_desc(s, x).len() == s.len() + 1,
    decreases s.len(),
{
    if s.len() == 0 {
    } else if x.note > s[0].note {
    } else {
        lemma_insert_desc_len(s.drop_first(), x);
    }
}

proof fn lemma_sort_chord_elems(s: Seq<Note>, j: int)
    requires
        0 <= j < sort_chord(s).len(),
    ensures
        sort_chord(s).len() == s.len(),
        s.contains(sort_chord(s)[j]),
    decreases s.len(),
{
    lemma_sort_chord_len(s);
    if s.len() > 0 {
        let sorted_rest = sort_chord(s.drop_last());
        lemma_insert_desc_len_elems(sorted_rest, s.last(), j);
        let e = sort_chord(s)[j];
        if e == s.last() {
            assert(s[s.len() - 1] == e);
        } else {
            assert(sorted_rest.contains(e));
            let w = choose|w: int| 0 <= w < sorted_rest.len() && sorted_rest[w] == e;
            lemma_sort_chord_elems(s.drop_last(), w);
            let w2 = choose|w2: int| 0 <= w2 < s.drop_last().len() && s.drop_last()[w2] == e;
            assert(s[w2] == e);
        }
    }
}

proof fn lemma_sort_chord_len(s: Seq<Note>)
    ensures
        sort_chord(s).len() == s.len(),
    decreases s.len(),
{
    if s.len() > 0 {
        lemma_sort_chord_len(s.drop_last());
        lemma_insert_desc_len(sort_chord(s.drop_last()), s.last());
    }
}

proof fn lemma_pick_bounds(s: Seq<Note>, last: u8, i: int)
    requires
        pick_melody_upto(s, last, i) is Some,
        i <= s.len(),
    ensures
        0 <= pick_melody_upto(s, last, i)->0 < i,
    decreases i,
{
    if i > 0 {
        if pick_melody_upto(s, last, i - 1) is Some {
            lemma_pick_bounds(s, last, i - 1);
        }
    }
}

proof fn lemma_melody_idx_bounds(s: Seq<Note>, lm: Option<u8>)
    requires
        s.len() > 0,
    ensures
        0 <= melody_idx(s, lm) < s.len(),
{
    match lm {
        None => {},
        Some(l) => {
            if pick_melody_upto(s, l, s.len() as int) is Some {
                lemma_pick_bounds(s, l, s.len() as int);
            }
        },
    }
}

proof fn lemma_priority_props(group: Seq<Note>, lm: Option<u8>, t: u32)
    requires
        group.len() > 0,
        forall|k: int|
            0 <= k < group.len() ==> alloc_note_ok(#[trigger] group[k]) && group[k].start == t,
    ensures
        chord_priority(sort_chord(group), lm).len() <= group.len(),
        forall|k: int|
            0 <= k < chord_priority(sort_chord(group), lm).len() ==> alloc_note_ok(
                #[trigger] chord_priority(sort_chord(group), lm)[k],
            ) && chord_priority(sort_chord(group), lm)[k].start == t,
{
    let sorted = sort_chord(group);
    lemma_sort_chord_len(group);
    assert forall|k: int| 0 <= k < sorted.len() implies alloc_note_ok(#[trigger] sorted[k])
        && sorted[k].start == t by {
        lemma_sort_chord_elems(group, k);
        let w = choose|w: int| 0 <= w < group.len() && group[w] == sorted[k];
    }
    lemma_melody_idx_bounds(sorted, lm);
    let mi = melody_idx(sorted, lm);
    let melody = sorted[mi];
    let bass = sorted.last();
    let pred = |x: Note| x.note != melody.note && x.note != bass.note;
    let harmony = sorted.filter(pred);
    assert forall|k: int| 0 <= k < harmony.len() implies alloc_note_ok(#[trigger] harmony[k])
        && harmony[k].start == t by {
        crate::types::lemma_filter_elems(sorted, pred, k);
        let w = choose|w: int| 0 <= w < sorted.len() && sorted[w] == harmony[k];
    }
    if bass.note != melody.note {
        assert(mi != sorted.len() - 1);
        lemma_filter_misses_two(sorted, pred, mi, sorted.len() - 1);
    } else {
        lemma_filter_misses_one(sorted, pred);
    }
}

proof fn lemma_place_notes_props(
    priority: Seq<Note>,
    voices: Seq<Seq<Note>>,
    lm: Option<u8>,
    first: bool,
    t: u32,
)
    requires
        vnotes_ok(voices),
        forall|k: int|
            0 <= k < priority.len() ==> alloc_note_ok(#[trigger] priority[k]) && priority[k].start
                == t,
        first ==> vnotes_below(voices, t as int),
        vnotes_at_most(voices, t as int),
    ensures
        vnotes_ok(place_notes(priority, voices, lm, first).0),
        vnotes_at_most(place_notes(priority, voices, lm, first).0, t as int),
        total_count(place_notes(priority, voices, lm, first).0) <= total_count(voices)
            + priority.len(),
    decreases priority.len(),
{
    if priority.len() == 0 {
    } else {
        lemma_place_chord_note_props(voices, lm, priority[0], first, t as int);
        let r = spec_place_chord_note(voices, lm, priority[0], first);
        lemma_place_notes_props(priority.drop_first(), r.0, r.1, false, t);
    }
}

proof fn lemma_place_group_props(group: Seq<Note>, voices: Seq<Seq<Note>>, lm: Option<u8>, t: u32)
    requires
        vnotes_ok(voices),
        forall|k: int|
            0 <= k < group.len() ==> alloc_note_ok(#[trigger] group[k]) && group[k].start == t,
        vnotes_below(voices, t as int),
    ensures
        vnotes_ok(place_group(group, voices, lm).0),
        vnotes_at_most(place_group(group, voices, lm).0, t as int),
        total_count(place_group(group, voices, lm).0) <= total_count(voices) + group.len(),
    decreases group.len(),
{
    if group.len() == 0 {
    } else if group.len() == 1 {
        lemma_place_single_props(voices, lm, group[0], t as int);
    } else {
        lemma_priority_props(group, lm, t);
        lemma_place_notes_props(chord_priority(sort_chord(group), lm), voices, lm, true, t);
    }
}

proof fn lemma_allocate_from_props(remaining: Seq<Note>, voices: Seq<Seq<Note>>, lm: Option<u8>)
    requires
        vnotes_ok(voices),
        forall|k: int| 0 <= k < remaining.len() ==> alloc_note_ok(#[trigger] remaining[k]),
        remaining.len() > 0 ==> vnotes_below(voices, min_start(remaining) as int),
    ensures
        vnotes_ok(spec_allocate_from(remaining, voices, lm)),
        total_count(spec_allocate_from(remaining, voices, lm)) <= total_count(voices)
            + remaining.len(),
    decreases remaining.len(),
{
    if remaining.len() > 0 {
        let t = min_start(remaining);
        let group = remaining.filter(|n: Note| n.start == t);
        let rest = remaining.filter(|n: Note| n.start != t);
        assert forall|k: int| 0 <= k < group.len() implies alloc_note_ok(#[trigger] group[k])
            && group[k].start == t by {
            crate::types::lemma_filter_elems(remaining, |n: Note| n.start == t, k);
            let w = choose|w: int| 0 <= w < remaining.len() && remaining[w] == group[k];
            remaining.lemma_filter_pred(|n: Note| n.start == t, k);
        }
        lemma_place_group_props(group, voices, lm, t);
        let r = place_group(group, voices, lm);
        lemma_min_start_in(remaining);
        lemma_filter_misses_one(remaining, |n: Note| n.start != t);
        assert forall|k: int| 0 <= k < rest.len() implies alloc_note_ok(#[trigger] rest[k]) by {
            crate::types::lemma_filter_elems(remaining, |n: Note| n.start != t, k);
            let w = choose|w: int| 0 <= w < remaining.len() && remaining[w] == rest[k];
        }
        if rest.len() > 0 {
            // every remaining start exceeds the group tick
            lemma_min_start_in(rest);
            let wmin = choose|w: int| 0 <= w < rest.len() && rest[w].start == min_start(rest);
            crate::types::lemma_filter_elems(remaining, |n: Note| n.start != t, wmin);
            remaining.lemma_filter_pred(|n: Note| n.start != t, wmin);
            let worig = choose|w: int| 0 <= w < remaining.len() && remaining[w] == rest[wmin];
            lemma_min_start_le(remaining, worig);
            assert(min_start(rest) > t);
            assert(vnotes_below(r.0, min_start(rest) as int));
        }
        lemma_allocate_from_props(rest, r.0, r.1);
        crate::types::lemma_filter_complement(
            remaining,
            |n: Note| n.start == t,
            |n: Note| n.start != t,
        );
    }
}

/// Allocation preserves note well-formedness (apart from the grid-size
/// minimum, which preemption may cut) and never invents notes: the voices
/// together hold at most as many notes as were passed in, and each note's
/// ticks stay ordered and bounded.
pub proof fn lemma_allocate_preserves(notes: Seq<Note>)
    requires
        forall|k: int| 0 <= k < notes.len() ==> alloc_note_ok(#[trigger] notes[k]),
    ensures
        vnotes_ok(spec_allocate(notes)),
        total_count(spec_allocate(notes)) <= notes.len(),
        forall|v: int|
            0 <= v < spec_allocate(notes).len() ==> (#[trigger] spec_allocate(notes)[v]).len()
                <= notes.len(),
{
    lemma_allocate_from_props(notes, Seq::empty(), None);
    assert(total_count(Seq::<Seq<Note>>::empty()) == 0);
    assert forall|v: int| 0 <= v < spec_allocate(notes).len() implies (#[trigger] spec_allocate(
        notes,
    )[v]).len() <= notes.len() by {
        lemma_count_ge_each(spec_allocate(notes), v);
    }
}

fn first_fit(voices: &mut Vec<Vec<Note>>, last_melody: &mut Option<u8>, n: Note)
    ensures
        voices_view(final(voices)@) == first_fit_from(
            voices_view(old(voices)@),
            n,
            *old(last_melody),
            0,
        ).0,
        *final(last_melody) == first_fit_from(voices_view(old(voices)@), n, *old(last_melody), 0).1,
{
    let ghost v0 = voices_view(old(voices)@);
    let ghost lm0 = *old(last_melody);
    let pitch = n.note;
    let mut i: usize = 0;
    while i < voices.len() && voices[i].len() > 0 && voices[i][voices[i].len() - 1].end > n.start
        invariant
            i <= voices@.len(),
            voices@ == old(voices)@,
            *last_melody == lm0,
            v0 == voices_view(old(voices)@),
            first_fit_from(v0, n, lm0, 0) == first_fit_from(v0, n, lm0, i as int),
        decreases voices@.len() - i,
    {
        proof {
            assert(v0[i as int] == voices@[i as int]@);
            assert(!note_fits(v0[i as int], n));
        }
        i = i + 1;
    }
    if i < voices.len() {
        proof {
            assert(v0[i as int] == voices@[i as int]@);
            assert(note_fits(v0[i as int], n));
        }
        voices[i].push(n);
        if i == 0 {
            *last_melody = Some(pitch);
        }
        proof {
            assert(voices_view(voices@) =~= v0.update(i as int, v0[i as int].push(n)));
        }
    } else {
        let mut nv: Vec<Note> = Vec::new();
        nv.push(n);
        voices.push(nv);
        proof {
            assert(voices_view(voices@) =~= v0.push(seq![n]));
        }
    }
}

fn place_single(voices: &mut Vec<Vec<Note>>, last_melody: &mut Option<u8>, n: Note)
    ensures
        voices_view(final(voices)@) == spec_place_single(
            voices_view(old(voices)@),
            *old(last_melody),
            n,
        ).0,
        *final(last_melody) == spec_place_single(voices_view(old(voices)@), *old(last_melody), n).1,
{
    let ghost v0 = voices_view(old(voices)@);
    let ghost lm0 = *old(last_melody);
    let pitch = n.note;
    let nstart = n.start;
    let is_high = pitch >= 72;
    let is_close = match *last_melody {
        Some(l) => {
            let d = if pitch >= l {
                pitch - l
            } else {
                l - pitch
            };
            d <= 5
        },
        None => false,
    };
    proof {
        assert(is_close == pitch_close(pitch, lm0));
    }
    if is_high || is_close {
        if voices.len() == 0 {
            let mut nv: Vec<Note> = Vec::new();
            nv.push(n);
            voices.push(nv);
            *last_melody = Some(pitch);
            proof {
                assert(voices_view(voices@) =~= seq![seq![n]]);
            }
        } else {
            let l0 = voices[0].len();
            proof {
                assert(v0[0] == voices@[0]@);
            }
            if l0 == 0 || voices[0][l0 - 1].end <= nstart {
                voices[0].push(n);
                *last_melody = Some(pitch);
                proof {
                    assert(note_fits(v0[0], n));
                    assert(voices_view(voices@) =~= v0.update(0, v0[0].push(n)));
                }
            } else if is_high && voices[0][l0 - 1].note < pitch {
                let old_last = voices[0].pop().unwrap();
                let dur = if nstart >= old_last.start {
                    nstart - old_last.start
                } else {
                    0
                };
                let cut = Note {
                    note: old_last.note,
                    start: old_last.start,
                    end: nstart,
                    duration: dur,
                    velocity: old_last.velocity,
                    instrument: old_last.instrument,
                };
                voices[0].push(cut);
                voices[0].push(n);
                *last_melody = Some(pitch);
                proof {
                    assert(voices@[0]@ =~= preempt_last(v0[0], nstart).push(n));
                    assert(voices_view(voices@) =~= v0.update(
                        0,
                        preempt_last(v0[0], nstart).push(n),
                    ));
                }
            } else {
                first_fit(voices, last_melody, n);
            }
        }
    } else {
        first_fit(voices, last_melody, n);
    }
}

fn place_chord_note(voices: &mut Vec<Vec<Note>>, last_melody: &mut Option<u8>, n: Note, first: bool)
    ensures
        voices_view(final(voices)@) == spec_place_chord_note(
            voices_view(old(voices)@),
            *old(last_melody),
            n,
            first,
        ).0,
        *final(last_melody) == spec_place_chord_note(
            voices_view(old(voices)@),
            *old(last_melody),
            n,
            first,
        ).1,
{
    let ghost v0 = voices_view(old(voices)@);
    let pitch = n.note;
    let nstart = n.start;
    if first && pitch >= 72 {
        if voices.len() == 0 {
            let mut nv: Vec<Note> = Vec::new();
            nv.push(n);
            voices.push(nv);
            *last_melody = Some(pitch);
            proof {
                assert(voices_view(voices@) =~= seq![seq![n]]);
            }
        } else {
            let l0 = voices[0].len();
            proof {
                assert(v0[0] == voices@[0]@);
            }
            if l0 != 0 && voices[0][l0 - 1].end > nstart {
                if voices[0][l0 - 1].note < pitch {
                    let old_last = voices[0].pop().unwrap();
                    let dur = if nstart >= old_last.start {
                        nstart - old_last.start
                    } else {
                        0
                    };
                    let cut = Note {
                        note: old_last.note,
                        start: old_last.start,
                        end: nstart,
                        duration: dur,
                        velocity: old_last.velocity,
                        instrument: old_last.instrument,
                    };
                    voices[0].push(cut);
                    voices[0].push(n);
                    *last_melody = Some(pitch);
                    proof {
                        assert(voices@[0]@ =~= preempt_last(v0[0], nstart).push(n));
                        assert(voices_view(voices@) =~= v0.update(
                            0,
                            preempt_last(v0[0], nstart).push(n),
                        ));
                    }
                } else {
                    first_fit(voices, last_melody, n);
                }
            } else {
                voices[0].push(n);
                *last_melody = Some(pitch);
                proof {
                    assert(voices_view(voices@) =~= v0.update(0, v0[0].push(n)));
                }
            }
        }
    } else {
        first_fit(voices, last_melody, n);
    }
}

proof fn lemma_insert_desc_at(s: Seq<Note>, x: Note, j: int)
    requires
        0 <= j <= s.len(),
        forall|m: int| 0 <= m < j ==> s[m].note >= x.note,
        j < s.len() ==> s[j].note < x.note,
    ensures
        insert_desc(s, x) == s.insert(j, x),
    decreases j,
{
    if j == 0 {
        if s.len() == 0 {
            assert(insert_desc(s, x) =~= s.insert(0, x));
        } else {
            assert(x.note > s[0].note);
            assert(seq![x] + s =~= s.insert(0, x));
        }
    } else {
        assert(s[0].note >= x.note);
        lemma_insert_desc_at(s.drop_first(), x, j - 1);
        assert(seq![s[0]] + s.drop_first().insert(j - 1, x) =~= s.insert(j, x));
    }
}

fn sort_chord_exec(group: Vec<Note>) -> (r: Vec<Note>)
    ensures
        r@ == sort_chord(group@),
{
    let mut out: Vec<Note> = Vec::new();
    proof {
        assert(group@.take(0) =~= Seq::<Note>::empty());
    }
    let mut k: usize = 0;
    while k < group.len()
        invariant
            k <= group@.len(),
            out@ == sort_chord(group@.take(k as int)),
        decreases group@.len() - k,
    {
        let x = group[k].clone();
        let mut j: usize = 0;
        while j < out.len() && out[j].note >= x.note
            invariant
                j <= out@.len(),
                x == group@[k as int],
                out@ == sort_chord(group@.take(k as int)),
                forall|m: int| 0 <= m < j ==> out@[m].note >= x.note,
            decreases out@.len() - j,
        {
            j = j + 1;
        }
        proof {
            lemma_insert_desc_at(out@, x, j as int);
        }
        out.insert(j, x);
        proof {
            assert(group@.take(k as int + 1).drop_last() =~= group@.take(k as int));
            assert(group@.take(k as int + 1).last() == group@[k as int]);
        }
        k = k + 1;
    }
    proof {
        assert(group@.take(group@.len() as int) =~= group@);
    }
    out
}

fn pick_melody_exec(sorted: &Vec<Note>, last: u8) -> (r: Option<usize>)
    ensures
        match r {
            Some(p) => p < sorted@.len() && pick_melody_upto(sorted@, last, sorted@.len() as int)
                == Some(p as int),
            None => pick_melody_upto(sorted@, last, sorted@.len() as int) is None,
        },
{
    let mut best: Option<usize> = None;
    let mut i: usize = 0;
    while i < sorted.len()
        invariant
            i <= sorted@.len(),
            match best {
                Some(p) => p < i && pick_melody_upto(sorted@, last, i as int) == Some(p as int),
                None => pick_melody_upto(sorted@, last, i as int) is None,
            },
        decreases sorted@.len() - i,
    {
        let pn = sorted[i].note;
        let d = if pn >= last {
            pn - last
        } else {
            last - pn
        };
        if d <= 5 {
            match best {
                None => {
                    best = Some(i);
                },
                Some(p) => {
                    if sorted[i].note > sorted[p].note {
                        best = Some(i);
                    }
                },
            }
        }
        i = i + 1;
    }
    best
}

/// Harmony notes of a sorted chord: everything whose pitch is neither the
/// melody pitch nor the bass pitch.
pub open spec fn harmony_of(sorted: Seq<Note>, m: u8, b: u8) -> Seq<Note> {
    sorted.filter(|x: Note| x.note != m && x.note != b)
}

fn build_priority(sorted: &Vec<Note>, last_melody: &Option<u8>) -> (r: Vec<Note>)
    requires
        sorted@.len() > 0,
    ensures
        r@ == chord_priority(sorted@, *last_melody),
{
    let mi: usize = match *last_melody {
        None => 0,
        Some(l) => match pick_melody_exec(sorted, l) {
            None => 0,
            Some(p) => p,
        },
    };
    proof {
        assert(mi as int == melody_idx(sorted@, *last_melody));
    }
    let melody = sorted[mi].clone();
    let bass = sorted[sorted.len() - 1].clone();
    let ghost mnote = melody.note;
    let ghost bnote = bass.note;
    let mut priority: Vec<Note> = Vec::new();
    priority.push(melody.clone());
    if bass.note != melody.note {
        priority.push(bass.clone());
    }
    let ghost base = priority@;
    proof {
        assert(harmony_of(sorted@.take(0), mnote, bnote) =~= Seq::<Note>::empty());
        assert(priority@ =~= base + harmony_of(sorted@.take(0), mnote, bnote));
    }
    let mut k: usize = 0;
    while k < sorted.len()
        invariant
            k <= sorted@.len(),
            mnote == melody.note,
            bnote == bass.note,
            priority@ == base + harmony_of(sorted@.take(k as int), mnote, bnote),
        decreases sorted@.len() - k,
    {
        proof {
            reveal(Seq::filter);
            assert(sorted@.take(k as int + 1).drop_last() =~= sorted@.take(k as int));
            assert(sorted@.take(k as int + 1).last() == sorted@[k as int]);
        }
        if sorted[k].note != melody.note && sorted[k].note != bass.note {
            priority.push(sorted[k].clone());
        }
        k = k + 1;
    }
    proof {
        assert(sorted@.take(sorted@.len() as int) =~= sorted@);
        assert(chord_priority(sorted@, *last_melody) == base + harmony_of(sorted@, mnote, bnote));
    }
    priority
}

fn place_priority(voices: &mut Vec<Vec<Note>>, last_melody: &mut Option<u8>, priority: Vec<Note>)
    ensures
        voices_view(final(voices)@) == place_notes(
            priority@,
            voices_view(old(voices)@),
            *old(last_melody),
            true,
        ).0,
        *final(last_melody) == place_notes(
            priority@,
            voices_view(old(voices)@),
            *old(last_melody),
            true,
        ).1,
{
    let ghost total = place_notes(priority@, voices_view(old(voices)@), *old(last_melody), true);
    let mut idx: usize = 0;
    proof {
        assert(priority@.skip(0) =~= priority@);
    }
    while idx < priority.len()
        invariant
            idx <= priority@.len(),
            place_notes(
                priority@.skip(idx as int),
                voices_view(voices@),
                *last_melody,
                idx == 0,
            ) == total,
        decreases priority@.len() - idx,
    {
        let n = priority[idx].clone();
        proof {
            assert(priority@.skip(idx as int)[0] == priority@[idx as int]);
            assert(priority@.skip(idx as int).drop_first() =~= priority@.skip(idx as int + 1));
        }
        place_chord_note(voices, last_melody, n, idx == 0);
        idx = idx + 1;
    }
    proof {
        assert(priority@.skip(priority@.len() as int) =~= Seq::<Note>::empty());
    }
}

/// Distributes notes across monophonic voices: voice 0 is a preemptible
/// melody lane for high or melody-adjacent pitches; chords are placed
/// melody-first, then bass, then harmony; every other note goes to the
/// first free voice, or a new one.
pub fn allocate_voices_smart(notes: Vec<Note>) -> (r: Vec<Vec<Note>>)
    ensures
        voices_view(r@) == spec_allocate(notes@),
        forall|i: int| 0 <= i < r@.len() ==> voice_non_overlapping(#[trigger] r@[i]@),
{
    let ghost total = spec_allocate(notes@);
    let mut voices: Vec<Vec<Note>> = Vec::new();
    let mut last_melody: Option<u8> = None;
    let mut remaining: Vec<Note> = notes;
    proof {
        assert(voices_view(voices@) =~= Seq::<Seq<Note>>::empty());
    }
    while remaining.len() > 0
        invariant
            spec_allocate_from(remaining@, voices_view(voices@), last_melody) == total,
        decreases remaining@.len(),
    {
        let ghost rem0 = remaining@;
        // the earliest start tick among the remaining notes
        let mut t: u32 = remaining[0].start;
        proof {
            assert(rem0.take(1) =~= seq![rem0[0]]);
        }
        let mut i: usize = 1;
        while i < remaining.len()
            invariant
                1 <= i <= rem0.len(),
                rem0 == remaining@,
                t == min_start(rem0.take(i as int)),
            decreases rem0.len() - i,
        {
            proof {
                assert(rem0.take(i as int + 1).drop_last() =~= rem0.take(i as int));
                assert(rem0.take(i as int + 1).last() == rem0[i as int]);
            }
            if remaining[i].start < t {
                t = remaining[i].start;
            }
            i = i + 1;
        }
        proof {
            assert(rem0.take(rem0.len() as int) =~= rem0);
            assert(t == min_start(rem0));
        }
        // split the group that starts at `t` from the rest
        let mut group: Vec<Note> = Vec::new();
        let mut rest: Vec<Note> = Vec::new();
        proof {
            reveal(Seq::filter);
            assert(rem0.take(0) =~= Seq::<Note>::empty());
            assert(group@ =~= rem0.take(0).filter(|n: Note| n.start == t));
            assert(rest@ =~= rem0.take(0).filter(|n: Note| n.start != t));
        }
        let mut j: usize = 0;
        while j < remaining.len()
            invariant
                j <= rem0.len(),
                rem0 == remaining@,
                group@ == rem0.take(j as int).filter(|n: Note| n.start == t),
                rest@ == rem0.take(j as int).filter(|n: Note| n.start != t),
            decreases rem0.len() - j,
        {
            proof {
                reveal(Seq::filter);
                assert(rem0.take(j as int + 1).drop_last() =~= rem0.take(j as int));
                assert(rem0.take(j as int + 1).last() == rem0[j as int]);
            }
            let x = remaining[j].clone();
            if x.start == t {
                group.push(x);
            } else {
                rest.push(x);
            }
            j = j + 1;
        }
        proof {
            assert(rem0.take(rem0.len() as int) =~= rem0);
            lemma_min_start_in(rem0);
            rem0.lemma_filter_contains(
                |n: Note| n.start == t,
                choose|w: int| 0 <= w < rem0.len() && rem0[w].start == t,
            );
            assert(group@.len() > 0);
            lemma_filter_misses_one(rem0, |n: Note| n.start != t);
        }
        // place the group
        if group.len() == 1 {
            let n = group.pop().unwrap();
            proof {
                assert(group@.push(n) =~= seq![n]);
                assert(n == rem0.filter(|n: Note| n.start == t)[0]);
            }
            place_single(&mut voices, &mut last_melody, n);
        } else {
            let sorted = sort_chord_exec(group);
            let priority = build_priority(&sorted, &last_melody);
            place_priority(&mut voices, &mut last_melody, priority);
        }
        remaining = rest;
    }
    proof {
        assert(voices_view(voices@) == total);
        lemma_allocate_from_ok(notes@, Seq::empty(), None);
        assert forall|i: int| 0 <= i < voices@.len() implies voice_non_overlapping(
            #[trigger] voices@[i]@,
        ) by {
            assert(voices_view(voices@)[i] == voices@[i]@);
        }
    }
    voices
}

/// Notes below middle C form the bass band, notes below the high register
/// the middle band, the rest the melody band.
pub open spec fn band_melody(notes: Seq<Note>) -> Seq<Note> {
    notes.filter(|n: Note| n.note >= 72)
}

/// The middle band of the range split.
pub open spec fn band_mid(notes: Seq<Note>) -> Seq<Note> {
    notes.filter(|n: Note| 60 <= n.note && n.note < 72)
}

/// The bass band of the range split.
pub open spec fn band_bass(notes: Seq<Note>) -> Seq<Note> {
    notes.filter(|n: Note| n.note < 60)
}

/// The voices produced by range-based allocation: each pitch band is
/// allocated independently and the voice lists are concatenated, melody
/// band first.
pub open spec fn spec_allocate_by_range(notes: Seq<Note>) -> Seq<Seq<Note>> {
    spec_allocate(band_melody(notes)) + spec_allocate(band_mid(notes)) + spec_allocate(
        band_bass(notes),
    )
}

/// Allocates voices per pitch band (bass below middle C, middle up to the
/// high register, melody above), concatenating the bands' voices.
pub fn allocate_voices_by_range(notes: Vec<Note>) -> (r: Vec<Vec<Note>>)
    ensures
        voices_view(r@) == spec_allocate_by_range(notes@),
        forall|i: int| 0 <= i < r@.len() ==> voice_non_overlapping(#[trigger] r@[i]@),
{
    let ghost n0 = notes@;
    let mut bass_notes: Vec<Note> = Vec::new();
    let mut chord_notes: Vec<Note> = Vec::new();
    let mut melody_notes: Vec<Note> = Vec::new();
    proof {
        reveal(Seq::filter);
        assert(n0.take(0) =~= Seq::<Note>::empty());
        assert(melody_notes@ =~= band_melody(n0.take(0)));
        assert(chord_notes@ =~= band_mid(n0.take(0)));
        assert(bass_notes@ =~= band_bass(n0.take(0)));
    }
    let mut j: usize = 0;
    while j < notes.len()
        invariant
            j <= n0.len(),
            n0 == notes@,
            melody_notes@ == band_melody(n0.take(j as int)),
            chord_notes@ == band_mid(n0.take(j as int)),
            bass_notes@ == band_bass(n0.take(j as int)),
        decreases n0.len() - j,
    {
        proof {
            reveal(Seq::filter);
            assert(n0.take(j as int + 1).drop_last() =~= n0.take(j as int));
            assert(n0.take(j as int + 1).last() == n0[j as int]);
        }
        let x = notes[j].clone();
        if x.note < 60 {
            bass_notes.push(x);
        } else if x.note < 72 {
            chord_notes.push(x);
        } else {
            melody_notes.push(x);
        }
        j = j + 1;
    }
    proof {
        assert(n0.take(n0.len() as int) =~= n0);
    }
    let mut result = allocate_voices_smart(melody_notes);
    let mut mid_voices = allocate_voices_smart(chord_notes);
    let mut bass_voices = allocate_voices_smart(bass_notes);
    let ghost rm = result@;
    let ghost rc = mid_voices@;
    let ghost rb = bass_voices@;
    result.append(&mut mid_voices);
    result.append(&mut bass_voices);
    proof {
        assert(result@ =~= rm + rc + rb);
        assert(voices_view(result@) =~= voices_view(rm) + voices_view(rc) + voices_view(rb));
        assert forall|i: int| 0 <= i < result@.len() implies voice_non_overlapping(
            #[trigger] result@[i]@,
        ) by {
            if i < rm.len() {
                assert(result@[i] == rm[i]);
            } else if i < rm.len() + rc.len() {
                assert(result@[i] == rc[i - rm.len()]);
            } else {
                assert(result@[i] == rb[i - rm.len() - rc.len()]);
            }
        }
    }
    result
}

} // verus!
