//! Core data model: notes on a canonical tick grid and tempo changes.

use vstd::prelude::*;

verus! {

/// Canonical ticks per beat (quarter note) that all input is rescaled to.
pub const TPB: u32 = 384;

/// Grid unit in ticks; every start/end tick is snapped to a multiple of this.
pub const GRID_SIZE: u32 = 24;

/// Upper bound on tick values the pipeline works with; keeps all tick
/// arithmetic comfortably inside `u32`/`u64` ranges.
pub const TICK_LIMIT: u32 = 0x0800_0000;

/// A single extracted note, immutable after extraction except for controlled
/// truncation of `end` by the allocator or the budget search.
pub struct Note {
    /// MIDI pitch, 0..=127.
    pub note: u8,
    /// Start tick at canonical resolution, snapped to the grid.
    pub start: u32,
    /// End tick; always strictly greater than `start`.
    pub end: u32,
    /// `end - start`.
    pub duration: u32,
    /// MIDI velocity, 0..=127.
    pub velocity: u8,
    /// Human-readable instrument label the note was tagged with.
    pub instrument: String,
}

impl Clone for Note {
    fn clone(&self) -> (r: Note)
        ensures
            r == *self,
    {
        Note {
            note: self.note,
            start: self.start,
            end: self.end,
            duration: self.duration,
            velocity: self.velocity,
            instrument: self.instrument.clone(),
        }
    }
}

/// A tempo change at a tick, in integer beats per minute.
#[derive(Clone, Copy, PartialEq, Eq, Structural)]
pub struct TempoChange {
    pub tick: u32,
    pub bpm: u32,
}

/// A note is well formed when its pitch is in MIDI range, its ticks are
/// ordered and bounded, and its duration is consistent and at least one
/// grid unit.
pub open spec fn note_wf(n: Note) -> bool {
    &&& n.note <= 127
    &&& n.start < n.end
    &&& n.end <= TICK_LIMIT
    &&& n.duration == n.end - n.start
    &&& n.duration >= GRID_SIZE
}

/// A voice is well formed when consecutive notes do not overlap: each note
/// ends at or before the next one starts.
pub open spec fn voice_non_overlapping(v: Seq<Note>) -> bool {
    forall|i: int| 0 <= i && i + 1 < v.len() ==> #[trigger] v[i].end <= v[i + 1].start
}

/// Every element of a filtered sequence occurs in the original sequence.
pub proof fn lemma_filter_elems<A>(s: Seq<A>, pred: spec_fn(A) -> bool, j: int)
    requires
        0 <= j < s.filter(pred).len(),
    ensures
        s.contains(s.filter(pred)[j]),
    decreases s.len(),
{
    reveal(Seq::filter);
    broadcast use vstd::seq_lib::group_seq_lib_default;

    if s.len() > 0 {
        let f = s.filter(pred);
        let fd = s.drop_last().filter(pred);
        if pred(s.last()) {
            if j < fd.len() {
                lemma_filter_elems(s.drop_last(), pred, j);
                let w = choose|w: int| 0 <= w < s.drop_last().len() && s.drop_last()[w] == fd[j];
                assert(s[w] == f[j]);
            } else {
                assert(f[j] == s.last());
            }
        } else {
            lemma_filter_elems(s.drop_last(), pred, j);
            let w = choose|w: int| 0 <= w < s.drop_last().len() && s.drop_last()[w] == fd[j];
            assert(s[w] == f[j]);
        }
    }
}

/// A sequence splits into the part satisfying a predicate and the part
/// satisfying its complement.
pub proof fn lemma_filter_complement<A>(s: Seq<A>, p: spec_fn(A) -> bool, q: spec_fn(A) -> bool)
    requires
        forall|x: A| #[trigger] q(x) <==> !(#[trigger] p(x)),
    ensures
        s.filter(p).len() + s.filter(q).len() == s.len(),
    decreases s.len(),
{
    reveal(Seq::filter);
    if s.len() > 0 {
        lemma_filter_complement(s.drop_last(), p, q);
    }
}

} // verus!
