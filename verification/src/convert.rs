//! The full conversion request: extract notes and tempos from parsed
//! events, allocate voices, run the budget search, and assemble the
//! result.

use vstd::prelude::*;
use crate::extract::extract_midi_notes;
use crate::extract::spec_extract_notes;
use crate::extract::spec_start_bpm;
use crate::extract::spec_tempo_timeline;
use crate::extract::MmlError;
use crate::extract::TimedEvent;
use crate::extract::Timing;
use crate::extract::total_events;
use crate::extract::tracks_bounded;
use crate::extract::tracks_view;
use crate::instrument::all_inst_labels;
use crate::instrument::all_inst_voices;
use crate::instrument::convert_by_instrument;
use crate::instrument::spec_inst_results;
use crate::instrument::spec_labels;
use crate::pipeline::convert_by_pitch;
use crate::pipeline::keep_nonempty;
use crate::pipeline::results_match;
use crate::pipeline::spec_best_tick;
use crate::pipeline::spec_results;
use crate::pipeline::VoiceResult;
use crate::types::Note;
use crate::types::TICK_LIMIT;
use crate::voicing::spec_allocate;

verus! {

/// How notes are grouped into voices.
#[derive(Clone, Copy, PartialEq, Eq, Structural)]
pub enum ConversionMode {
    /// One shared allocation over all notes; voice 0 is the melody lane.
    ByPitch,
    /// Notes grouped by instrument label, each group allocated separately.
    ByInstrument,
}

/// A successful conversion.
pub struct Conversion {
    /// The encoded voices, each within the character budget.
    pub voices: Vec<VoiceResult>,
    /// The starting BPM.
    pub bpm: u32,
    /// How many notes were extracted from the source.
    pub total_notes: usize,
    /// The last end tick of the extracted notes.
    pub original_duration_ticks: u32,
}

/// The largest end tick among a list of notes.
pub open spec fn notes_max_end(s: Seq<Note>) -> u32
    decreases s.len(),
{
    if s.len() == 0 {
        0
    } else {
        let m = notes_max_end(s.drop_last());
        if s.last().end > m {
            s.last().end
        } else {
            m
        }
    }
}

fn compute_notes_max_end(notes: &Vec<Note>) -> (m: u32)
    ensures
        m == notes_max_end(notes@),
{
    let mut m: u32 = 0;
    proof {
        assert(notes@.take(0) =~= Seq::<Note>::empty());
    }
    let mut k: usize = 0;
    while k < notes.len()
        invariant
            k <= notes@.len(),
            m == notes_max_end(notes@.take(k as int)),
        decreases notes@.len() - k,
    {
        proof {
            assert(notes@.take(k as int + 1).drop_last() =~= notes@.take(k as int));
            assert(notes@.take(k as int + 1).last() == notes@[k as int]);
        }
        if notes[k].end > m {
            m = notes[k].end;
        }
        k = k + 1;
    }
    proof {
        assert(notes@.take(notes@.len() as int) =~= notes@);
    }
    m
}

/// Converts a parsed MIDI performance into budgeted MML voices. Fails only
/// on an unsupported timing reference; on success the voices are the
/// mode's conversion of the extracted notes, the note total and duration
/// describe the extracted piece, and every voice fits the budget.
pub fn convert_midi_internal(
    tracks: &Vec<Vec<TimedEvent>>,
    timing: Timing,
    instrument_names: &Vec<String>,
    mode: ConversionMode,
    char_limit: usize,
    compress_mode: bool,
) -> (r: Result<Conversion, MmlError>)
    requires
        instrument_names@.len() == 128,
        total_events(tracks_view(tracks@)) <= TICK_LIMIT as int,
        match timing {
            Timing::Metrical(tpb) => tpb > 0 ==> tracks_bounded(
                tracks_view(tracks@),
                tpb as int,
            ),
            Timing::NonMetrical => true,
        },
    ensures
        match timing {
            Timing::Metrical(tpb) => if tpb > 0 {
                match r {
                    Ok(c) => {
                        let notes = spec_extract_notes(
                            tracks_view(tracks@),
                            tpb as int,
                            instrument_names@,
                        );
                        let tempos = spec_tempo_timeline(tracks_view(tracks@), tpb as int);
                        &&& c.bpm == spec_start_bpm(tracks_view(tracks@))
                        &&& c.total_notes == notes.len()
                        &&& c.original_duration_ticks == notes_max_end(notes)
                        &&& (forall|k: int|
                            0 <= k < c.voices@.len() ==> (#[trigger] c.voices@[k]).char_count
                                <= char_limit)
                        &&& (mode is ByPitch ==> results_match(
                            c.voices@,
                            spec_results(
                                keep_nonempty(spec_allocate(notes)),
                                0,
                                spec_best_tick(
                                    keep_nonempty(spec_allocate(notes)),
                                    c.bpm,
                                    compress_mode,
                                    tempos,
                                    char_limit as int,
                                ),
                                c.bpm,
                                compress_mode,
                                tempos,
                            ),
                        ))
                        &&& (mode is ByInstrument ==> results_match(
                            c.voices@,
                            spec_inst_results(
                                all_inst_voices(notes, spec_labels(notes)),
                                all_inst_labels(notes, spec_labels(notes)),
                                0,
                                spec_best_tick(
                                    all_inst_voices(notes, spec_labels(notes)),
                                    c.bpm,
                                    compress_mode,
                                    tempos,
                                    char_limit as int,
                                ),
                                c.bpm,
                                compress_mode,
                                tempos,
                            ),
                        ))
                    },
                    Err(_) => false,
                }
            } else {
                r matches Err(MmlError::UnsupportedTimingFormat)
            },
            Timing::NonMetrical => r matches Err(MmlError::UnsupportedTimingFormat),
        },
{
    let extracted = match extract_midi_notes(tracks, timing, instrument_names) {
        Ok(t) => t,
        Err(e) => {
            return Err(e);
        },
    };
    let (notes, bpm, tempo_changes) = extracted;
    let total_notes = notes.len();
    let original_duration_ticks = compute_notes_max_end(&notes);
    proof {
        crate::extract::lemma_extract_count(tracks_view(tracks@), (match timing {
            Timing::Metrical(tpb) => tpb as int,
            Timing::NonMetrical => 1,
        }), instrument_names@);
    }
    let voices = match mode {
        ConversionMode::ByPitch => convert_by_pitch(
            notes,
            bpm,
            char_limit,
            compress_mode,
            &tempo_changes,
        ),
        ConversionMode::ByInstrument => convert_by_instrument(
            notes,
            bpm,
            char_limit,
            compress_mode,
            &tempo_changes,
        ),
    };
    Ok(Conversion { voices, bpm, total_notes, original_duration_ticks })
}

} // verus!
