use mobinogi_mml::convert::convert_midi_internal;
use mobinogi_mml::mml::generate_mml_final;
use mobinogi_mml::convert::ConversionMode;
use mobinogi_mml::extract::EventKind;
use mobinogi_mml::extract::MmlError;
use mobinogi_mml::extract::TimedEvent;
use mobinogi_mml::extract::Timing;
use mobinogi_mml::instrument::convert_by_instrument;
use mobinogi_mml::pipeline::convert_by_pitch;
use mobinogi_mml::types::Note;
use mobinogi_mml::types::TempoChange;

fn note(pitch: u8, start: u32, end: u32) -> Note {
    Note {
        note: pitch,
        start,
        end,
        duration: end - start,
        velocity: 100,
        instrument: "piano".to_string(),
    }
}

fn tagged(pitch: u8, start: u32, end: u32, instrument: &str) -> Note {
    Note {
        note: pitch,
        start,
        end,
        duration: end - start,
        velocity: 100,
        instrument: instrument.to_string(),
    }
}

fn default_tempos() -> Vec<TempoChange> {
    vec![TempoChange { tick: 0, bpm: 120 }]
}

#[test]
fn single_note_gives_one_melody_voice() {
    let notes = vec![note(60, 0, 384)];
    let r = convert_by_pitch(notes, 120, 2400, false, &default_tempos());
    assert_eq!(r.len(), 1);
    assert_eq!(r[0].name, "melody");
    assert_eq!(r[0].content, "T120V15O4L4C");
    assert_eq!(r[0].char_count, 12);
    assert_eq!(r[0].note_count, 1);
    assert_eq!(r[0].duration_ticks, 384);
}

#[test]
fn extra_voices_are_named_harmony() {
    let notes = vec![note(60, 0, 384), note(72, 0, 384)];
    let r = convert_by_pitch(notes, 120, 2400, false, &default_tempos());
    assert_eq!(r.len(), 2);
    assert_eq!(r[0].name, "melody");
    assert_eq!(r[1].name, "harmony-1");
}

#[test]
fn budget_search_truncates_to_fit() {
    // twenty sequential quarter notes; the 11-character header leaves
    // room for only four of them
    let notes: Vec<Note> = (0..20).map(|i| note(60, i * 384, (i + 1) * 384)).collect();
    let full_end = 20 * 384;
    let r = convert_by_pitch(notes, 120, 15, false, &default_tempos());
    assert_eq!(r.len(), 1);
    assert!(r[0].char_count <= 15);
    assert!(r[0].duration_ticks < full_end);
    assert_eq!(r[0].content, "T120V15O4L4CCCC");
    assert_eq!(r[0].note_count, 4);
    assert_eq!(r[0].duration_ticks, 1536);
}

#[test]
fn budget_below_header_gives_no_voices() {
    let notes: Vec<Note> = (0..4).map(|i| note(60, i * 384, (i + 1) * 384)).collect();
    let r = convert_by_pitch(notes, 120, 5, false, &default_tempos());
    assert!(r.is_empty());
}

#[test]
fn generous_budget_keeps_everything() {
    let notes: Vec<Note> = (0..8).map(|i| note(60, i * 384, (i + 1) * 384)).collect();
    let r = convert_by_pitch(notes, 120, 2400, false, &default_tempos());
    assert_eq!(r.len(), 1);
    assert_eq!(r[0].note_count, 8);
    assert_eq!(r[0].duration_ticks, 8 * 384);
}

#[test]
fn conversion_is_deterministic() {
    let build = || {
        vec![
            note(60, 0, 960),
            note(72, 0, 384),
            note(55, 384, 768),
            note(67, 960, 1344),
        ]
    };
    let a = convert_by_pitch(build(), 120, 40, false, &default_tempos());
    let b = convert_by_pitch(build(), 120, 40, false, &default_tempos());
    assert_eq!(a.len(), b.len());
    for (x, y) in a.iter().zip(b.iter()) {
        assert_eq!(x.name, y.name);
        assert_eq!(x.content, y.content);
        assert_eq!(x.char_count, y.char_count);
        assert_eq!(x.note_count, y.note_count);
        assert_eq!(x.duration_ticks, y.duration_ticks);
    }
}

#[test]
fn encoded_length_grows_with_truncation_tick() {
    // a scenario check: longer prefixes never encode shorter
    let notes: Vec<Note> = (0..10).map(|i| note(60 + (i % 5) as u8, i * 384, (i + 1) * 384))
        .collect();
    let tempos = default_tempos();
    let mut last: usize = 0;
    for t in [384u32, 768, 1536, 2304, 3840] {
        let prefix: Vec<Note> = notes.iter().filter(|n| n.start < t).cloned().collect();
        let mml = generate_mml_final(&prefix, 120, 4, false, &tempos);
        assert!(mml.len() >= last);
        last = mml.len();
    }
}

#[test]
fn instrument_mode_groups_by_label() {
    let notes = vec![tagged(60, 0, 384, "flute"), tagged(64, 0, 384, "cello")];
    let r = convert_by_instrument(notes, 120, 2400, false, &default_tempos());
    assert_eq!(r.len(), 2);
    // labels are worked through in byte order: cello before flute
    assert_eq!(r[0].name, "melody (cello)");
    assert_eq!(r[1].name, "harmony-1 (flute)");
    assert_eq!(r[0].content, "T120V15O4L4E");
    assert_eq!(r[1].content, "T120V15O4L4C");
}

#[test]
fn instrument_mode_shares_the_budget_search() {
    let mut notes: Vec<Note> = (0..10).map(|i| tagged(60, i * 384, (i + 1) * 384, "flute"))
        .collect();
    notes.extend((0..10).map(|i| tagged(72, i * 384, (i + 1) * 384, "cello")));
    let r = convert_by_instrument(notes, 120, 14, false, &default_tempos());
    for v in &r {
        assert!(v.char_count <= 14);
        assert!(v.duration_ticks < 10 * 384);
    }
}

#[test]
fn full_pipeline_by_pitch() {
    let tracks = vec![vec![
        TimedEvent { delta: 0, kind: EventKind::NoteOn { channel: 0, key: 60, velocity: 100 } },
        TimedEvent { delta: 384, kind: EventKind::NoteOff { channel: 0, key: 60 } },
    ]];
    let names: Vec<String> = (0..128).map(|i| format!("inst{}", i)).collect();
    let c = convert_midi_internal(
        &tracks,
        Timing::Metrical(384),
        &names,
        ConversionMode::ByPitch,
        2400,
        false,
    )
    .unwrap();
    assert_eq!(c.bpm, 120);
    assert_eq!(c.total_notes, 1);
    assert_eq!(c.original_duration_ticks, 384);
    assert_eq!(c.voices.len(), 1);
    assert_eq!(c.voices[0].content, "T120V15O4L4C");
}

#[test]
fn full_pipeline_rejects_non_metrical_timing() {
    let tracks: Vec<Vec<TimedEvent>> = vec![vec![]];
    let names: Vec<String> = (0..128).map(|i| format!("inst{}", i)).collect();
    let r = convert_midi_internal(
        &tracks,
        Timing::NonMetrical,
        &names,
        ConversionMode::ByPitch,
        2400,
        false,
    );
    assert!(matches!(r, Err(MmlError::UnsupportedTimingFormat)));
}

#[test]
fn full_pipeline_by_instrument() {
    let tracks = vec![vec![
        TimedEvent { delta: 0, kind: EventKind::ProgramChange { channel: 0, program: 1 } },
        TimedEvent { delta: 0, kind: EventKind::NoteOn { channel: 0, key: 72, velocity: 90 } },
        TimedEvent { delta: 384, kind: EventKind::NoteOff { channel: 0, key: 72 } },
    ]];
    let names: Vec<String> = (0..128).map(|i| format!("inst{}", i)).collect();
    let c = convert_midi_internal(
        &tracks,
        Timing::Metrical(384),
        &names,
        ConversionMode::ByInstrument,
        2400,
        false,
    )
    .unwrap();
    assert_eq!(c.voices.len(), 1);
    assert_eq!(c.voices[0].name, "melody (inst1)");
}
