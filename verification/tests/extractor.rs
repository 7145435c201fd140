use mobinogi_mml::extract::extract_midi_notes;
use mobinogi_mml::extract::EventKind;
use mobinogi_mml::extract::MmlError;
use mobinogi_mml::extract::TimedEvent;
use mobinogi_mml::extract::Timing;

fn names() -> Vec<String> {
    (0..128).map(|i| format!("inst{}", i)).collect()
}

fn on(delta: u32, channel: u8, key: u8, velocity: u8) -> TimedEvent {
    TimedEvent { delta, kind: EventKind::NoteOn { channel, key, velocity } }
}

fn off(delta: u32, channel: u8, key: u8) -> TimedEvent {
    TimedEvent { delta, kind: EventKind::NoteOff { channel, key } }
}

#[test]
fn simple_note_is_extracted_and_rescaled() {
    // at 384 ticks per beat no rescaling happens
    let tracks = vec![vec![on(0, 0, 60, 100), off(384, 0, 60)]];
    let (notes, bpm, tempos) = extract_midi_notes(&tracks, Timing::Metrical(384), &names())
        .unwrap();
    assert_eq!(notes.len(), 1);
    assert_eq!(notes[0].note, 60);
    assert_eq!(notes[0].start, 0);
    assert_eq!(notes[0].end, 384);
    assert_eq!(notes[0].duration, 384);
    assert_eq!(notes[0].velocity, 100);
    assert_eq!(bpm, 120);
    assert_eq!(tempos.len(), 1);
    assert_eq!((tempos[0].tick, tempos[0].bpm), (0, 120));
}

#[test]
fn extracted_notes_are_well_formed() {
    let tracks = vec![vec![
        on(0, 0, 60, 100),
        on(5, 0, 64, 90),
        off(100, 0, 60),
        off(1, 0, 64),
        on(10, 1, 127, 1),
        off(7, 1, 127),
    ]];
    let (notes, _, _) = extract_midi_notes(&tracks, Timing::Metrical(96), &names()).unwrap();
    for n in &notes {
        assert!(n.note <= 127);
        assert!(n.start < n.end);
        assert!(n.duration == n.end - n.start);
        assert!(n.duration >= 24);
        assert!(n.start % 24 == 0);
    }
}

#[test]
fn non_metrical_timing_is_rejected() {
    let tracks = vec![vec![on(0, 0, 60, 100), off(384, 0, 60)]];
    let r = extract_midi_notes(&tracks, Timing::NonMetrical, &names());
    assert!(matches!(r, Err(MmlError::UnsupportedTimingFormat)));
}

#[test]
fn percussion_channel_is_excluded() {
    let tracks = vec![vec![on(0, 9, 40, 100), off(384, 9, 40)]];
    let (notes, _, _) = extract_midi_notes(&tracks, Timing::Metrical(384), &names()).unwrap();
    assert_eq!(notes.len(), 0);
}

#[test]
fn note_on_with_zero_velocity_closes_the_note() {
    let tracks = vec![vec![on(0, 0, 60, 100), on(384, 0, 60, 0)]];
    let (notes, _, _) = extract_midi_notes(&tracks, Timing::Metrical(384), &names()).unwrap();
    assert_eq!(notes.len(), 1);
    assert_eq!(notes[0].end, 384);
}

#[test]
fn duplicates_keep_highest_velocity() {
    // the same pitch at the same tick on two tracks: the louder one wins
    let tracks = vec![
        vec![on(0, 0, 60, 50), off(384, 0, 60)],
        vec![on(0, 1, 60, 90), off(384, 1, 60)],
    ];
    let (notes, _, _) = extract_midi_notes(&tracks, Timing::Metrical(384), &names()).unwrap();
    assert_eq!(notes.len(), 1);
    assert_eq!(notes[0].velocity, 90);
}

#[test]
fn notes_are_sorted_by_start_then_descending_pitch() {
    let tracks = vec![vec![
        on(0, 0, 50, 100),
        on(0, 0, 70, 100),
        off(384, 0, 50),
        off(0, 0, 70),
        on(0, 0, 60, 100),
        off(384, 0, 60),
    ]];
    let (notes, _, _) = extract_midi_notes(&tracks, Timing::Metrical(384), &names()).unwrap();
    assert_eq!(notes.len(), 3);
    assert_eq!((notes[0].start, notes[0].note), (0, 70));
    assert_eq!((notes[1].start, notes[1].note), (0, 50));
    assert_eq!((notes[2].start, notes[2].note), (384, 60));
}

#[test]
fn tempo_events_become_bpm() {
    // 500000 microseconds per beat is 120 BPM; 600000 is 100 BPM
    let tracks = vec![vec![
        TimedEvent { delta: 0, kind: EventKind::Tempo(600_000) },
        on(0, 0, 60, 100),
        TimedEvent { delta: 384, kind: EventKind::Tempo(500_000) },
        off(0, 0, 60),
    ]];
    let (_, bpm, tempos) = extract_midi_notes(&tracks, Timing::Metrical(384), &names()).unwrap();
    assert_eq!(bpm, 100);
    assert_eq!(tempos.len(), 2);
    assert_eq!((tempos[0].tick, tempos[0].bpm), (0, 100));
    assert_eq!((tempos[1].tick, tempos[1].bpm), (384, 120));
}

#[test]
fn rescaling_to_canonical_rate() {
    // at 96 ticks per beat everything is scaled by four
    let tracks = vec![vec![on(0, 0, 60, 100), off(96, 0, 60)]];
    let (notes, _, _) = extract_midi_notes(&tracks, Timing::Metrical(96), &names()).unwrap();
    assert_eq!(notes[0].start, 0);
    assert_eq!(notes[0].end, 384);
}

#[test]
fn short_notes_get_the_grid_minimum() {
    let tracks = vec![vec![on(0, 0, 60, 100), off(3, 0, 60)]];
    let (notes, _, _) = extract_midi_notes(&tracks, Timing::Metrical(384), &names()).unwrap();
    assert_eq!(notes.len(), 1);
    assert_eq!(notes[0].duration, 24);
}

#[test]
fn program_change_tags_the_instrument() {
    let tracks = vec![vec![
        TimedEvent { delta: 0, kind: EventKind::ProgramChange { channel: 0, program: 40 } },
        on(0, 0, 60, 100),
        off(384, 0, 60),
    ]];
    let (notes, _, _) = extract_midi_notes(&tracks, Timing::Metrical(384), &names()).unwrap();
    assert_eq!(notes[0].instrument, "inst40");
}
