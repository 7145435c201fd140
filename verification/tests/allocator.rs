use mobinogi_mml::types::Note;
use mobinogi_mml::voicing::allocate_voices_by_range;
use mobinogi_mml::voicing::allocate_voices_smart;

fn note(pitch: u8, start: u32, end: u32) -> Note {
    Note {
        note: pitch,
        start,
        end,
        duration: end - start,
        velocity: 100,
        instrument: "piano".to_string(),
    }
}

fn assert_non_overlapping(voices: &[Vec<Note>]) {
    for v in voices {
        for w in v.windows(2) {
            assert!(w[0].end <= w[1].start);
        }
    }
}

#[test]
fn two_simultaneous_notes_split_into_melody_and_bass() {
    // pitch 72 becomes the melody, pitch 60 the bass, in separate voices
    let notes = vec![note(60, 0, 384), note(72, 0, 384)];
    let voices = allocate_voices_smart(notes);
    assert_eq!(voices.len(), 2);
    assert_eq!(voices[0].len(), 1);
    assert_eq!(voices[0][0].note, 72);
    assert_eq!(voices[1].len(), 1);
    assert_eq!(voices[1][0].note, 60);
    assert_non_overlapping(&voices);
}

#[test]
fn chord_priority_is_melody_then_bass_then_harmony() {
    // no prior melody pitch: highest (67) is melody, lowest (60) bass,
    // 64 harmony; assignment order fills voices 0, 1, 2
    let notes = vec![note(60, 0, 384), note(64, 0, 384), note(67, 0, 384)];
    let voices = allocate_voices_smart(notes);
    assert_eq!(voices.len(), 3);
    assert_eq!(voices[0][0].note, 67);
    assert_eq!(voices[1][0].note, 60);
    assert_eq!(voices[2][0].note, 64);
    assert_non_overlapping(&voices);
}

#[test]
fn high_note_preempts_sounding_melody_note() {
    // a high note arriving mid-note shortens the playing voice-0 note
    let notes = vec![note(60, 0, 384), note(80, 192, 384)];
    let voices = allocate_voices_smart(notes);
    assert_eq!(voices.len(), 1);
    assert_eq!(voices[0].len(), 2);
    assert_eq!(voices[0][0].note, 60);
    assert_eq!(voices[0][0].end, 192);
    assert_eq!(voices[0][0].duration, 192);
    assert_eq!(voices[0][1].note, 80);
    assert_non_overlapping(&voices);
}

#[test]
fn low_note_does_not_preempt() {
    // a lower note must not cut the melody; it opens a new voice
    let notes = vec![note(80, 0, 384), note(60, 192, 384)];
    let voices = allocate_voices_smart(notes);
    assert_eq!(voices.len(), 2);
    assert_eq!(voices[0].len(), 1);
    assert_eq!(voices[0][0].end, 384);
    assert_eq!(voices[1][0].note, 60);
    assert_non_overlapping(&voices);
}

#[test]
fn melody_continuity_window_keeps_nearby_notes_in_voice_0() {
    // 74 lands in voice 0 (high); 71 is within 5 semitones of it and
    // follows in voice 0 as well
    let notes = vec![note(74, 0, 192), note(71, 192, 384)];
    let voices = allocate_voices_smart(notes);
    assert_eq!(voices.len(), 1);
    assert_eq!(voices[0].len(), 2);
    assert_eq!(voices[0][1].note, 71);
}

#[test]
fn sequential_notes_share_one_voice() {
    let notes = vec![note(50, 0, 384), note(52, 384, 768), note(53, 768, 1152)];
    let voices = allocate_voices_smart(notes);
    assert_eq!(voices.len(), 1);
    assert_eq!(voices[0].len(), 3);
    assert_non_overlapping(&voices);
}

#[test]
fn duplicate_pitch_in_chord_is_dropped() {
    // two equal pitches at one tick: only one is placed
    let notes = vec![note(60, 0, 384), note(60, 0, 384)];
    let voices = allocate_voices_smart(notes);
    let placed: usize = voices.iter().map(|v| v.len()).sum();
    assert_eq!(placed, 1);
}

#[test]
fn range_allocation_orders_melody_mid_bass() {
    let notes = vec![note(40, 0, 384), note(65, 0, 384), note(80, 0, 384)];
    let voices = allocate_voices_by_range(notes);
    assert_eq!(voices.len(), 3);
    assert_eq!(voices[0][0].note, 80);
    assert_eq!(voices[1][0].note, 65);
    assert_eq!(voices[2][0].note, 40);
    assert_non_overlapping(&voices);
}
