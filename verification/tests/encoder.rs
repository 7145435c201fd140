use mobinogi_mml::mml::generate_mml_final;
use mobinogi_mml::types::Note;
use mobinogi_mml::types::TempoChange;

fn note(pitch: u8, start: u32, end: u32) -> Note {
    Note {
        note: pitch,
        start,
        end,
        duration: end - start,
        velocity: 100,
        instrument: "piano".to_string(),
    }
}

fn default_tempos() -> Vec<TempoChange> {
    vec![TempoChange { tick: 0, bpm: 120 }]
}

#[test]
fn single_quarter_note_elides_default_length() {
    // one C at octave 4, quarter note; quarter becomes the default length
    // so the note token carries no suffix
    let notes = vec![note(60, 0, 384)];
    let mml = generate_mml_final(&notes, 120, 4, false, &default_tempos());
    assert_eq!(mml, "T120V15O4L4C");
}

#[test]
fn empty_voice_encodes_to_empty_text() {
    let notes: Vec<Note> = vec![];
    let mml = generate_mml_final(&notes, 120, 4, false, &default_tempos());
    assert_eq!(mml, "");
}

#[test]
fn leading_gap_becomes_a_rest() {
    let notes = vec![note(60, 192, 576)];
    let mml = generate_mml_final(&notes, 120, 4, false, &default_tempos());
    // the 192-tick gap is an eighth rest; quarter is the default length
    assert_eq!(mml, "T120V15O4L4R8C");
}

#[test]
fn octave_changes_are_emitted() {
    let notes = vec![note(60, 0, 384), note(72, 384, 768)];
    let mml = generate_mml_final(&notes, 120, 4, false, &default_tempos());
    assert_eq!(mml, "T120V15O4L4CO5C");
}

#[test]
fn sharp_names_use_hash() {
    let notes = vec![note(61, 0, 384)];
    let mml = generate_mml_final(&notes, 120, 4, false, &default_tempos());
    assert_eq!(mml, "T120V15O4L4C#");
}

#[test]
fn tie_chain_joins_with_ampersand() {
    // 960 ticks at octave 4: half plus eighth, tied
    let notes = vec![note(60, 0, 960)];
    let mml = generate_mml_final(&notes, 120, 4, false, &default_tempos());
    assert_eq!(mml, "T120V15O4L2C&C8");
}

#[test]
fn default_length_prefers_eighth() {
    // one eighth and two quarters: the eighth still wins the default
    let notes = vec![note(60, 0, 192), note(62, 192, 576), note(64, 576, 960)];
    let mml = generate_mml_final(&notes, 120, 4, false, &default_tempos());
    assert_eq!(mml, "T120V15O4L8CD4E4");
}

#[test]
fn tempo_change_is_interleaved_at_its_tick() {
    let notes = vec![note(60, 0, 384), note(62, 768, 1152)];
    let tempos = vec![TempoChange { tick: 0, bpm: 120 }, TempoChange { tick: 384, bpm: 140 }];
    let mml = generate_mml_final(&notes, 120, 4, false, &tempos);
    // the tempo command lands right after the first note, before the rest
    assert_eq!(mml, "T120V15O4L4CT140RD");
}

#[test]
fn high_octave_duration_is_approximated() {
    // 960 ticks at octave 6: no tie chain, single closest length (1152)
    let notes = vec![note(84, 0, 960)];
    let mml = generate_mml_final(&notes, 120, 6, false, &default_tempos());
    assert_eq!(mml, "T120V15O6L2C2.");
}

#[test]
fn negative_start_octave_is_rendered() {
    let notes = vec![note(0, 0, 384)];
    let mml = generate_mml_final(&notes, 120, -1, false, &default_tempos());
    assert_eq!(mml, "T120V15O-1L4C");
}

#[test]
fn encoder_is_deterministic() {
    let notes = vec![note(60, 0, 960), note(72, 960, 1152), note(55, 1152, 2304)];
    let tempos = vec![TempoChange { tick: 0, bpm: 99 }, TempoChange { tick: 960, bpm: 140 }];
    let a = generate_mml_final(&notes, 99, 4, false, &tempos);
    let b = generate_mml_final(&notes, 99, 4, false, &tempos);
    assert_eq!(a, b);
}

#[test]
fn compress_mode_picks_single_closest_length() {
    // 960 ticks in compress mode: no ties, the closest plain length (768)
    let notes = vec![note(60, 0, 960)];
    let mml = generate_mml_final(&notes, 120, 4, true, &default_tempos());
    assert_eq!(mml, "T120V15O4L2C");
}
