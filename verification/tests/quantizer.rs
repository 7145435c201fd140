use mobinogi_mml::lengths::find_best_length;
use mobinogi_mml::lengths::find_exact_match;
use mobinogi_mml::lengths::find_safe_approximation;
use mobinogi_mml::lengths::find_tie_combination;
use mobinogi_mml::lengths::get_exact_lengths;
use mobinogi_mml::lengths::snap_to_grid;

#[test]
fn accuracy_table_has_dotted_lengths() {
    let t = get_exact_lengths(false);
    assert_eq!(t.len(), 14);
    assert_eq!(t[0], (2304, "1.".to_string()));
    assert_eq!(t[13], (24, "64".to_string()));
    assert!(t.iter().any(|e| e.1 == "8." && e.0 == 288));
}

#[test]
fn compress_table_has_no_dotted_lengths() {
    let t = get_exact_lengths(true);
    assert_eq!(t.len(), 7);
    assert!(t.iter().all(|e| !e.1.ends_with('.')));
    assert_eq!(t[2], (384, "4".to_string()));
}

#[test]
fn snap_rounds_to_nearest_grid_multiple() {
    assert_eq!(snap_to_grid(0), 0);
    assert_eq!(snap_to_grid(11), 0);
    assert_eq!(snap_to_grid(12), 24);
    assert_eq!(snap_to_grid(13), 24);
    assert_eq!(snap_to_grid(36), 48);
    assert_eq!(snap_to_grid(380), 384);
}

#[test]
fn exact_match_finds_quarter() {
    let t = get_exact_lengths(false);
    let r = find_exact_match(384, &t).unwrap();
    assert_eq!(r, vec![("4".to_string(), 384)]);
    assert!(find_exact_match(385, &t).is_none());
}

#[test]
fn tie_combination_decomposes_greedily() {
    let t = get_exact_lengths(false);
    // 960 ticks is a half note plus an eighth
    let r = find_tie_combination(960, None, &t);
    assert_eq!(r, vec![("2".to_string(), 768), ("8".to_string(), 192)]);
    // the tokens sum back to the duration exactly
    let total: u32 = r.iter().map(|p| p.1).sum();
    assert_eq!(total, 960);
}

#[test]
fn tie_combination_respects_budget() {
    let t = get_exact_lengths(false);
    let r = find_tie_combination(960, Some(1), &t);
    assert_eq!(r, vec![("2".to_string(), 768)]);
}

#[test]
fn tie_combination_falls_back_when_nothing_fits() {
    let t = get_exact_lengths(false);
    let r = find_tie_combination(10, None, &t);
    assert_eq!(r, vec![("16".to_string(), 96)]);
}

#[test]
fn approximation_prefers_longer_length_on_ties() {
    let t = get_exact_lengths(false);
    // 60 ticks is equally far from 48 and 72; the longer length wins
    let r = find_safe_approximation(60, &t);
    assert_eq!(r, vec![("32.".to_string(), 72)]);
}

#[test]
fn best_length_uses_ties_in_low_octaves_only() {
    let t = get_exact_lengths(false);
    // octave 4: unlimited greedy ties, exact round trip
    let low = find_best_length(960, 4, &t, false);
    let total: u32 = low.iter().map(|p| p.1).sum();
    assert_eq!(total, 960);
    // octave 6: single closest length only; 960 is 192 ticks off
    let high = find_best_length(960, 6, &t, false);
    assert_eq!(high, vec![("2.".to_string(), 1152)]);
}

#[test]
fn best_length_compress_mode_never_ties() {
    let t = get_exact_lengths(true);
    let r = find_best_length(960, 4, &t, true);
    assert_eq!(r.len(), 1);
}

#[test]
fn best_length_octave_five_allows_two_segments() {
    let t = get_exact_lengths(false);
    // 960 needs two segments, which octave 5 still accepts
    let r = find_best_length(960, 5, &t, false);
    assert_eq!(r, vec![("2".to_string(), 768), ("8".to_string(), 192)]);
    // 984 = 768 + 192 + 24 needs three, so octave 5 approximates
    let r3 = find_best_length(984, 5, &t, false);
    assert_eq!(r3.len(), 1);
}

#[test]
fn tie_round_trip_is_exact_for_low_octaves() {
    // accuracy mode at octave 4: for every grid-aligned duration the
    // tokens sum back exactly
    let t = get_exact_lengths(false);
    let mut d: u32 = 24;
    while d <= 4800 {
        let toks = find_best_length(d, 4, &t, false);
        let total: u32 = toks.iter().map(|p| p.1).sum();
        assert_eq!(total, d);
        d += 24;
    }
}
