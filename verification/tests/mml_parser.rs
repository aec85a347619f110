use pyxel_core::mml_parser::{parse_mml, MmlCommand, AUDIO_CLOCK_RATE};
use pyxel_core::mml_timing::{calc_commands_clocks, try_calc_commands_clocks};

// Helpers

fn parse(mml: &str) -> Vec<MmlCommand> {
    parse_mml(mml).unwrap()
}

fn note_commands(commands: &[MmlCommand]) -> Vec<(u32, u32)> {
    commands
        .iter()
        .filter_map(|cmd| match cmd {
            MmlCommand::Note {
                midi_note,
                duration_ticks,
            } => Some((*midi_note, *duration_ticks)),
            _ => None,
        })
        .collect()
}

fn rest_commands(commands: &[MmlCommand]) -> Vec<u32> {
    commands
        .iter()
        .filter_map(|cmd| match cmd {
            MmlCommand::Rest { duration_ticks } => Some(*duration_ticks),
            _ => None,
        })
        .collect()
}

// Seconds from the clock count, as the application computes them.
fn calc_commands_sec(commands: &[MmlCommand]) -> Option<f32> {
    calc_commands_clocks(&commands.to_vec()).map(|clocks| clocks as f32 / AUDIO_CLOCK_RATE as f32)
}

// Gate times are percentages of the note length.
fn quantize_values(commands: &[MmlCommand]) -> Vec<f32> {
    commands
        .iter()
        .filter_map(|cmd| match cmd {
            MmlCommand::Quantize { gate_time } => Some(*gate_time as f32 / 100.0),
            _ => None,
        })
        .collect()
}

// ── Basic notes ──

#[test]
fn test_single_note() {
    let cmds = parse("C");
    let notes = note_commands(&cmds);
    // C4 = MIDI 60, default length = quarter note = 48 ticks
    assert_eq!(notes, [(60, 48)]);
}

#[test]
fn test_note_names() {
    let cmds = parse("O4 CDEFGAB");
    let notes = note_commands(&cmds);
    let midi_notes: Vec<u32> = notes.iter().map(|(n, _)| *n).collect();
    assert_eq!(midi_notes, [60, 62, 64, 65, 67, 69, 71]);
}

#[test]
fn test_sharp_and_flat() {
    let cmds = parse("C+ C# C-");
    let notes = note_commands(&cmds);
    assert_eq!(notes[0].0, 61); // C#
    assert_eq!(notes[1].0, 61); // C#
    assert_eq!(notes[2].0, 59); // Cb = B3
}

// ── Octave ──

#[test]
fn test_octave() {
    let cmds = parse("O3 C O5 C");
    let notes = note_commands(&cmds);
    assert_eq!(notes[0].0, 48); // C3
    assert_eq!(notes[1].0, 72); // C5
}

#[test]
fn test_octave_shift() {
    let cmds = parse("O4 C > C < C");
    let notes = note_commands(&cmds);
    assert_eq!(notes[0].0, 60); // C4
    assert_eq!(notes[1].0, 72); // C5
    assert_eq!(notes[2].0, 60); // C4
}

#[test]
fn test_octave_boundaries() {
    let cmds = parse("O-1 C O9 B");
    let notes = note_commands(&cmds);
    assert_eq!(notes[0].0, 0); // C at O-1: (-1+1)*12+0 = 0
    assert_eq!(notes[1].0, 131); // B at O9: (9+1)*12+11 = 131
}

// ── Note length ──

#[test]
fn test_note_length() {
    let cmds = parse("C1 C2 C4 C8 C16");
    let notes = note_commands(&cmds);
    let ticks: Vec<u32> = notes.iter().map(|(_, t)| *t).collect();
    // whole=192, half=96, quarter=48, eighth=24, sixteenth=12
    assert_eq!(ticks, [192, 96, 48, 24, 12]);
}

#[test]
fn test_note_length_boundaries() {
    let cmds = parse("C1 C192");
    let notes = note_commands(&cmds);
    assert_eq!(notes[0].1, 192); // whole note (longest)
    assert_eq!(notes[1].1, 1); // shortest possible
}

#[test]
fn test_dotted_note() {
    let cmds = parse("C4.");
    let notes = note_commands(&cmds);
    // quarter dot = 48 + 24 = 72
    assert_eq!(notes[0].1, 72);
}

#[test]
fn test_double_dotted_note() {
    let cmds = parse("C4..");
    let notes = note_commands(&cmds);
    // quarter=48, dot1=+24=72, dot2=+12=84
    assert_eq!(notes[0].1, 84);
}

#[test]
fn test_default_length() {
    let cmds = parse("L8 C D E");
    let notes = note_commands(&cmds);
    for (_, ticks) in &notes {
        assert_eq!(*ticks, 24); // eighth note
    }
}

// ── Rest ──

#[test]
fn test_rest() {
    let cmds = parse("C R C");
    let rests = rest_commands(&cmds);
    assert_eq!(rests, [48]); // default quarter note rest
}

#[test]
fn test_rest_with_length() {
    let cmds = parse("R8 R16");
    let rests = rest_commands(&cmds);
    assert_eq!(rests, [24, 12]);
}

#[test]
fn test_rest_with_tie() {
    let cmds = parse("R4&8");
    let rests = rest_commands(&cmds);
    // 48 + 24 = 72
    assert_eq!(rests, [72]);
}

#[test]
fn test_rest_only() {
    let cmds = parse("R4 R8");
    assert_eq!(rest_commands(&cmds), [48, 24]);
    assert!(note_commands(&cmds).is_empty());
}

// ── Tie & connection ──

#[test]
fn test_tie_extends_duration() {
    let cmds = parse("C4&4");
    let notes = note_commands(&cmds);
    // 48 + 48 = 96
    assert_eq!(notes[0].1, 96);
}

#[test]
fn test_tie_chain() {
    let cmds = parse("C4&4&4");
    let notes = note_commands(&cmds);
    // 48 + 48 + 48 = 144
    assert_eq!(notes, [(60, 144)]);
}

#[test]
fn test_tie_different_notes_not_combined() {
    let cmds = parse("C4& D4");
    let notes = note_commands(&cmds);
    assert_eq!(notes.len(), 2);
    assert_eq!(notes[0], (60, 48)); // C4
    assert_eq!(notes[1], (62, 48)); // D4
}

// ── Repeat ──

#[test]
fn test_repeat() {
    let cmds = parse("[C D]3");
    let has_start = cmds
        .iter()
        .any(|cmd| matches!(cmd, MmlCommand::RepeatStart));
    let has_end = cmds
        .iter()
        .any(|cmd| matches!(cmd, MmlCommand::RepeatEnd { play_count: 3 }));
    assert!(has_start);
    assert!(has_end);
}

#[test]
fn test_repeat_default_infinite() {
    let cmds = parse("[C]");
    assert!(cmds
        .iter()
        .any(|cmd| matches!(cmd, MmlCommand::RepeatEnd { play_count: 0 })));
}

// ── Parameter commands: Tempo ──

#[test]
fn test_tempo() {
    let cmds = parse("T120 C");
    assert!(cmds
        .iter()
        .any(|cmd| matches!(cmd, MmlCommand::Tempo { .. })));
}

#[test]
fn test_tempo_value() {
    let cmds = parse("T120 C");
    let cpt = cmds.iter().find_map(|cmd| match cmd {
        MmlCommand::Tempo { clocks_per_tick } => Some(*clocks_per_tick),
        _ => None,
    });
    // bpm_to_cpt(120) = (1_789_773.0 * 60.0 / (120.0 * 48.0)).round() = 18643
    assert_eq!(cpt, Some(18643));
}

// ── Parameter commands: Volume ──

#[test]
fn test_volume() {
    let cmds = parse("V100 C");
    assert!(cmds
        .iter()
        .any(|cmd| matches!(cmd, MmlCommand::Volume { .. })));
}

#[test]
fn test_volume_value() {
    // V127 → level = 1.0
    let cmds = parse("V127 C");
    assert!(cmds
        .iter()
        .any(|cmd| matches!(cmd, MmlCommand::Volume { volume } if (*volume as f32 / 127.0 - 1.0).abs() < 1e-4)));

    // V0 → level = 0.0
    let cmds = parse("V0 C");
    assert!(cmds
        .iter()
        .any(|cmd| matches!(cmd, MmlCommand::Volume { volume } if *volume as f32 / 127.0 == 0.0)));
}

// ── Parameter commands: Quantize ──

#[test]
fn test_quantize() {
    let cmds = parse("Q50 C");
    let qvals = quantize_values(&cmds);
    // Q50 → gate_ratio = 0.5
    assert!(
        qvals.iter().any(|&r| (r - 0.5).abs() < 1e-4),
        "expected gate_ratio 0.5, got {qvals:?}"
    );
}

#[test]
fn test_quantize_full_gate() {
    // Q100 means no per-note quantize command is emitted
    let cmds = parse("Q100 C D");
    let qvals = quantize_values(&cmds);
    // Only the Q100 command itself (gate_ratio=1.0), no per-note quantize
    assert!(qvals.iter().all(|&r| (r - 1.0).abs() < 1e-4));
}

#[test]
fn test_connected_note_quantize_full_gate() {
    // Connected note (C&) should get gate_ratio=1.0, normal note (D) gets 0.5
    let cmds = parse("Q50 C& D");
    let qvals = quantize_values(&cmds);
    assert_eq!(qvals.len(), 3);
    assert!((qvals[0] - 0.5).abs() < 1e-4, "Q50: {}", qvals[0]);
    assert!((qvals[1] - 1.0).abs() < 1e-4, "connected: {}", qvals[1]);
    assert!((qvals[2] - 0.5).abs() < 1e-4, "normal: {}", qvals[2]);
}

// ── Parameter commands: Tone, Transpose, Detune ──

#[test]
fn test_tone_command() {
    let cmds = parse("@3 C");
    assert!(cmds
        .iter()
        .any(|cmd| matches!(cmd, MmlCommand::Tone { tone: 3 })));
}

#[test]
fn test_transpose() {
    let cmds = parse("K5 C");
    assert!(cmds.iter().any(|cmd| matches!(
        cmd,
        MmlCommand::Transpose { key_offset } if (*key_offset as f32 - 5.0).abs() < 1e-4
    )));
}

#[test]
fn test_transpose_negative() {
    let cmds = parse("K-5 C");
    assert!(cmds.iter().any(|cmd| matches!(
        cmd,
        MmlCommand::Transpose { key_offset } if (*key_offset as f32 + 5.0).abs() < 1e-4
    )));
}

#[test]
fn test_detune() {
    let cmds = parse("Y50 C");
    // 50 cents = 0.5 semitones
    assert!(cmds.iter().any(|cmd| matches!(
        cmd,
        MmlCommand::Detune { offset_cents } if (*offset_cents as f32 / 100.0 - 0.5).abs() < 1e-4
    )));
}

// ── Effect definitions: Envelope ──

#[test]
fn test_envelope_definition() {
    let cmds = parse("@ENV1{127, 10, 64} C");
    assert!(cmds
        .iter()
        .any(|cmd| matches!(cmd, MmlCommand::EnvelopeSet { slot: 1, .. })));
}

#[test]
fn test_envelope_multiple_segments() {
    let cmds = parse("@ENV1{127, 10, 64, 10, 32} C");
    assert!(cmds.iter().any(|cmd| matches!(
        cmd,
        MmlCommand::EnvelopeSet { slot: 1, segments, .. } if segments.len() == 2
    )));
}

#[test]
fn test_envelope_switch() {
    let cmds = parse("@ENV2 C");
    assert!(cmds
        .iter()
        .any(|cmd| matches!(cmd, MmlCommand::Envelope { slot: 2 })));
}

// ── Effect definitions: Vibrato ──

#[test]
fn test_vibrato_definition() {
    let cmds = parse("@VIB1{10, 20, 50} C");
    assert!(cmds
        .iter()
        .any(|cmd| matches!(cmd, MmlCommand::VibratoSet { slot: 1, .. })));
}

// ── Effect definitions: Glide ──

#[test]
fn test_glide_definition() {
    let cmds = parse("@GLI1{100, 10} C");
    assert!(cmds
        .iter()
        .any(|cmd| matches!(cmd, MmlCommand::GlideSet { slot: 1, .. })));
}

#[test]
fn test_glide_wildcard() {
    let cmds = parse("@GLI1{*, *} C");
    assert!(cmds.iter().any(|cmd| matches!(
        cmd,
        MmlCommand::GlideSet {
            slot: 1,
            offset_cents: None,
            duration_ticks: None,
        }
    )));
}

#[test]
fn test_glide_partial_wildcard() {
    let cmds = parse("@GLI1{100, *} C");
    assert!(cmds.iter().any(|cmd| matches!(
        cmd,
        MmlCommand::GlideSet {
            slot: 1,
            offset_cents: Some(_),
            duration_ticks: None,
        }
    )));

    let cmds = parse("@GLI1{*, 10} C");
    assert!(cmds.iter().any(|cmd| matches!(
        cmd,
        MmlCommand::GlideSet {
            slot: 1,
            offset_cents: None,
            duration_ticks: Some(10),
        }
    )));
}

// ── Default insertion ──

#[test]
fn test_default_commands_inserted_on_first_note() {
    // First note triggers auto-insertion of all default parameter commands
    let cmds = parse("C");
    assert_eq!(cmds.len(), 11);
    assert!(matches!(cmds[0], MmlCommand::Tempo { .. }));
    assert!(matches!(cmds[1], MmlCommand::Quantize { .. }));
    assert!(matches!(cmds[2], MmlCommand::Tone { .. }));
    assert!(matches!(cmds[3], MmlCommand::Volume { .. }));
    assert!(matches!(cmds[4], MmlCommand::Transpose { .. }));
    assert!(matches!(cmds[5], MmlCommand::Detune { .. }));
    assert!(matches!(cmds[6], MmlCommand::Envelope { slot: 0 }));
    assert!(matches!(cmds[7], MmlCommand::Vibrato { slot: 0 }));
    assert!(matches!(cmds[8], MmlCommand::Glide { slot: 0 }));
    assert!(matches!(cmds[9], MmlCommand::Quantize { .. }));
    assert!(matches!(
        cmds[10],
        MmlCommand::Note {
            midi_note: 60,
            duration_ticks: 48
        }
    ));
}

// ── Case / whitespace / empty ──

#[test]
fn test_case_insensitive() {
    let upper = note_commands(&parse("C D E"));
    let lower = note_commands(&parse("c d e"));
    assert_eq!(upper, lower);
}

#[test]
fn test_whitespace_ignored() {
    let no_space = note_commands(&parse("CDE"));
    let with_space = note_commands(&parse("C D E"));
    assert_eq!(no_space, with_space);
}

#[test]
fn test_empty_mml() {
    let cmds = parse("");
    assert!(cmds.is_empty());
}

// ── Error cases ──

#[test]
fn test_err_invalid_character() {
    assert!(parse_mml("X").is_err());
}

#[test]
fn test_err_octave_overflow() {
    assert!(parse_mml("O9 > C").is_err());
}

#[test]
fn test_err_octave_underflow() {
    assert!(parse_mml("O-1 < C").is_err());
}

#[test]
fn test_err_tempo_missing_number() {
    assert!(parse_mml("T C").is_err());
}

#[test]
fn test_err_volume_missing_number() {
    assert!(parse_mml("V C").is_err());
}

#[test]
fn test_err_envelope_slot_zero_reserved() {
    assert!(parse_mml("@ENV0{127}").is_err());
}

#[test]
fn test_err_vibrato_slot_zero_reserved() {
    assert!(parse_mml("@VIB0{10, 20, 50}").is_err());
}

#[test]
fn test_err_glide_slot_zero_reserved() {
    assert!(parse_mml("@GLI0{100, 10}").is_err());
}

#[test]
fn test_err_note_length_out_of_range_falls_back() {
    // L0 and L193 are out of range — parser silently uses default length
    let cmds_l0 = parse("L0 C");
    let cmds_default = parse("C");
    assert_eq!(note_commands(&cmds_l0), note_commands(&cmds_default));

    let cmds_l193 = parse("L193 C");
    assert_eq!(note_commands(&cmds_l193), note_commands(&cmds_default));
}

#[test]
fn test_err_note_length_not_divisible() {
    // 192 is not divisible by 7
    assert!(parse_mml("C7").is_err());
}

#[test]
fn test_err_dot_on_odd_tick_length() {
    // L192 = 1 tick, cannot apply dot to odd value
    assert!(parse_mml("C192.").is_err());
}

// ── calc_commands_sec ──

#[test]
fn test_calc_commands_sec_quarter_note_at_120bpm() {
    let cmds = parse("T120 C4");
    let sec = calc_commands_sec(&cmds).unwrap();
    // Quarter note at 120 BPM ≈ 0.5 seconds
    assert!((sec - 0.5).abs() < 0.001, "expected ~0.5, got {sec}");
}

#[test]
fn test_calc_commands_sec_tempo_change() {
    let cmds = parse("T120 C4 T60 C4");
    let sec = calc_commands_sec(&cmds).unwrap();
    // 0.5s (120bpm quarter) + 1.0s (60bpm quarter) ≈ 1.5s
    assert!((sec - 1.5).abs() < 0.01, "expected ~1.5, got {sec}");
}

#[test]
fn test_calc_commands_sec_infinite_loop() {
    let cmds = parse("[C]0"); // 0 = infinite repeat
    assert!(calc_commands_sec(&cmds).is_none());
}

#[test]
fn test_calc_commands_sec_finite_repeat() {
    let cmds = parse("T120 [C4]2");
    let sec = calc_commands_sec(&cmds).unwrap();
    let single = calc_commands_sec(&parse("T120 C4")).unwrap();
    assert!(
        (sec - single * 2.0).abs() < 0.01,
        "expected ~{}, got {sec}",
        single * 2.0
    );
}

#[test]
fn test_calc_commands_sec_nested_repeat() {
    let cmds = parse("T120 [[C4]2]3");
    let sec = calc_commands_sec(&cmds).unwrap();
    let single = calc_commands_sec(&parse("T120 C4")).unwrap();
    // Inner loop plays 2 times, outer loop plays 3 times → 6 total notes
    assert!(
        (sec - single * 6.0).abs() < 0.01,
        "expected ~{}, got {sec}",
        single * 6.0
    );
}

#[test]
fn test_calc_commands_sec_empty() {
    let cmds = parse("");
    assert_eq!(calc_commands_sec(&cmds), Some(0.0));
}

#[test]
fn calc_commands_clocks_counts_nested_repeats_exactly() {
    let single = calc_commands_clocks(&parse("T120 C4")).unwrap();
    assert_eq!(single, 18643 * 48);
    assert_eq!(calc_commands_clocks(&parse("T120 [[C4]2]3")), Some(single * 6));
}

#[test]
fn calc_commands_clocks_reports_overflow() {
    let cmds = parse("T1 [C1]0");
    assert!(try_calc_commands_clocks(&cmds).unwrap().is_none());
    let long = parse("T1 C1 C1 C1 C1 C1 C1 C1 C1 C1 C1 C1 C1 C1 C1 C1 C1 C1 C1 C1 C1 C1 C1 C1 C1 C1 C1 C1 C1 C1 C1 C1 C1 C1 C1 C1 C1 C1 C1 C1 C1 C1 C1 C1 C1 C1 C1 C1 C1 C1 C1 C1 C1 C1 C1 C1 C1 C1 C1 C1 C1 C1 C1 C1 C1 C1 C1 C1 C1 C1 C1 C1 C1 C1 C1 C1 C1 C1 C1 C1 C1 C1 C1 C1 C1 C1 C1 C1 C1 C1 C1 C1 C1 C1 C1 C1 C1 C1 C1 C1 C1");
    assert!(try_calc_commands_clocks(&long).is_err());
}

#[test]
fn mixed_case_parses_like_lowercase() {
    let upper = pyxel_core::mml_parser::try_parse_mml("T100 Q50 O3 L8 C#D&E R @ENV1{10,5,20} [G]2");
    let lower = pyxel_core::mml_parser::try_parse_mml("t100 q50 o3 l8 c#d&e r @env1{10,5,20} [g]2");
    assert_eq!(format!("{:?}", upper), format!("{:?}", lower));
    assert!(matches!(upper, Some(Ok(_))));
}
