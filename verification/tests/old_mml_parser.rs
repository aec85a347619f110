use pyxel_core::old_mml_parser::{try_parse_old_mml, OldMmlError};
use pyxel_core::old_resource_data::SoundData;

fn parse(mml: &str) -> SoundData {
    try_parse_old_mml(mml).unwrap()
}

fn err(mml: &str) -> OldMmlError {
    try_parse_old_mml(mml).err().unwrap()
}

#[test]
fn default_note_is_three_steps_and_a_fade() {
    let s = parse("c");
    assert_eq!(s.notes, vec![24, 24, 24, 24]);
    assert_eq!(s.effects, vec![0, 0, 0, 3]);
    assert_eq!(s.tones, vec![0; 4]);
    assert_eq!(s.volumes, vec![7; 4]);
    assert_eq!(s.speed, 9);
}

#[test]
fn octaves_and_accidentals_move_the_note() {
    assert_eq!(parse("o3c").notes[0], 36);
    assert_eq!(parse(">c").notes[0], 36);
    assert_eq!(parse("<c").notes[0], 12);
    assert_eq!(parse("c#").notes[0], 25);
    assert_eq!(parse("C+").notes[0], 25);
    assert_eq!(parse("c-").notes[0], 23);
}

#[test]
fn tempo_sets_speed_with_a_floor_of_one() {
    assert_eq!(parse("t60c").speed, 15);
    assert_eq!(parse("t9000c").speed, 1);
}

#[test]
fn dotted_length_ends_in_a_rest() {
    let s = parse("c4.");
    assert_eq!(s.notes.len(), 12);
    assert_eq!(&s.notes[..11], &[24; 11]);
    assert_eq!(s.notes[11], -1);
    assert_eq!(s.effects[10], 3);
}

#[test]
fn rest_and_full_quantize() {
    let r = parse("r4");
    assert_eq!(r.notes, vec![-1; 8]);
    assert_eq!(r.volumes, vec![0; 8]);
    let q = parse("q8c");
    assert_eq!(q.notes, vec![24; 4]);
    assert_eq!(q.effects, vec![0; 4]);
}

#[test]
fn tie_joins_notes_and_continues_the_envelope() {
    let s = parse("x1:7531 x1 c&c");
    assert_eq!(s.notes, vec![24; 8]);
    assert_eq!(s.effects, vec![0, 0, 0, 0, 0, 0, 0, 3]);
    assert_eq!(s.volumes, vec![7, 5, 3, 1, 1, 1, 1, 1]);
}

#[test]
fn vibrato_marks_the_full_steps() {
    let s = parse("c~");
    assert_eq!(s.effects, vec![2, 2, 2, 3]);
}

#[test]
fn short_notes_pick_a_fade_tier() {
    assert_eq!(parse("l32q7c").effects, vec![5]);
    assert_eq!(parse("l32q4c").effects, vec![4]);
    assert_eq!(parse("l32q2c").effects, vec![3]);
}

#[test]
fn errors_name_the_problem() {
    assert_eq!(err("t0c"), OldMmlError::ZeroTempo);
    assert_eq!(err("l0c"), OldMmlError::InvalidNoteLength { length: 0 });
    assert_eq!(err("c0"), OldMmlError::InvalidNoteLength { length: 0 });
    assert_eq!(err("r0"), OldMmlError::InvalidNoteLength { length: 0 });
    assert_eq!(err("@4c"), OldMmlError::InvalidTone { value: 4 });
    assert_eq!(err("o5c"), OldMmlError::InvalidOctave { value: 5 });
    assert_eq!(err("q0c"), OldMmlError::InvalidQuantize { value: 0 });
    assert_eq!(err("q9c"), OldMmlError::InvalidQuantize { value: 9 });
    assert_eq!(err("v8c"), OldMmlError::InvalidVolume { value: 8 });
    assert_eq!(err("x8c"), OldMmlError::InvalidEnvelope { value: 8 });
    assert_eq!(err("x1:8c"), OldMmlError::InvalidEnvelopeVolume { volume: 8 });
    assert_eq!(err("l3c"), OldMmlError::InvalidNoteLength { length: 3 });
    assert_eq!(err("c32."), OldMmlError::DotTooShort);
    assert_eq!(err("o4>c"), OldMmlError::OctaveAboveMaximum);
    assert_eq!(err("o0<c"), OldMmlError::OctaveBelowMinimum);
    assert_eq!(err("t"), OldMmlError::MissingValue { target: 't' });
    assert_eq!(err("x1:"), OldMmlError::MissingEnvelopeVolumes);
    assert_eq!(err("z"), OldMmlError::InvalidCommand { found: 'z' });
}

#[test]
fn trailing_whitespace_ends_cleanly() {
    assert!(try_parse_old_mml("c~\n").is_ok());
    assert!(try_parse_old_mml("v7 ").is_ok());
    assert!(try_parse_old_mml(" ").is_ok());
}

#[test]
fn growing_lengths_report_overflow() {
    let mml = "l1".to_string() + &"l...".repeat(80);
    assert_eq!(err(&mml), OldMmlError::Overflow);
}
