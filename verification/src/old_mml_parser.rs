use vstd::prelude::*;

use crate::font::{lemma_next_ws, next_ws, next_ws_at};
use crate::old_resource_data::{decimal_value, SoundData, SoundDataView};
use crate::old_resource_data::chars_of;

verus! {

/// Sound effects of a note step.
pub const EFFECT_NONE: u8 = 0;
pub const EFFECT_VIBRATO: u8 = 2;
pub const EFFECT_FADEOUT: u8 = 3;
pub const EFFECT_HALF_FADEOUT: u8 = 4;
pub const EFFECT_QUARTER_FADEOUT: u8 = 5;

/// Why old-style MML was refused.
#[derive(Debug, Clone, Copy, PartialEq, Eq)]
pub enum OldMmlError {
    /// `t0`.
    ZeroTempo,
    InvalidTone { value: u32 },
    InvalidOctave { value: u32 },
    OctaveAboveMaximum,
    OctaveBelowMinimum,
    InvalidQuantize { value: u32 },
    InvalidVolume { value: u32 },
    InvalidEnvelope { value: u32 },
    InvalidEnvelopeVolume { volume: u32 },
    MissingEnvelopeVolumes,
    InvalidNoteLength { length: u32 },
    DotTooShort,
    /// The command letter `target` has no number after it.
    MissingValue { target: char },
    InvalidCommand { found: char },
    /// A length or step count passed 32 bits.
    Overflow,
}

/// A letter in lower case; other characters as they are.
pub open spec fn lower(c: char) -> char {
    if 'A' <= c && c <= 'Z' {
        ((c as int) + 32) as char
    } else {
        c
    }
}

/// The first index at or after `p` that holds no ASCII digit.
pub open spec fn digits_end(s: Seq<char>, p: int) -> int
    decreases s.len() - p,
{
    if 0 <= p < s.len() && '0' <= s[p] && s[p] <= '9' {
        digits_end(s, p + 1)
    } else {
        p
    }
}

/// A number after white space: its value if it fits `u32`, and where it ends.
pub open spec fn scan_number(s: Seq<char>, p: int) -> (Option<u32>, int) {
    let q = next_ws(s, p, false);
    let e = digits_end(s, q);
    if e <= q {
        (None, q)
    } else if decimal_value(s.subrange(q, e)) > u32::MAX {
        (None, e)
    } else {
        (Some(decimal_value(s.subrange(q, e)) as u32), e)
    }
}

/// Whether `t` (in either case) follows white space, and where the reading stops.
pub open spec fn scan_char(s: Seq<char>, p: int, t: char) -> (bool, int) {
    let q = next_ws(s, p, false);
    if q < s.len() && lower(s[q]) == t {
        (true, q + 1)
    } else {
        (false, q)
    }
}

/// Dots after a note length, each adding half of the previous addition.
pub open spec fn scan_dots(s: Seq<char>, p: int, length: u32, added: u32) -> Result<(u32, int), OldMmlError>
    decreases s.len() - p,
{
    let (dot, q) = scan_char(s, p, '.');
    if !dot || q <= p || q > s.len() {
        Ok((length, q))
    } else if added >= 2 {
        if length + added / 2 > u32::MAX {
            Err(OldMmlError::Overflow)
        } else {
            scan_dots(s, q, (length + added / 2) as u32, added / 2)
        }
    } else {
        Err(OldMmlError::DotTooShort)
    }
}

/// A note length: a divisor of 32 giving `32 / n` steps (or the current length), then dots.
pub open spec fn scan_length(s: Seq<char>, p: int, cur: u32) -> Result<(u32, int), OldMmlError> {
    let (n, q) = scan_number(s, p);
    match n {
        Some(t) => if 1 <= t <= 32 && 32u32 % t == 0 {
            scan_dots(s, q, 32u32 / t, 32u32 / t)
        } else {
            Err(OldMmlError::InvalidNoteLength { length: t })
        },
        None => scan_dots(s, q, cur, cur),
    }
}

/// How a note's volume develops.
#[derive(Clone, Copy)]
pub enum VolEnv {
    Constant(u8),
    Envelope(u32),
}

/// The note being built: it is emitted when the next note or rest begins.
pub struct NoteInfo {
    pub length: u32,
    pub quantize: u32,
    pub tone: u16,
    pub env_start: u32,
    pub env_data: Seq<u8>,
    pub vibrato: bool,
    pub note: i8,
    pub is_tied: bool,
}

/// Reader state between commands.
pub struct OldMmlState {
    pub pos: int,
    pub length: u32,
    pub quantize: u32,
    pub octave: i8,
    pub tone: u16,
    pub vol_env: VolEnv,
    pub envelopes: Seq<Seq<u8>>,
    pub note_info: NoteInfo,
    pub sound: SoundDataView,
}

/// `n` copies of `v`.
pub open spec fn copies<T>(v: T, n: int) -> Seq<T> {
    Seq::new(n as nat, |i: int| v)
}

/// Whether the note's step counts fit 32 bits.
pub open spec fn note_fits(ni: NoteInfo) -> bool {
    ni.length == 0 || (ni.env_start + ni.length - 1 <= u32::MAX && (ni.note == -1 || ni.length * ni.quantize <= u32::MAX))
}

/// The steps of a note appended to the sound: tones and volumes over its length, then
/// the gated note steps, a fade-out step and rests (a rest is silent throughout).
pub open spec fn add_note(sound: SoundDataView, ni: NoteInfo) -> SoundDataView {
    if ni.length == 0 {
        sound
    } else {
        let len = ni.length as int;
        let tones = sound.tones + copies(ni.tone, len);
        let volumes = sound.volumes + Seq::new(ni.length as nat, |i: int|
            ni.env_data[if ni.env_start + i < ni.env_data.len() - 1 { ni.env_start + i } else { ni.env_data.len() - 1 }]);
        if ni.note == -1 {
            SoundDataView {
                notes: sound.notes + copies(-1i8, len),
                tones,
                volumes,
                effects: sound.effects + copies(EFFECT_NONE, len),
                ..sound
            }
        } else {
            let duration = ni.length * ni.quantize;
            let num = duration / 8;
            let effect = if ni.vibrato { EFFECT_VIBRATO } else { EFFECT_NONE };
            if num == len {
                SoundDataView {
                    notes: sound.notes + copies(ni.note, num),
                    tones,
                    volumes,
                    effects: sound.effects + copies(effect, num),
                    ..sound
                }
            } else {
                let fade = if num > 0 {
                    EFFECT_FADEOUT
                } else if duration >= 6 {
                    EFFECT_QUARTER_FADEOUT
                } else if duration >= 4 {
                    EFFECT_HALF_FADEOUT
                } else {
                    EFFECT_FADEOUT
                };
                let rests = len - num - 1;
                SoundDataView {
                    notes: sound.notes + copies(ni.note, num) + seq![ni.note] + copies(-1i8, rests),
                    tones,
                    volumes,
                    effects: sound.effects + copies(effect, num) + seq![fade] + copies(EFFECT_NONE, rests),
                    ..sound
                }
            }
        }
    }
}

/// A number command `t` (either case) at `p`: `None` when another command stands there.
pub open spec fn scan_command(s: Seq<char>, p: int, t: char) -> Result<Option<(u32, int)>, OldMmlError> {
    let (found, q) = scan_char(s, p, t);
    if !found {
        Ok(None)
    } else {
        match scan_number(s, q) {
            (Some(v), e) => Ok(Some((v, e))),
            (None, _) => Err(OldMmlError::MissingValue { target: t }),
        }
    }
}

/// Envelope volumes: single digits up to 7, white space between them.
pub open spec fn scan_volumes(s: Seq<char>, p: int, acc: Seq<u8>) -> Result<(Seq<u8>, int), OldMmlError>
    decreases s.len() - p,
{
    if 0 <= p < s.len() && '0' <= s[p] && s[p] <= '9' {
        let v = (s[p] as int - '0' as int) as u32;
        if v > 7 {
            Err(OldMmlError::InvalidEnvelopeVolume { volume: v })
        } else {
            let q = next_ws(s, p + 1, false);
            if q <= p || q > s.len() {
                Ok((acc.push(v as u8), q))
            } else {
                scan_volumes(s, q, acc.push(v as u8))
            }
        }
    } else {
        Ok((acc, p))
    }
}

/// An envelope command `x<n>`, with `:` and its volumes when it defines them.
pub open spec fn scan_envelope(s: Seq<char>, p: int) -> Result<Option<(u32, Seq<u8>, int)>, OldMmlError> {
    match scan_command(s, p, 'x') {
        Err(e) => Err(e),
        Ok(None) => Ok(None),
        Ok(Some((env, e))) => if env > 7 {
            Err(OldMmlError::InvalidEnvelope { value: env })
        } else {
            let (colon, q) = scan_char(s, e, ':');
            if !colon {
                Ok(Some((env, Seq::empty(), q)))
            } else {
                match scan_volumes(s, next_ws(s, q, false), Seq::empty()) {
                    Err(err) => Err(err),
                    Ok((vols, r)) => if vols.len() == 0 {
                        Err(OldMmlError::MissingEnvelopeVolumes)
                    } else {
                        Ok(Some((env, vols, r)))
                    },
                }
            }
        },
    }
}

/// The step of a note letter (0 for `c`), `None` for other characters.
pub open spec fn note_step(c: char) -> Option<i8> {
    if c == 'c' { Some(0) } else if c == 'd' { Some(2) } else if c == 'e' { Some(4) } else if c == 'f' { Some(5) }
    else if c == 'g' { Some(7) } else if c == 'a' { Some(9) } else if c == 'b' { Some(11) } else { None }
}

/// `#` or `+` raise a note, `-` lowers it: the change and where reading stops.
pub open spec fn scan_accidental(s: Seq<char>, p: int) -> (int, int) {
    let (sharp, q1) = scan_char(s, p, '#');
    if sharp {
        (1, q1)
    } else {
        let (plus, q2) = scan_char(s, q1, '+');
        if plus {
            (1, q2)
        } else {
            let (minus, q3) = scan_char(s, q2, '-');
            if minus { (-1, q3) } else { (0, q3) }
        }
    }
}

/// The result of reading one command.
pub enum OldMmlStep {
    Next(OldMmlState),
    Done,
    Fail(OldMmlError),
}

/// The volumes a new note starts with.
pub open spec fn env_data_of(st: OldMmlState) -> Seq<u8> {
    match st.vol_env {
        VolEnv::Constant(v) => seq![v],
        VolEnv::Envelope(e) => st.envelopes[e as int],
    }
}

/// Reads the command after white space at `st.pos`.
#[verifier::opaque]
pub open spec fn old_mml_step(s: Seq<char>, st: OldMmlState) -> OldMmlStep {
    let q = next_ws(s, st.pos, false);
    if q >= s.len() {
        OldMmlStep::Done
    } else {
        let c = lower(s[q]);
        if c == 't' {
            match scan_command(s, q, 't') {
                Err(e) => OldMmlStep::Fail(e),
                Ok(None) => OldMmlStep::Done,
                Ok(Some((v, e))) => if v == 0 {
                    OldMmlStep::Fail(OldMmlError::ZeroTempo)
                } else {
                    OldMmlStep::Next(OldMmlState {
                        pos: e,
                        sound: SoundDataView { speed: if 900u32 / v >= 1 { 900u32 / v } else { 1u32 }, ..st.sound },
                        ..st
                    })
                },
            }
        } else if c == 'l' {
            match scan_length(s, q + 1, st.length) {
                Err(e) => OldMmlStep::Fail(e),
                Ok((len, e)) => OldMmlStep::Next(OldMmlState { pos: e, length: len, ..st }),
            }
        } else if c == '@' || c == 'o' || c == 'q' || c == 'v' {
            match scan_command(s, q, c) {
                Err(e) => OldMmlStep::Fail(e),
                Ok(None) => OldMmlStep::Done,
                Ok(Some((v, e))) => if c == '@' {
                    if v <= 3 { OldMmlStep::Next(OldMmlState { pos: e, tone: v as u16, ..st }) }
                    else { OldMmlStep::Fail(OldMmlError::InvalidTone { value: v }) }
                } else if c == 'o' {
                    if v <= 4 { OldMmlStep::Next(OldMmlState { pos: e, octave: v as i8, ..st }) }
                    else { OldMmlStep::Fail(OldMmlError::InvalidOctave { value: v }) }
                } else if c == 'q' {
                    if 1 <= v <= 8 { OldMmlStep::Next(OldMmlState { pos: e, quantize: v, ..st }) }
                    else { OldMmlStep::Fail(OldMmlError::InvalidQuantize { value: v }) }
                } else {
                    if v <= 7 { OldMmlStep::Next(OldMmlState { pos: e, vol_env: VolEnv::Constant(v as u8), ..st }) }
                    else { OldMmlStep::Fail(OldMmlError::InvalidVolume { value: v }) }
                },
            }
        } else if c == '>' {
            if st.octave < 4 { OldMmlStep::Next(OldMmlState { pos: q + 1, octave: (st.octave + 1) as i8, ..st }) }
            else { OldMmlStep::Fail(OldMmlError::OctaveAboveMaximum) }
        } else if c == '<' {
            if st.octave > 0 { OldMmlStep::Next(OldMmlState { pos: q + 1, octave: (st.octave - 1) as i8, ..st }) }
            else { OldMmlStep::Fail(OldMmlError::OctaveBelowMinimum) }
        } else if c == 'x' {
            match scan_envelope(s, q) {
                Err(e) => OldMmlStep::Fail(e),
                Ok(None) => OldMmlStep::Done,
                Ok(Some((env, vols, e))) => OldMmlStep::Next(OldMmlState {
                    pos: e,
                    vol_env: VolEnv::Envelope(env),
                    envelopes: if vols.len() > 0 { st.envelopes.update(env as int, vols) } else { st.envelopes },
                    ..st
                }),
            }
        } else if note_step(c) is Some {
            let (acc, p1) = scan_accidental(s, q + 1);
            match scan_length(s, p1, st.length) {
                Err(e) => OldMmlStep::Fail(e),
                Ok((len, e)) => {
                    let note = (note_step(c)->0 + acc + st.octave * 12) as i8;
                    let ni = st.note_info;
                    if !note_fits(ni) || (ni.is_tied && ni.note == note && ni.length + ni.env_start > u32::MAX) {
                        OldMmlStep::Fail(OldMmlError::Overflow)
                    } else {
                    OldMmlStep::Next(OldMmlState {
                        pos: e,
                        sound: add_note(st.sound, ni),
                        note_info: NoteInfo {
                            length: len,
                            quantize: st.quantize,
                            tone: st.tone,
                            env_start: if ni.is_tied && ni.note == note { (ni.length + ni.env_start) as u32 } else { 0 },
                            env_data: env_data_of(st),
                            vibrato: false,
                            note,
                            is_tied: false,
                        },
                        ..st
                    })
                    }
                },
            }
        } else if c == 'r' {
            match scan_length(s, q + 1, st.length) {
                Err(e) => OldMmlStep::Fail(e),
                Ok((len, e)) => if !note_fits(st.note_info) {
                    OldMmlStep::Fail(OldMmlError::Overflow)
                } else {
                    OldMmlStep::Next(OldMmlState {
                    pos: e,
                    sound: add_note(st.sound, st.note_info),
                    note_info: NoteInfo {
                        length: len,
                        quantize: st.quantize,
                        tone: st.tone,
                        env_start: 0,
                        env_data: seq![0u8],
                        vibrato: false,
                        note: -1i8,
                        is_tied: false,
                    },
                    ..st
                })
                },
            }
        } else if c == '~' {
            OldMmlStep::Next(OldMmlState { pos: q + 1, note_info: NoteInfo { vibrato: true, ..st.note_info }, ..st })
        } else if c == '&' {
            OldMmlStep::Next(OldMmlState { pos: q + 1, note_info: NoteInfo { quantize: 8, is_tied: true, ..st.note_info }, ..st })
        } else {
            OldMmlStep::Fail(OldMmlError::InvalidCommand { found: s[q] })
        }
    }
}

/// Reads commands from `st` on; the last note is added at the end.
pub open spec fn old_mml_run(s: Seq<char>, st: OldMmlState) -> Result<SoundDataView, OldMmlError>
    decreases s.len() - st.pos,
{
    match old_mml_step(s, st) {
        OldMmlStep::Fail(e) => Err(e),
        OldMmlStep::Done => if note_fits(st.note_info) {
            Ok(add_note(st.sound, st.note_info))
        } else {
            Err(OldMmlError::Overflow)
        },
        OldMmlStep::Next(next) => if next.pos <= st.pos || next.pos > s.len() {
            Err(OldMmlError::Overflow)
        } else {
            old_mml_run(s, next)
        },
    }
}

/// The reader state before the first command: length 4 (eighth notes), quantize 7,
/// octave 2, tone 0, volume 7, every envelope a steady 7, speed 9.
pub open spec fn old_mml_start() -> OldMmlState {
    OldMmlState {
        pos: 0,
        length: 4,
        quantize: 7,
        octave: 2,
        tone: 0,
        vol_env: VolEnv::Constant(7),
        envelopes: Seq::new(8, |i: int| seq![7u8]),
        note_info: NoteInfo {
            length: 0,
            quantize: 0,
            tone: 0,
            env_start: 0,
            env_data: Seq::empty(),
            vibrato: false,
            note: 0,
            is_tied: false,
        },
        sound: SoundDataView { notes: Seq::empty(), tones: Seq::empty(), volumes: Seq::empty(), effects: Seq::empty(), speed: 9 },
    }
}

/// The sound that old-style MML describes, or why it is refused.
pub open spec fn old_mml_sound(s: Seq<char>) -> Result<SoundDataView, OldMmlError> {
    old_mml_run(s, old_mml_start())
}

fn matches_lower(c: char, t: char) -> (r: bool)
    ensures
        r == (lower(c) == t),
{
    if 'A' <= c && c <= 'Z' {
        let v = c as u32 + 32;
        assert(((c as int) + 32) as char as int == c as int + 32);
        v == t as u32
    } else {
        c == t
    }
}

proof fn lemma_digits_end(s: Seq<char>, p: int)
    requires
        0 <= p <= s.len(),
    ensures
        p <= digits_end(s, p) <= s.len(),
        forall|i: int| p <= i < digits_end(s, p) ==> '0' <= #[trigger] s[i] <= '9',
    decreases s.len() - p,
{
    if p < s.len() && '0' <= s[p] && s[p] <= '9' {
        lemma_digits_end(s, p + 1);
    }
}

proof fn lemma_decimal_nonneg_mml(d: Seq<char>)
    requires
        forall|m: int| 0 <= m < d.len() ==> '0' <= #[trigger] d[m] <= '9',
    ensures
        decimal_value(d) >= 0,
    decreases d.len(),
{
    if d.len() > 0 {
        assert forall|m: int| 0 <= m < d.drop_last().len() implies '0' <= #[trigger] d.drop_last()[m] <= '9' by {
            assert(d.drop_last()[m] == d[m]);
        }
        lemma_decimal_nonneg_mml(d.drop_last());
    }
}

/// A number after white space (see `scan_number`).
fn number_at(s: &Vec<char>, p: usize) -> (r: (Option<u32>, usize))
    requires
        p <= s@.len(),
    ensures
        (r.0, r.1 as int) == scan_number(s@, p as int),
        p <= r.1 <= s@.len(),
{
    let q = next_ws_at(s, p, false);
    let mut i = q;
    let mut value: u64 = 0;
    let mut too_big = false;
    proof {
        lemma_digits_end(s@, q as int);
    }
    while i < s.len() && '0' <= s[i] && s[i] <= '9'
        invariant
            q <= i <= s@.len(),
            digits_end(s@, q as int) == digits_end(s@, i as int),
            forall|m: int| q <= m < i ==> '0' <= #[trigger] s@[m] <= '9',
            !too_big ==> value == decimal_value(s@.subrange(q as int, i as int)) && value <= u32::MAX,
            too_big ==> decimal_value(s@.subrange(q as int, i as int)) > u32::MAX,
        decreases s@.len() - i,
    {
        let c = s[i];
        proof {
            let d = s@.subrange(q as int, i + 1);
            assert(d.drop_last() =~= s@.subrange(q as int, i as int));
            assert(d.last() == c);
            assert forall|m: int| 0 <= m < d.drop_last().len() implies '0' <= #[trigger] d.drop_last()[m] <= '9' by {
                assert(d.drop_last()[m] == s@[q + m]);
            }
            lemma_decimal_nonneg_mml(d.drop_last());
        }
        if !too_big {
            let next = value * 10 + (c as u64 - '0' as u64);
            if next > u32::MAX as u64 {
                too_big = true;
            } else {
                value = next;
            }
        }
        i = i + 1;
    }
    if i == q {
        (None, q)
    } else if too_big {
        (None, i)
    } else {
        (Some(value as u32), i)
    }
}

/// Whether `t` follows white space (see `scan_char`).
fn char_at(s: &Vec<char>, p: usize, t: char) -> (r: (bool, usize))
    requires
        p <= s@.len(),
    ensures
        (r.0, r.1 as int) == scan_char(s@, p as int, t),
        p <= r.1 <= s@.len(),
        r.0 ==> r.1 > p,
{
    let q = next_ws_at(s, p, false);
    if q < s.len() && matches_lower(s[q], t) {
        (true, q + 1)
    } else {
        (false, q)
    }
}

/// Dots after a length (see `scan_dots`).
fn dots_at(s: &Vec<char>, p: usize, length: u32, added: u32) -> (r: Result<(u32, usize), OldMmlError>)
    requires
        p <= s@.len(),
    ensures
        match scan_dots(s@, p as int, length, added) {
            Ok((l, e)) => r matches Ok((l2, e2)) && l2 == l && e2 == e && p <= e2 <= s@.len(),
            Err(e) => r == Err::<(u32, usize), OldMmlError>(e),
        },
    decreases s@.len() - p,
{
    let (dot, q) = char_at(s, p, '.');
    if !dot {
        return Ok((length, q));
    }
    if added >= 2 {
        if length as u64 + (added / 2) as u64 > u32::MAX as u64 {
            return Err(OldMmlError::Overflow);
        }
        dots_at(s, q, length + added / 2, added / 2)
    } else {
        Err(OldMmlError::DotTooShort)
    }
}

/// A note length (see `scan_length`).
fn length_at(s: &Vec<char>, p: usize, cur: u32) -> (r: Result<(u32, usize), OldMmlError>)
    requires
        p <= s@.len(),
    ensures
        match scan_length(s@, p as int, cur) {
            Ok((l, e)) => r matches Ok((l2, e2)) && l2 == l && e2 == e && p <= e2 <= s@.len(),
            Err(e) => r == Err::<(u32, usize), OldMmlError>(e),
        },
{
    let (n, q) = number_at(s, p);
    match n {
        Some(t) => {
            if 1 <= t && t <= 32 && 32 % t == 0 {
                dots_at(s, q, 32 / t, 32 / t)
            } else {
                Err(OldMmlError::InvalidNoteLength { length: t })
            }
        },
        None => dots_at(s, q, cur, cur),
    }
}

/// A number command (see `scan_command`).
fn command_at(s: &Vec<char>, p: usize, t: char) -> (r: Result<Option<(u32, usize)>, OldMmlError>)
    requires
        p <= s@.len(),
    ensures
        match scan_command(s@, p as int, t) {
            Ok(Some((v, e))) => r matches Ok(Some((v2, e2))) && v2 == v && e2 == e && p < e2 <= s@.len(),
            Ok(None) => r matches Ok(None),
            Err(e) => r == Err::<Option<(u32, usize)>, OldMmlError>(e),
        },
{
    let (found, q) = char_at(s, p, t);
    if !found {
        return Ok(None);
    }
    match number_at(s, q) {
        (Some(v), e) => Ok(Some((v, e))),
        (None, _) => Err(OldMmlError::MissingValue { target: t }),
    }
}

/// Envelope volumes (see `scan_volumes`).
fn volumes_at(s: &Vec<char>, p: usize, acc: Vec<u8>) -> (r: Result<(Vec<u8>, usize), OldMmlError>)
    requires
        p <= s@.len(),
    ensures
        match scan_volumes(s@, p as int, acc@) {
            Ok((v, e)) => r matches Ok((v2, e2)) && v2@ == v && e2 == e && p <= e2 <= s@.len(),
            Err(e) => r matches Err(e2) && e2 == e,
        },
    decreases s@.len() - p,
{
    if p < s.len() && '0' <= s[p] && s[p] <= '9' {
        let v = s[p] as u32 - '0' as u32;
        if v > 7 {
            return Err(OldMmlError::InvalidEnvelopeVolume { volume: v });
        }
        let mut acc = acc;
        acc.push(v as u8);
        let q = next_ws_at(s, p + 1, false);
        volumes_at(s, q, acc)
    } else {
        Ok((acc, p))
    }
}

/// An envelope command (see `scan_envelope`).
fn envelope_at(s: &Vec<char>, p: usize) -> (r: Result<Option<(u32, Vec<u8>, usize)>, OldMmlError>)
    requires
        p <= s@.len(),
    ensures
        match scan_envelope(s@, p as int) {
            Ok(Some((env, vols, e))) => r matches Ok(Some((env2, vols2, e2))) && env2 == env && vols2@ == vols
                && e2 == e && p < e2 <= s@.len(),
            Ok(None) => r matches Ok(None),
            Err(e) => r matches Err(e2) && e2 == e,
        },
{
    match command_at(s, p, 'x') {
        Err(e) => Err(e),
        Ok(None) => Ok(None),
        Ok(Some((env, e))) => {
            if env > 7 {
                return Err(OldMmlError::InvalidEnvelope { value: env });
            }
            let (colon, q) = char_at(s, e, ':');
            if !colon {
                return Ok(Some((env, Vec::new(), q)));
            }
            let q2 = next_ws_at(s, q, false);
            match volumes_at(s, q2, Vec::new()) {
                Err(err) => Err(err),
                Ok((vols, r)) => {
                    if vols.len() == 0 {
                        Err(OldMmlError::MissingEnvelopeVolumes)
                    } else {
                        Ok(Some((env, vols, r)))
                    }
                },
            }
        },
    }
}

/// An accidental after a note letter (see `scan_accidental`).
fn accidental_at(s: &Vec<char>, p: usize) -> (r: (i8, usize))
    requires
        p <= s@.len(),
    ensures
        (r.0 as int, r.1 as int) == scan_accidental(s@, p as int),
        p <= r.1 <= s@.len(),
{
    let (sharp, q1) = char_at(s, p, '#');
    if sharp {
        return (1, q1);
    }
    let (plus, q2) = char_at(s, q1, '+');
    if plus {
        return (1, q2);
    }
    let (minus, q3) = char_at(s, q2, '-');
    if minus { (-1, q3) } else { (0, q3) }
}

/// `v` followed by `n` copies of `x`.
fn push_copies<T: Copy>(v: &mut Vec<T>, x: T, n: u32)
    ensures
        final(v)@ == old(v)@ + copies(x, n as int),
{
    let mut i: u32 = 0;
    while i < n
        invariant
            i <= n,
            v@ == old(v)@ + copies(x, i as int),
        decreases n - i,
    {
        v.push(x);
        i = i + 1;
        assert(v@ =~= old(v)@ + copies(x, i as int));
    }
}

/// The note being built, as the reader holds it.
struct PendingNote {
    length: u32,
    quantize: u32,
    tone: u16,
    env_start: u32,
    env_data: Vec<u8>,
    vibrato: bool,
    note: i8,
    is_tied: bool,
}

impl View for PendingNote {
    type V = NoteInfo;

    closed spec fn view(&self) -> NoteInfo {
        NoteInfo {
            length: self.length,
            quantize: self.quantize,
            tone: self.tone,
            env_start: self.env_start,
            env_data: self.env_data@,
            vibrato: self.vibrato,
            note: self.note,
            is_tied: self.is_tied,
        }
    }
}

/// Appends a note's steps to the sound (see `add_note`).
fn add_note_exec(sound: &mut SoundData, ni: &PendingNote)
    requires
        note_fits(ni@),
        ni@.length > 0 ==> ni@.env_data.len() > 0 && ni@.quantize <= 8,
    ensures
        final(sound)@ == add_note(old(sound)@, ni@),
{
    if ni.length == 0 {
        return;
    }
    let len = ni.length;
    push_copies(&mut sound.tones, ni.tone, len);
    let ghost vols0 = sound.volumes@;
    let ghost mid = sound@;
    let last = ni.env_data.len() - 1;
    let mut i: u32 = 0;
    while i < len
        invariant
            i <= len == ni@.length,
            ni@.env_data.len() > 0,
            last == ni@.env_data.len() - 1,
            ni@.env_start + ni@.length - 1 <= u32::MAX,
            sound@ == (SoundDataView { volumes: sound@.volumes, ..mid }),
            sound.volumes@ == vols0 + Seq::new(i as nat, |k: int|
                ni@.env_data[if ni@.env_start + k < ni@.env_data.len() - 1 { ni@.env_start + k } else { ni@.env_data.len() - 1 }]),
        decreases len - i,
    {
        let at = ni.env_start as u64 + i as u64;
        let index = if at < last as u64 { at as usize } else { last };
        sound.volumes.push(ni.env_data[index]);
        i = i + 1;
        assert(sound.volumes@ =~= vols0 + Seq::new(i as nat, |k: int|
            ni@.env_data[if ni@.env_start + k < ni@.env_data.len() - 1 { ni@.env_start + k } else { ni@.env_data.len() - 1 }]));
    }
    if ni.note == -1 {
        push_copies(&mut sound.notes, -1i8, len);
        push_copies(&mut sound.effects, EFFECT_NONE, len);
        assert(sound@ =~= add_note(old(sound)@, ni@));
        return;
    }
    let duration = len * ni.quantize;
    let num = duration / 8;
    let effect = if ni.vibrato { EFFECT_VIBRATO } else { EFFECT_NONE };
    push_copies(&mut sound.notes, ni.note, num);
    push_copies(&mut sound.effects, effect, num);
    if num == len {
        assert(sound@ =~= add_note(old(sound)@, ni@));
        return;
    }
    sound.notes.push(ni.note);
    let fade = if num > 0 {
        EFFECT_FADEOUT
    } else if duration >= 6 {
        EFFECT_QUARTER_FADEOUT
    } else if duration >= 4 {
        EFFECT_HALF_FADEOUT
    } else {
        EFFECT_FADEOUT
    };
    sound.effects.push(fade);
    assert(num <= len) by (nonlinear_arith)
        requires num == duration / 8, duration == len * ni@.quantize, ni@.quantize <= 8;
    let rests = len - num - 1;
    push_copies(&mut sound.notes, -1i8, rests);
    push_copies(&mut sound.effects, EFFECT_NONE, rests);
}

/// The reader's state.
struct Reader {
    pos: usize,
    length: u32,
    quantize: u32,
    octave: i8,
    tone: u16,
    vol_env: VolEnv,
    envelopes: Vec<Vec<u8>>,
    note_info: PendingNote,
    sound: SoundData,
}

impl View for Reader {
    type V = OldMmlState;

    closed spec fn view(&self) -> OldMmlState {
        OldMmlState {
            pos: self.pos as int,
            length: self.length,
            quantize: self.quantize,
            octave: self.octave,
            tone: self.tone,
            vol_env: self.vol_env,
            envelopes: self.envelopes@.map_values(|v: Vec<u8>| v@),
            note_info: self.note_info@,
            sound: self.sound@,
        }
    }
}

impl Reader {
    closed spec fn ok(&self, n: int) -> bool {
        &&& self.pos <= n
        &&& self.envelopes@.len() == 8
        &&& forall|i: int| 0 <= i < 8 ==> (#[trigger] self.envelopes@[i])@.len() > 0
        &&& (self.vol_env matches VolEnv::Envelope(e) ==> e < 8)
        &&& 1 <= self.quantize <= 8
        &&& 0 <= self.octave <= 4
        &&& self.note_info@.length > 0 ==> self.note_info@.env_data.len() > 0 && self.note_info@.quantize <= 8
    }
}

/// The outcome of one command for the loop.
enum Stepped {
    Continue,
    Done,
    Fail(OldMmlError),
}

/// The step of a note letter in either case (see `note_step`).
fn note_letter(c: char) -> (r: Option<i8>)
    ensures
        r == note_step(lower(c)),
{
    if matches_lower(c, 'c') { Some(0) } else if matches_lower(c, 'd') { Some(2) } else if matches_lower(c, 'e') { Some(4) }
    else if matches_lower(c, 'f') { Some(5) } else if matches_lower(c, 'g') { Some(7) } else if matches_lower(c, 'a') { Some(9) }
    else if matches_lower(c, 'b') { Some(11) } else { None }
}

/// Whether a note's step counts fit 32 bits (see `note_fits`).
fn fits(ni: &PendingNote) -> (r: bool)
    ensures
        r == note_fits(ni@),
{
    if ni.length == 0 {
        return true;
    }
    assert(ni.length as u64 * ni.quantize as u64 <= u32::MAX as u64 * u32::MAX as u64) by (nonlinear_arith)
        requires ni.length <= u32::MAX, ni.quantize <= u32::MAX;
    ni.env_start as u64 + ni.length as u64 - 1 <= u32::MAX as u64
        && (ni.note == -1 || ni.length as u64 * ni.quantize as u64 <= u32::MAX as u64)
}

/// What one command does to the reader (see `old_mml_step`).
spec fn stepped_as(s: Seq<char>, before: OldMmlState, out: Stepped, after: Reader) -> bool {
    match old_mml_step(s, before) {
        OldMmlStep::Next(next) => out is Continue && after@ == next && after.ok(s.len() as int) && before.pos < next.pos,
        OldMmlStep::Done => out is Done && after@ == before,
        OldMmlStep::Fail(e) => out == Stepped::Fail(e),
    }
}

/// `t<n>`: the speed.
fn read_tempo(s: &Vec<char>, r: &mut Reader, q: usize) -> (out: Stepped)
    requires
        old(r).ok(s@.len() as int),
        q == next_ws(s@, old(r).pos as int, false),
        q < s.len(),
        lower(s@[q as int]) == 't',
    ensures
        stepped_as(s@, old(r)@, out, *final(r)),
{
    proof {
        reveal(old_mml_step);
        lemma_next_ws(s@, old(r).pos as int, false);
    }
    match command_at(s, q, 't') {
        Err(e) => Stepped::Fail(e),
        Ok(None) => Stepped::Done,
        Ok(Some((v, e))) => {
            if v == 0 {
                return Stepped::Fail(OldMmlError::ZeroTempo);
            }
            let speed = 900 / v;
            r.sound.speed = if speed >= 1 { speed } else { 1 };
            r.pos = e;
            assert(r@ == (OldMmlState { pos: e as int, sound: SoundDataView { speed: r.sound.speed, ..old(r)@.sound }, ..old(r)@ }));
            Stepped::Continue
        },
    }
}

/// `l<n>`: the default length.
fn read_length(s: &Vec<char>, r: &mut Reader, q: usize) -> (out: Stepped)
    requires
        old(r).ok(s@.len() as int),
        q == next_ws(s@, old(r).pos as int, false),
        q < s.len(),
        lower(s@[q as int]) == 'l',
    ensures
        stepped_as(s@, old(r)@, out, *final(r)),
{
    proof {
        reveal(old_mml_step);
        lemma_next_ws(s@, old(r).pos as int, false);
    }
    match length_at(s, q + 1, r.length) {
        Err(e) => Stepped::Fail(e),
        Ok((len, e)) => {
            r.length = len;
            r.pos = e;
            Stepped::Continue
        },
    }
}

/// `@<n>`, `o<n>`, `q<n>`, `v<n>`: tone, octave, quantize, volume.
fn read_param(s: &Vec<char>, r: &mut Reader, q: usize, t: char) -> (out: Stepped)
    requires
        old(r).ok(s@.len() as int),
        q == next_ws(s@, old(r).pos as int, false),
        q < s.len(),
        lower(s@[q as int]) == t,
        t == '@' || t == 'o' || t == 'q' || t == 'v',
    ensures
        stepped_as(s@, old(r)@, out, *final(r)),
{
    proof {
        reveal(old_mml_step);
        lemma_next_ws(s@, old(r).pos as int, false);
    }
    match command_at(s, q, t) {
        Err(e) => Stepped::Fail(e),
        Ok(None) => Stepped::Done,
        Ok(Some((v, e))) => {
            if t == '@' {
                if v > 3 {
                    return Stepped::Fail(OldMmlError::InvalidTone { value: v });
                }
                r.tone = v as u16;
            } else if t == 'o' {
                if v > 4 {
                    return Stepped::Fail(OldMmlError::InvalidOctave { value: v });
                }
                r.octave = v as i8;
            } else if t == 'q' {
                if v < 1 || v > 8 {
                    return Stepped::Fail(OldMmlError::InvalidQuantize { value: v });
                }
                r.quantize = v;
            } else {
                if v > 7 {
                    return Stepped::Fail(OldMmlError::InvalidVolume { value: v });
                }
                r.vol_env = VolEnv::Constant(v as u8);
            }
            r.pos = e;
            Stepped::Continue
        },
    }
}

/// `>` and `<`: one octave up or down.
fn read_shift(s: &Vec<char>, r: &mut Reader, q: usize, up: bool) -> (out: Stepped)
    requires
        old(r).ok(s@.len() as int),
        q == next_ws(s@, old(r).pos as int, false),
        q < s.len(),
        lower(s@[q as int]) == (if up { '>' } else { '<' }),
    ensures
        stepped_as(s@, old(r)@, out, *final(r)),
{
    proof {
        reveal(old_mml_step);
        lemma_next_ws(s@, old(r).pos as int, false);
    }
    if up {
        if r.octave >= 4 {
            return Stepped::Fail(OldMmlError::OctaveAboveMaximum);
        }
        r.octave = r.octave + 1;
    } else {
        if r.octave <= 0 {
            return Stepped::Fail(OldMmlError::OctaveBelowMinimum);
        }
        r.octave = r.octave - 1;
    }
    r.pos = q + 1;
    Stepped::Continue
}

/// `x<n>[:volumes]`: an envelope.
fn read_envelope(s: &Vec<char>, r: &mut Reader, q: usize) -> (out: Stepped)
    requires
        old(r).ok(s@.len() as int),
        q == next_ws(s@, old(r).pos as int, false),
        q < s.len(),
        lower(s@[q as int]) == 'x',
    ensures
        stepped_as(s@, old(r)@, out, *final(r)),
{
    proof {
        reveal(old_mml_step);
        lemma_next_ws(s@, old(r).pos as int, false);
    }
    match envelope_at(s, q) {
        Err(e) => Stepped::Fail(e),
        Ok(None) => Stepped::Done,
        Ok(Some((env, vols, e))) => {
            r.vol_env = VolEnv::Envelope(env);
            if vols.len() > 0 {
                let ghost before = r.envelopes@;
                r.envelopes.set(env as usize, vols);
                assert(r.envelopes@.map_values(|v: Vec<u8>| v@) =~= before.map_values(|v: Vec<u8>| v@).update(env as int, vols@));
            }
            r.pos = e;
            Stepped::Continue
        },
    }
}

/// A note letter: the pending note is emitted and the new one begins.
#[verifier::rlimit(40)]
fn read_note(s: &Vec<char>, r: &mut Reader, q: usize, base: i8) -> (out: Stepped)
    requires
        old(r).ok(s@.len() as int),
        q == next_ws(s@, old(r).pos as int, false),
        q < s.len(),
        note_step(lower(s@[q as int])) == Some(base),
    ensures
        stepped_as(s@, old(r)@, out, *final(r)),
{
    proof {
        reveal(old_mml_step);
        lemma_next_ws(s@, old(r).pos as int, false);
    }
    let (acc, p1) = accidental_at(s, q + 1);
    match length_at(s, p1, r.length) {
        Err(e) => Stepped::Fail(e),
        Ok((len, e)) => {
            let note = base + acc + r.octave * 12;
            if !fits(&r.note_info) || (r.note_info.is_tied && r.note_info.note == note
                && r.note_info.length as u64 + r.note_info.env_start as u64 > u32::MAX as u64) {
                return Stepped::Fail(OldMmlError::Overflow);
            }
            add_note_exec(&mut r.sound, &r.note_info);
            let env_start = if r.note_info.is_tied && r.note_info.note == note {
                r.note_info.length + r.note_info.env_start
            } else {
                0
            };
            let env_data = match r.vol_env {
                VolEnv::Constant(v) => {
                    let d = vec![v];
                    assert(d@ =~= seq![v]);
                    d
                },
                VolEnv::Envelope(k) => {
                    let d = r.envelopes[k as usize].clone();
                    assert(d@ == r.envelopes@[k as int]@);
                    d
                },
            };
            assert(env_data@ == env_data_of(old(r)@));
            r.note_info = PendingNote {
                length: len,
                quantize: r.quantize,
                tone: r.tone,
                env_start,
                env_data,
                vibrato: false,
                note,
                is_tied: false,
            };
            r.pos = e;
            Stepped::Continue
        },
    }
}

/// `r`: the pending note is emitted and a rest begins.
fn read_rest(s: &Vec<char>, r: &mut Reader, q: usize) -> (out: Stepped)
    requires
        old(r).ok(s@.len() as int),
        q == next_ws(s@, old(r).pos as int, false),
        q < s.len(),
        lower(s@[q as int]) == 'r',
    ensures
        stepped_as(s@, old(r)@, out, *final(r)),
{
    proof {
        reveal(old_mml_step);
        lemma_next_ws(s@, old(r).pos as int, false);
    }
    match length_at(s, q + 1, r.length) {
        Err(e) => Stepped::Fail(e),
        Ok((len, e)) => {
            if !fits(&r.note_info) {
                return Stepped::Fail(OldMmlError::Overflow);
            }
            add_note_exec(&mut r.sound, &r.note_info);
            r.note_info = PendingNote {
                length: len,
                quantize: r.quantize,
                tone: r.tone,
                env_start: 0,
                env_data: vec![0],
                vibrato: false,
                note: -1,
                is_tied: false,
            };
            assert(r.note_info@.env_data =~= seq![0u8]);
            r.pos = e;
            Stepped::Continue
        },
    }
}

/// Reads one command (see `old_mml_step`).
fn read_command(s: &Vec<char>, r: &mut Reader) -> (out: Stepped)
    requires
        old(r).ok(s@.len() as int),
    ensures
        stepped_as(s@, old(r)@, out, *final(r)),
{
    let q = next_ws_at(s, r.pos, false);
    proof {
        lemma_next_ws(s@, r.pos as int, false);
    }
    if q >= s.len() {
        proof {
            reveal(old_mml_step);
        }
        return Stepped::Done;
    }
    let c = s[q];
    if matches_lower(c, 't') {
        read_tempo(s, r, q)
    } else if matches_lower(c, 'l') {
        read_length(s, r, q)
    } else if matches_lower(c, '@') {
        read_param(s, r, q, '@')
    } else if matches_lower(c, 'o') {
        read_param(s, r, q, 'o')
    } else if matches_lower(c, 'q') {
        read_param(s, r, q, 'q')
    } else if matches_lower(c, 'v') {
        read_param(s, r, q, 'v')
    } else if matches_lower(c, '>') {
        read_shift(s, r, q, true)
    } else if matches_lower(c, '<') {
        read_shift(s, r, q, false)
    } else if matches_lower(c, 'x') {
        read_envelope(s, r, q)
    } else if let Some(base) = note_letter(c) {
        read_note(s, r, q, base)
    } else if matches_lower(c, 'r') {
        read_rest(s, r, q)
    } else if matches_lower(c, '~') {
        proof {
            reveal(old_mml_step);
        }
        r.note_info.vibrato = true;
        r.pos = q + 1;
        Stepped::Continue
    } else if matches_lower(c, '&') {
        proof {
            reveal(old_mml_step);
        }
        r.note_info.quantize = 8;
        r.note_info.is_tied = true;
        r.pos = q + 1;
        Stepped::Continue
    } else {
        proof {
            reveal(old_mml_step);
        }
        Stepped::Fail(OldMmlError::InvalidCommand { found: c })
    }
}

/// Reads old-style MML into the steps of a sound: notes, tones, volumes and effects, one
/// entry per step, and the speed. `Overflow` marks input whose step counts pass 32 bits.
pub fn try_parse_old_mml(mml: &str) -> (r: Result<SoundData, OldMmlError>)
    ensures
        match old_mml_sound(mml@) {
            Ok(v) => r matches Ok(sound) && sound@ == v,
            Err(e) => r matches Err(e2) && e2 == e,
        },
{
    let s = chars_of(mml);
    let mut envelopes: Vec<Vec<u8>> = Vec::new();
    let mut k: usize = 0;
    while k < 8
        invariant
            k <= 8,
            envelopes@.len() == k,
            forall|i: int| 0 <= i < k ==> (#[trigger] envelopes@[i])@ == seq![7u8],
        decreases 8 - k,
    {
        let e = vec![7u8];
        assert(e@ =~= seq![7u8]);
        envelopes.push(e);
        k = k + 1;
    }
    let mut r = Reader {
        pos: 0,
        length: 4,
        quantize: 7,
        octave: 2,
        tone: 0,
        vol_env: VolEnv::Constant(7),
        envelopes,
        note_info: PendingNote {
            length: 0,
            quantize: 0,
            tone: 0,
            env_start: 0,
            env_data: Vec::new(),
            vibrato: false,
            note: 0,
            is_tied: false,
        },
        sound: SoundData { notes: Vec::new(), tones: Vec::new(), volumes: Vec::new(), effects: Vec::new(), speed: 9 },
    };
    assert(r@.envelopes =~= Seq::new(8, |i: int| seq![7u8]));
    assert(r@ =~= old_mml_start()) by {
        assert(r@.note_info.env_data =~= Seq::<u8>::empty());
        assert(r@.sound =~= old_mml_start().sound);
    }
    loop
        invariant
            s@ == mml@,
            r.ok(s@.len() as int),
            old_mml_sound(mml@) == old_mml_run(s@, r@),
        decreases s@.len() - r.pos,
    {
        let ghost before = r@;
        match read_command(&s, &mut r) {
            Stepped::Fail(e) => {
                return Err(e);
            },
            Stepped::Done => {
                if !fits(&r.note_info) {
                    return Err(OldMmlError::Overflow);
                }
                add_note_exec(&mut r.sound, &r.note_info);
                return Ok(r.sound);
            },
            Stepped::Continue => {},
        }
    }
}

/// `try_parse_old_mml` on input whose step counts fit 32 bits.
pub fn parse_old_mml(mml: &str) -> (r: Result<SoundData, OldMmlError>)
    requires
        old_mml_sound(mml@) != Err::<SoundDataView, OldMmlError>(OldMmlError::Overflow),
    ensures
        match old_mml_sound(mml@) {
            Ok(v) => r matches Ok(sound) && sound@ == v,
            Err(e) => r matches Err(e2) && e2 == e,
        },
{
    try_parse_old_mml(mml)
}

/// The note letters, in either case, are the degrees of a major scale from `c`: the
/// letter `d` places above `c` (counting on from `g` to `a` and `b`) gives `2 * d`
/// semitones, one fewer from `f` on; no other character is a note.
pub proof fn lemma_note_letters_form_major_scale(c: char)
    ensures
        note_step(lower(c)) is Some <==> ('a' <= lower(c) && lower(c) <= 'g'),
        'a' <= lower(c) && lower(c) <= 'g' ==> {
            let degree = ((lower(c) as int) - ('c' as int)) % 7;
            note_step(lower(c)) == Some((2 * degree - if degree >= 3 { 1int } else { 0int }) as i8)
        },
{
    let l = lower(c) as int;
    if 'a' <= lower(c) && lower(c) <= 'g' {
        assert(97 <= l <= 103);
        if l == 97 { assert((l - 99) % 7 == 5); }
        else if l == 98 { assert((l - 99) % 7 == 6); }
        else if l == 99 { assert((l - 99) % 7 == 0); }
        else if l == 100 { assert((l - 99) % 7 == 1); }
        else if l == 101 { assert((l - 99) % 7 == 2); }
        else if l == 102 { assert((l - 99) % 7 == 3); }
        else { assert((l - 99) % 7 == 4); }
    }
}

} // verus!
