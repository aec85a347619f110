use vstd::prelude::*;
use vstd::string::StringSliceAdditionalSpecFns;

verus! {

/// Ticks in a quarter note.
pub const TICKS_PER_QUARTER_NOTE: u32 = 48;

/// Ticks in a whole note.
pub const WHOLE_NOTE_TICKS: u32 = 192;

/// Clock rate of the sound generator, in clocks per second.
pub const AUDIO_CLOCK_RATE: u32 = 1_789_773;

/// Bytes that `char::is_whitespace` accepts when a byte is read as a `char`.
pub open spec fn is_ws(b: u8) -> bool {
    b == 32 || (9 <= b && b <= 13) || b == 0x85 || b == 0xa0
}

pub open spec fn is_digit(b: u8) -> bool {
    48 <= b && b <= 57
}

/// ASCII lowercase of a byte; other bytes are unchanged.
pub open spec fn lower(b: u8) -> u8 {
    if 65 <= b && b <= 90 {
        (b + 32) as u8
    } else {
        b
    }
}

/// Position of the first non-whitespace byte at or after `p`.
pub open spec fn skip_ws(s: Seq<u8>, p: int) -> int
    decreases s.len() - p,
{
    if 0 <= p && p < s.len() && is_ws(s[p]) {
        skip_ws(s, p + 1)
    } else {
        p
    }
}

pub proof fn lemma_skip_ws(s: Seq<u8>, p: int)
    requires
        0 <= p <= s.len(),
    ensures
        p <= skip_ws(s, p) <= s.len(),
        skip_ws(s, p) < s.len() ==> !is_ws(s[skip_ws(s, p)]),
    decreases s.len() - p,
{
    if p < s.len() && is_ws(s[p]) {
        lemma_skip_ws(s, p + 1);
    }
}

/// Number of bytes of `lit` matched case-insensitively at `q`, starting from the `k`-th.
pub open spec fn lit_matched(s: Seq<u8>, q: int, lit: Seq<u8>, k: int) -> int
    decreases lit.len() - k,
{
    if 0 <= k && k < lit.len() && 0 <= q + k && q + k < s.len() && lower(s[q + k]) == lower(lit[k]) {
        lit_matched(s, q, lit, k + 1)
    } else {
        k
    }
}

pub proof fn lemma_lit_matched(s: Seq<u8>, q: int, lit: Seq<u8>, k: int)
    requires
        0 <= k <= lit.len(),
        0 <= q,
    ensures
        k <= lit_matched(s, q, lit, k) <= lit.len(),
        lit_matched(s, q, lit, k) <= s.len() - q || lit_matched(s, q, lit, k) == k,
    decreases lit.len() - k,
{
    if k < lit.len() && q + k < s.len() && lower(s[q + k]) == lower(lit[k]) {
        lemma_lit_matched(s, q, lit, k + 1);
    }
}

/// Outcome of matching a literal: `Ok(end)` after the literal, or `Err((at, found_len))`
/// where `at` is the position after the skipped whitespace, to which the stream returns,
/// and `found_len` the number of bytes read there before the mismatch was seen.
pub open spec fn scan_literal(s: Seq<u8>, p: int, lit: Seq<u8>) -> Result<int, (int, int)> {
    let q = skip_ws(s, p);
    let k = lit_matched(s, q, lit, 0);
    if k == lit.len() {
        Ok(q + k)
    } else {
        Err((q, if q + k < s.len() { k + 1 } else { k }))
    }
}

/// A read position in the bytes of an MML string.
pub struct CharStream<'a> {
    pub bytes: &'a [u8],
    pub pos: usize,
}

impl<'a> CharStream<'a> {
    pub fn new(input: &'a str) -> (r: Self)
        ensures
            r.bytes@ == input.spec_bytes(),
            r.pos == 0,
    {
        CharStream { bytes: input.as_bytes(), pos: 0 }
    }

    pub fn peek(&self) -> (r: Option<u8>)
        ensures
            r == (if self.pos < self.bytes@.len() { Some(self.bytes@[self.pos as int]) } else { None::<u8> }),
    {
        if self.pos < self.bytes.len() {
            Some(self.bytes[self.pos])
        } else {
            None
        }
    }

    pub fn next(&mut self) -> (r: Option<u8>)
        ensures
            final(self).bytes == old(self).bytes,
            r == (if old(self).pos < old(self).bytes@.len() { Some(old(self).bytes@[old(self).pos as int]) } else { None::<u8> }),
            final(self).pos == (if old(self).pos < old(self).bytes@.len() { old(self).pos + 1 } else { old(self).pos as int }),
    {
        if self.pos < self.bytes.len() {
            let c = self.bytes[self.pos];
            self.pos = self.pos + 1;
            Some(c)
        } else {
            None
        }
    }
}

fn is_ws_byte(b: u8) -> (r: bool)
    ensures
        r == is_ws(b),
{
    b == 32 || (9 <= b && b <= 13) || b == 0x85 || b == 0xa0
}

fn lower_byte(b: u8) -> (r: u8)
    ensures
        r == lower(b),
{
    if 65 <= b && b <= 90 {
        b + 32
    } else {
        b
    }
}

fn skip_whitespace(stream: &mut CharStream)
    requires
        old(stream).pos <= old(stream).bytes@.len(),
        old(stream).bytes@.len() <= usize::MAX,
    ensures
        final(stream).bytes == old(stream).bytes,
        final(stream).pos == skip_ws(old(stream).bytes@, old(stream).pos as int),
{
    let ghost s = stream.bytes@;
    while stream.pos < stream.bytes.len() && is_ws_byte(stream.bytes[stream.pos])
        invariant
            stream.bytes@ == s,
            stream.bytes == old(stream).bytes,
            old(stream).pos <= stream.pos <= s.len(),
            skip_ws(s, stream.pos as int) == skip_ws(s, old(stream).pos as int),
        decreases s.len() - stream.pos,
    {
        stream.pos = stream.pos + 1;
    }
}

/// Matches `lit` case-insensitively after whitespace. On failure the stream stays after the
/// whitespace and the error holds how many bytes were read there.
fn parse_string(stream: &mut CharStream, lit: &[u8]) -> (r: Result<(), usize>)
    requires
        old(stream).pos <= old(stream).bytes@.len(),
        old(stream).bytes@.len() <= usize::MAX,
    ensures
        final(stream).bytes == old(stream).bytes,
        final(stream).pos <= final(stream).bytes@.len(),
        match scan_literal(old(stream).bytes@, old(stream).pos as int, lit@) {
            Ok(end) => r is Ok && final(stream).pos == end,
            Err((at, found)) => r == Err::<(), usize>(found as usize) && final(stream).pos == at,
        },
{
    let ghost s = stream.bytes@;
    skip_whitespace(stream);
    let q = stream.pos;
    proof { lemma_skip_ws(s, old(stream).pos as int); }
    let mut k: usize = 0;
    while k < lit.len()
        invariant
            stream.bytes@ == s,
            stream.bytes == old(stream).bytes,
            q <= s.len(),
            q == skip_ws(s, old(stream).pos as int),
            0 <= k <= lit@.len(),
            q + k <= s.len(),
            stream.pos == q + k,
            lit_matched(s, q as int, lit@, k as int) == lit_matched(s, q as int, lit@, 0),
        decreases lit.len() - k,
    {
        match stream.peek() {
            Some(c) => {
                if lower_byte(c) == lower_byte(lit[k]) {
                    stream.next();
                    k = k + 1;
                } else {
                    stream.pos = q;
                    return Err(k + 1);
                }
            },
            None => {
                stream.pos = q;
                return Err(k);
            },
        }
    }
    Ok(())
}


/// Parameters whose values an MML command reads; the error messages name them.
#[derive(Clone, Copy, PartialEq, Eq, Debug)]
pub enum MmlParam {
    Tempo,
    Quantize,
    Volume,
    Transpose,
    Detune,
    Envelope,
    Vibrato,
    Glide,
    Tone,
    Octave,
    NoteLength,
    Count,
    InitVol,
    DurTicks,
    Vol,
    DelayTicks,
    PeriodTicks,
    DepthCents,
    OffsetCents,
}

/// The effects whose slot 0 means "off".
#[derive(Clone, Copy, PartialEq, Eq, Debug)]
pub enum MmlEffect {
    Envelope,
    Vibrato,
    Glide,
}

/// What went wrong while parsing. Lengths count the input bytes found at the error position.
#[derive(Clone, Copy, PartialEq, Eq, Debug)]
pub enum MmlErrorKind {
    BelowMinimum { param: MmlParam, minimum: i32 },
    ExceedsMaximum { param: MmlParam, maximum: i32 },
    InvalidValue { param: MmlParam },
    ExpectedValue { param: MmlParam, found_len: usize },
    ExpectedLiteral { literal: u8, found_len: usize },
    OctaveAboveMaximum { octave: i32 },
    OctaveBelowMinimum { octave: i32 },
    InvalidNoteLength { length: u32 },
    OddDottedLength,
    ReservedSlot { effect: MmlEffect },
    UnexpectedChar { found: u8 },
}

/// A parse error at a byte position of the MML string.
#[derive(Clone, Copy, PartialEq, Eq, Debug)]
pub struct MmlError {
    pub pos: usize,
    pub kind: MmlErrorKind,
}

pub open spec fn digits_end(s: Seq<u8>, i: int) -> int
    decreases s.len() - i,
{
    if 0 <= i && i < s.len() && is_digit(s[i]) {
        digits_end(s, i + 1)
    } else {
        i
    }
}

/// Decimal value of the digits `s[a..b]`.
pub open spec fn dec_value(s: Seq<u8>, a: int, b: int) -> nat
    decreases b - a,
{
    if b <= a {
        0
    } else {
        dec_value(s, a, b - 1) * 10 + (s[b - 1] - 48) as nat
    }
}

pub proof fn lemma_digits_end(s: Seq<u8>, i: int)
    requires
        0 <= i <= s.len(),
    ensures
        i <= digits_end(s, i) <= s.len(),
        forall|j: int| i <= j < digits_end(s, i) ==> is_digit(#[trigger] s[j]),
        digits_end(s, i) < s.len() ==> !is_digit(s[digits_end(s, i)]),
    decreases s.len() - i,
{
    if i < s.len() && is_digit(s[i]) {
        lemma_digits_end(s, i + 1);
    }
}

/// How a number reads at `p`: absent (the stream returns to `at`, after the whitespace),
/// a value in range ending at `end`, or a range error.
pub enum NumScan {
    Absent { at: int, found_len: int },
    Value { value: int, end: int },
    OutOfRange { err: MmlError },
}

/// `-?[0-9]+` after whitespace, read as an `i32`, then checked against `lo..=hi`.
pub open spec fn scan_number(s: Seq<u8>, p: int, param: MmlParam, lo: i32, hi: i32) -> NumScan {
    let q = skip_ws(s, p);
    let neg = q < s.len() && s[q] == 45;
    let d0 = if neg { q + 1 } else { q };
    let e = digits_end(s, d0);
    let mag = dec_value(s, d0, e);
    if e == q {
        NumScan::Absent { at: q, found_len: if q < s.len() { 1 } else { 0 } }
    } else if e == d0 || (neg && mag > 0x8000_0000) || (!neg && mag > 0x7fff_ffff) {
        NumScan::Absent { at: q, found_len: e - q }
    } else {
        let v = if neg { -mag } else { mag as int };
        if v < lo {
            NumScan::OutOfRange {
                err: MmlError { pos: e as usize, kind: MmlErrorKind::BelowMinimum { param, minimum: lo } },
            }
        } else if v > hi {
            NumScan::OutOfRange {
                err: MmlError { pos: e as usize, kind: MmlErrorKind::ExceedsMaximum { param, maximum: hi } },
            }
        } else {
            NumScan::Value { value: v, end: e }
        }
    }
}

/// Why `parse_number` read no value.
pub enum NumFail {
    Absent { found_len: usize },
    Error { err: MmlError },
}

fn parse_number(stream: &mut CharStream, param: MmlParam, lo: i32, hi: i32) -> (r: Result<i32, NumFail>)
    requires
        old(stream).pos <= old(stream).bytes@.len(),
        old(stream).bytes@.len() <= usize::MAX,
    ensures
        final(stream).bytes == old(stream).bytes,
        final(stream).pos <= final(stream).bytes@.len(),
        match scan_number(old(stream).bytes@, old(stream).pos as int, param, lo, hi) {
            NumScan::Absent { at, found_len } => r matches Err(NumFail::Absent { found_len: f })
                && f == found_len && final(stream).pos == at,
            NumScan::Value { value, end } => r == Ok::<i32, NumFail>(value as i32) && final(stream).pos == end,
            NumScan::OutOfRange { err } => r matches Err(NumFail::Error { err: e }) && e == err
                && final(stream).pos == err.pos,
        },
{
    let ghost s = stream.bytes@;
    skip_whitespace(stream);
    proof { lemma_skip_ws(s, old(stream).pos as int); }
    let q = stream.pos;
    let mut neg = false;
    if stream.peek() == Some(45u8) {
        neg = true;
        stream.next();
    }
    let d0 = stream.pos;
    let mut mag: u64 = 0;
    proof { lemma_digits_end(s, d0 as int); }
    while stream.pos < stream.bytes.len() && 48 <= stream.bytes[stream.pos] && stream.bytes[stream.pos] <= 57
        invariant
            stream.bytes@ == s,
            stream.bytes == old(stream).bytes,
            d0 <= stream.pos <= digits_end(s, d0 as int),
            digits_end(s, d0 as int) <= s.len(),
            forall|j: int| d0 <= j < digits_end(s, d0 as int) ==> is_digit(#[trigger] s[j]),
            digits_end(s, d0 as int) < s.len() ==> !is_digit(s[digits_end(s, d0 as int)]),
            mag <= 0x1_0000_0000,
            mag == (if dec_value(s, d0 as int, stream.pos as int) < 0x1_0000_0000 {
                dec_value(s, d0 as int, stream.pos as int)
            } else {
                0x1_0000_0000
            }),
        decreases s.len() - stream.pos,
    {
        let d = stream.bytes[stream.pos] - 48;
        let ghost prev = dec_value(s, d0 as int, stream.pos as int);
        stream.pos = stream.pos + 1;
        assert(dec_value(s, d0 as int, stream.pos as int) == prev * 10 + d as nat);
        if mag < 0x1_0000_0000 {
            let t = mag * 10 + d as u64;
            if t < 0x1_0000_0000 {
                mag = t;
            } else {
                mag = 0x1_0000_0000;
            }
        } else {
            assert(prev * 10 + d as nat >= 0x1_0000_0000) by (nonlinear_arith)
                requires prev >= 0x1_0000_0000;
        }
    }
    let e = stream.pos;
    if e == q {
        let found_len: usize = if q < stream.bytes.len() { 1 } else { 0 };
        stream.pos = q;
        return Err(NumFail::Absent { found_len });
    }
    if e == d0 || (neg && mag > 0x8000_0000) || (!neg && mag > 0x7fff_ffff) {
        stream.pos = q;
        return Err(NumFail::Absent { found_len: e - q });
    }
    let v: i32 = if neg {
        if mag == 0x8000_0000 {
            i32::MIN
        } else {
            -(mag as i32)
        }
    } else {
        mag as i32
    };
    if v < lo {
        return Err(NumFail::Error { err: MmlError { pos: e, kind: MmlErrorKind::BelowMinimum { param, minimum: lo } } });
    }
    if v > hi {
        return Err(NumFail::Error { err: MmlError { pos: e, kind: MmlErrorKind::ExceedsMaximum { param, maximum: hi } } });
    }
    Ok(v)
}


/// A command of the MML timeline. Values keep the units in which MML writes them:
/// gate time in percent, volume in 0..=127, offsets in semitones or cents.
#[allow(inconsistent_fields)]
#[derive(Clone, Debug)]
pub enum MmlCommand {
    Tempo { clocks_per_tick: u32 },
    Quantize { gate_time: u32 },
    Tone { tone: u16 },
    Volume { volume: u32 },
    Transpose { key_offset: i32 },
    Detune { offset_cents: i32 },
    Envelope { slot: u32 },
    EnvelopeSet { slot: u32, initial_volume: u32, segments: Vec<(u32, u32)> },
    Vibrato { slot: u32 },
    VibratoSet { slot: u32, delay_ticks: u32, period_ticks: u32, depth_cents: i32 },
    Glide { slot: u32 },
    GlideSet { slot: u32, offset_cents: Option<i32>, duration_ticks: Option<u32> },
    Note { midi_note: u32, duration_ticks: u32 },
    Rest { duration_ticks: u32 },
    RepeatStart,
    RepeatEnd { play_count: u32 },
}

/// `MmlCommand` with the envelope segments as a sequence.
#[allow(inconsistent_fields)]
pub enum MmlCommandView {
    Tempo { clocks_per_tick: u32 },
    Quantize { gate_time: u32 },
    Tone { tone: u16 },
    Volume { volume: u32 },
    Transpose { key_offset: i32 },
    Detune { offset_cents: i32 },
    Envelope { slot: u32 },
    EnvelopeSet { slot: u32, initial_volume: u32, segments: Seq<(u32, u32)> },
    Vibrato { slot: u32 },
    VibratoSet { slot: u32, delay_ticks: u32, period_ticks: u32, depth_cents: i32 },
    Glide { slot: u32 },
    GlideSet { slot: u32, offset_cents: Option<i32>, duration_ticks: Option<u32> },
    Note { midi_note: u32, duration_ticks: u32 },
    Rest { duration_ticks: u32 },
    RepeatStart,
    RepeatEnd { play_count: u32 },
}

impl View for MmlCommand {
    type V = MmlCommandView;

    open spec fn view(&self) -> MmlCommandView {
        match self {
            MmlCommand::Tempo { clocks_per_tick } => MmlCommandView::Tempo { clocks_per_tick: *clocks_per_tick },
            MmlCommand::Quantize { gate_time } => MmlCommandView::Quantize { gate_time: *gate_time },
            MmlCommand::Tone { tone } => MmlCommandView::Tone { tone: *tone },
            MmlCommand::Volume { volume } => MmlCommandView::Volume { volume: *volume },
            MmlCommand::Transpose { key_offset } => MmlCommandView::Transpose { key_offset: *key_offset },
            MmlCommand::Detune { offset_cents } => MmlCommandView::Detune { offset_cents: *offset_cents },
            MmlCommand::Envelope { slot } => MmlCommandView::Envelope { slot: *slot },
            MmlCommand::EnvelopeSet { slot, initial_volume, segments } => MmlCommandView::EnvelopeSet {
                slot: *slot,
                initial_volume: *initial_volume,
                segments: segments@,
            },
            MmlCommand::Vibrato { slot } => MmlCommandView::Vibrato { slot: *slot },
            MmlCommand::VibratoSet { slot, delay_ticks, period_ticks, depth_cents } => MmlCommandView::VibratoSet {
                slot: *slot,
                delay_ticks: *delay_ticks,
                period_ticks: *period_ticks,
                depth_cents: *depth_cents,
            },
            MmlCommand::Glide { slot } => MmlCommandView::Glide { slot: *slot },
            MmlCommand::GlideSet { slot, offset_cents, duration_ticks } => MmlCommandView::GlideSet {
                slot: *slot,
                offset_cents: *offset_cents,
                duration_ticks: *duration_ticks,
            },
            MmlCommand::Note { midi_note, duration_ticks } => MmlCommandView::Note {
                midi_note: *midi_note,
                duration_ticks: *duration_ticks,
            },
            MmlCommand::Rest { duration_ticks } => MmlCommandView::Rest { duration_ticks: *duration_ticks },
            MmlCommand::RepeatStart => MmlCommandView::RepeatStart,
            MmlCommand::RepeatEnd { play_count } => MmlCommandView::RepeatEnd { play_count: *play_count },
        }
    }
}

/// The views of a sequence of commands.
pub open spec fn commands_view(v: Seq<MmlCommand>) -> Seq<MmlCommandView> {
    v.map_values(|c: MmlCommand| c@)
}

pub open spec fn single(c: u8) -> Seq<u8> {
    seq![c]
}

/// Outcome of a command letter followed by a mandatory number.
pub enum CmdScan {
    NoMatch { at: int },
    Value { value: int, end: int },
    Fail { err: MmlError },
}

pub open spec fn scan_command(s: Seq<u8>, p: int, lit: Seq<u8>, param: MmlParam, lo: i32, hi: i32) -> CmdScan {
    match scan_literal(s, p, lit) {
        Err((at, _)) => CmdScan::NoMatch { at },
        Ok(e) => scan_expected(s, e, param, lo, hi),
    }
}

/// A number that must be present.
pub open spec fn scan_expected(s: Seq<u8>, p: int, param: MmlParam, lo: i32, hi: i32) -> CmdScan {
    match scan_number(s, p, param, lo, hi) {
        NumScan::Absent { at, found_len } => CmdScan::Fail {
            err: MmlError { pos: at as usize, kind: MmlErrorKind::ExpectedValue { param, found_len: found_len as usize } },
        },
        NumScan::Value { value, end } => CmdScan::Value { value, end },
        NumScan::OutOfRange { err } => CmdScan::Fail { err },
    }
}

/// A one-byte literal that must be present.
pub open spec fn scan_expected_literal(s: Seq<u8>, p: int, c: u8) -> Result<int, MmlError> {
    match scan_literal(s, p, single(c)) {
        Ok(e) => Ok(e),
        Err((at, found)) => Err(MmlError { pos: at as usize, kind: MmlErrorKind::ExpectedLiteral { literal: c, found_len: found as usize } }),
    }
}


pub proof fn lemma_skip_ws_ge(s: Seq<u8>, p: int)
    ensures
        p <= skip_ws(s, p),
        0 <= p <= s.len() ==> skip_ws(s, p) <= s.len(),
    decreases s.len() - p,
{
    if 0 <= p && p < s.len() && is_ws(s[p]) {
        lemma_skip_ws_ge(s, p + 1);
    }
}

pub proof fn lemma_scan_literal(s: Seq<u8>, p: int, lit: Seq<u8>)
    requires
        0 <= p <= s.len(),
    ensures
        match scan_literal(s, p, lit) {
            Ok(e) => p + lit.len() <= e <= s.len(),
            Err((at, found)) => p <= at && at + found <= s.len() && 0 <= found,
        },
{
    lemma_skip_ws(s, p);
    let q = skip_ws(s, p);
    lemma_lit_matched(s, q, lit, 0);
}

pub proof fn lemma_scan_number(s: Seq<u8>, p: int, param: MmlParam, lo: i32, hi: i32)
    requires
        0 <= p <= s.len(),
        s.len() <= usize::MAX,
    ensures
        match scan_number(s, p, param, lo, hi) {
            NumScan::Absent { at, found_len } => p <= at && at + found_len <= s.len() && 0 <= found_len,
            NumScan::Value { value, end } => p < end <= s.len() && lo <= value <= hi,
            NumScan::OutOfRange { err } => p < err.pos <= s.len(),
        },
{
    lemma_skip_ws(s, p);
    let q = skip_ws(s, p);
    let neg = q < s.len() && s[q] == 45;
    let d0 = if neg { q + 1 } else { q };
    lemma_digits_end(s, d0);
}

fn expect_number(stream: &mut CharStream, param: MmlParam, lo: i32, hi: i32) -> (r: Result<i32, MmlError>)
    requires
        old(stream).pos <= old(stream).bytes@.len(),
        old(stream).bytes@.len() <= usize::MAX,
    ensures
        final(stream).bytes == old(stream).bytes,
        final(stream).pos <= final(stream).bytes@.len(),
        match scan_expected(old(stream).bytes@, old(stream).pos as int, param, lo, hi) {
            CmdScan::Value { value, end } => r == Ok::<i32, MmlError>(value as i32) && final(stream).pos == end,
            CmdScan::Fail { err } => r == Err::<i32, MmlError>(err) && final(stream).pos == err.pos,
            CmdScan::NoMatch { .. } => false,
        },
{
    match parse_number(stream, param, lo, hi) {
        Ok(v) => Ok(v),
        Err(NumFail::Absent { found_len }) => Err(
            MmlError { pos: stream.pos, kind: MmlErrorKind::ExpectedValue { param, found_len } },
        ),
        Err(NumFail::Error { err }) => Err(err),
    }
}

fn expect_literal(stream: &mut CharStream, c: u8) -> (r: Result<(), MmlError>)
    requires
        old(stream).pos <= old(stream).bytes@.len(),
        old(stream).bytes@.len() <= usize::MAX,
    ensures
        final(stream).bytes == old(stream).bytes,
        final(stream).pos <= final(stream).bytes@.len(),
        match scan_expected_literal(old(stream).bytes@, old(stream).pos as int, c) {
            Ok(e) => r is Ok && final(stream).pos == e,
            Err(err) => r == Err::<(), MmlError>(err) && final(stream).pos == err.pos,
        },
{
    let lit: [u8; 1] = [c];
    assert(lit@ == single(c));
    match parse_string(stream, lit.as_slice()) {
        Ok(()) => Ok(()),
        Err(found_len) => Err(MmlError { pos: stream.pos, kind: MmlErrorKind::ExpectedLiteral { literal: c, found_len } }),
    }
}

fn parse_char(stream: &mut CharStream, c: u8) -> (r: bool)
    requires
        old(stream).pos <= old(stream).bytes@.len(),
        old(stream).bytes@.len() <= usize::MAX,
    ensures
        final(stream).bytes == old(stream).bytes,
        final(stream).pos <= final(stream).bytes@.len(),
        match scan_literal(old(stream).bytes@, old(stream).pos as int, single(c)) {
            Ok(e) => r && final(stream).pos == e,
            Err((at, _)) => !r && final(stream).pos == at,
        },
{
    let lit: [u8; 1] = [c];
    assert(lit@ == single(c));
    parse_string(stream, lit.as_slice()).is_ok()
}

fn parse_command(stream: &mut CharStream, lit: &[u8], param: MmlParam, lo: i32, hi: i32) -> (r: Result<Option<i32>, MmlError>)
    requires
        old(stream).pos <= old(stream).bytes@.len(),
        old(stream).bytes@.len() <= usize::MAX,
    ensures
        final(stream).bytes == old(stream).bytes,
        final(stream).pos <= final(stream).bytes@.len(),
        match scan_command(old(stream).bytes@, old(stream).pos as int, lit@, param, lo, hi) {
            CmdScan::NoMatch { at } => r == Ok::<Option<i32>, MmlError>(None) && final(stream).pos == at,
            CmdScan::Value { value, end } => r == Ok::<Option<i32>, MmlError>(Some(value as i32)) && final(stream).pos == end,
            CmdScan::Fail { err } => r == Err::<Option<i32>, MmlError>(err) && final(stream).pos == err.pos,
        },
{
    if parse_string(stream, lit).is_ok() {
        let v = expect_number(stream, param, lo, hi)?;
        return Ok(Some(v));
    }
    Ok(None)
}


/// Largest power of two dividing `t` (1 for 0).
pub open spec fn p2(t: nat) -> nat
    decreases t,
{
    if t > 0 && t % 2 == 0 {
        2 * p2((t / 2) as nat)
    } else {
        1
    }
}

pub proof fn lemma_p2_pos(t: nat)
    ensures
        p2(t) >= 1,
    decreases t,
{
    if t > 0 && t % 2 == 0 {
        lemma_p2_pos((t / 2) as nat);
    }
}

pub open spec fn two_pow(j: nat) -> nat
    decreases j,
{
    if j == 0 {
        1
    } else {
        2 * two_pow((j - 1) as nat)
    }
}

/// The bound that every note length the parser can reach obeys: `t * p2(t) <= 12288`.
/// Dots multiply a length by at most 2 while removing factors of two, so the product
/// never grows; whole-note divisions start at most at `192 * 64`.
pub open spec fn tick_ok(t: int) -> bool {
    t > 0 && t * p2(t as nat) <= 12288
}

pub proof fn lemma_p2_pow(j: nat, o: nat)
    requires
        o % 2 == 1,
    ensures
        p2(two_pow(j) * o) == two_pow(j),
        two_pow(j) * o > 0,
    decreases j,
{
    if j == 0 {
        assert(two_pow(0) == 1);
        assert(two_pow(j) * o == o);
    } else {
        lemma_p2_pow((j - 1) as nat, o);
        let x = two_pow((j - 1) as nat) * o;
        assert(two_pow(j) == 2 * two_pow((j - 1) as nat));
        assert(two_pow(j) * o == 2 * x) by (nonlinear_arith)
            requires two_pow(j) == 2 * two_pow((j - 1) as nat), x == two_pow((j - 1) as nat) * o;
        let y = (2 * x) as nat;
        assert(y > 0 && y % 2 == 0 && (y / 2) as nat == x);
        assert(p2(y) == 2 * p2(x));
    }
}

pub proof fn lemma_decompose(t: nat) -> (r: (nat, nat))
    requires
        t > 0,
    ensures
        r.1 % 2 == 1,
        t == two_pow(r.0) * r.1,
        p2(t) == two_pow(r.0),
    decreases t,
{
    if t % 2 == 0 {
        let (j, o) = lemma_decompose((t / 2) as nat);
        assert(two_pow(j + 1) == 2 * two_pow(j));
        assert(t == two_pow(j + 1) * o) by (nonlinear_arith)
            requires two_pow(j + 1) == 2 * two_pow(j), (t / 2) as nat == two_pow(j) * o, t % 2 == 0;
        (j + 1, o)
    } else {
        assert(two_pow(0) == 1);
        assert(t == two_pow(0) * t);
        (0, t)
    }
}

proof fn lemma_two_pow_pos(j: nat)
    ensures
        two_pow(j) >= 1,
    decreases j,
{
    if j > 0 {
        lemma_two_pow_pos((j - 1) as nat);
    }
}

/// Dots after a length: each halves the added part while it stays even.
pub open spec fn scan_dots(s: Seq<u8>, p: int, ticks: int, dot: int) -> Result<(int, int), MmlError>
    decreases s.len() - p,
{
    match scan_literal(s, p, single(46)) {
        Err((at, _)) => Ok((ticks, at)),
        Ok(e) => if dot % 2 == 0 {
            if p < e <= s.len() {
                scan_dots(s, e, ticks + dot / 2, dot / 2)
            } else {
                Ok((ticks + dot / 2, e))
            }
        } else {
            Err(MmlError { pos: e as usize, kind: MmlErrorKind::OddDottedLength })
        },
    }
}

/// A note length: an optional divisor of the whole note, then dots. A missing or
/// out-of-range divisor leaves the current length `nt`.
pub open spec fn scan_length(s: Seq<u8>, p: int, nt: int) -> Result<(int, int), MmlError> {
    let base = match scan_number(s, p, MmlParam::NoteLength, 1, 192) {
        NumScan::Value { value, end } => if 192int % value == 0 {
            Ok((192int / value, end))
        } else {
            Err(MmlError { pos: end as usize, kind: MmlErrorKind::InvalidNoteLength { length: value as u32 } })
        },
        NumScan::Absent { at, .. } => Ok((nt, at)),
        NumScan::OutOfRange { err } => Ok((nt, err.pos as int)),
    };
    match base {
        Err(e) => Err(e),
        Ok((t, q)) => scan_dots(s, q, t, t),
    }
}

proof fn lemma_whole_divisions(l: u8)
    requires
        1 <= l <= 192,
        192u8 % l == 0,
    ensures
        tick_ok((192u8 / l) as int),
{
    assert(1 <= l && l <= 192 && 192u8 % l == 0 ==> (192u8 / l == 1 || 192u8 / l == 2 || 192u8 / l == 3
        || 192u8 / l == 4 || 192u8 / l == 6 || 192u8 / l == 8 || 192u8 / l == 12 || 192u8 / l == 16
        || 192u8 / l == 24 || 192u8 / l == 32 || 192u8 / l == 48 || 192u8 / l == 64 || 192u8 / l == 96
        || 192u8 / l == 192)) by (bit_vector);
    reveal_with_fuel(p2, 8);
}

fn parse_length_as_ticks(stream: &mut CharStream, note_ticks: u32) -> (r: Result<u32, MmlError>)
    requires
        old(stream).pos <= old(stream).bytes@.len(),
        old(stream).bytes@.len() <= usize::MAX,
        tick_ok(note_ticks as int),
    ensures
        final(stream).bytes == old(stream).bytes,
        final(stream).pos <= final(stream).bytes@.len(),
        final(stream).pos >= old(stream).pos,
        match scan_length(old(stream).bytes@, old(stream).pos as int, note_ticks as int) {
            Ok((t, e)) => r == Ok::<u32, MmlError>(t as u32) && final(stream).pos == e && tick_ok(t) && 0 < t <= 12288,
            Err(err) => r == Err::<u32, MmlError>(err) && final(stream).pos == err.pos,
        },
{
    let ghost s = stream.bytes@;
    let ghost p0 = stream.pos as int;
    proof { lemma_scan_number(s, p0, MmlParam::NoteLength, 1, 192); }
    let mut ticks = note_ticks;
    match parse_number(stream, MmlParam::NoteLength, 1, 192) {
        Ok(len) => {
            if 192 % len == 0 {
                ticks = (192 / len) as u32;
                proof { lemma_whole_divisions(len as u8); }
            } else {
                return Err(MmlError { pos: stream.pos, kind: MmlErrorKind::InvalidNoteLength { length: len as u32 } });
            }
        },
        Err(_) => {},
    }
    let ghost t0 = ticks as nat;
    let ghost q0 = stream.pos as int;
    assert(scan_length(s, p0, note_ticks as int) == scan_dots(s, q0, t0 as int, t0 as int));
    let ghost (j0, o0) = lemma_decompose(t0);
    let ghost mut j: nat = j0;
    let ghost mut o: nat = o0;
    let ghost mut m: nat = o0;
    let mut dot = ticks;
    proof {
        lemma_two_pow_pos(j);
        assert(two_pow(j) * two_pow(j) * o == t0 * p2(t0)) by (nonlinear_arith)
            requires t0 == two_pow(j) * o, p2(t0) == two_pow(j);
        lemma_scan_literal(s, stream.pos as int, single(46));
    }
    loop
        invariant_except_break
            stream.bytes@ == s,
            stream.bytes == old(stream).bytes,
            p0 <= q0 <= stream.pos <= s.len(),
            s.len() <= usize::MAX,
            p0 == old(stream).pos,
            s == old(stream).bytes@,
            scan_length(s, p0, note_ticks as int) == scan_dots(s, q0, t0 as int, t0 as int),
            scan_dots(s, stream.pos as int, ticks as int, dot as int) == scan_dots(s, q0, t0 as int, t0 as int),
            o % 2 == 1,
            m % 2 == 1,
            m <= o,
            dot == two_pow(j) * m,
            ticks == two_pow(j) * o,
            two_pow(j) >= 1,
            two_pow(j) * two_pow(j) * o <= t0 * p2(t0),
            t0 * p2(t0) <= 12288,
        ensures
            stream.bytes@ == s,
            stream.bytes == old(stream).bytes,
            p0 <= stream.pos <= s.len(),
            scan_dots(s, q0, t0 as int, t0 as int) == Ok::<(int, int), MmlError>((ticks as int, stream.pos as int)),
            o % 2 == 1,
            ticks == two_pow(j) * o,
            two_pow(j) * two_pow(j) * o <= 12288,
        decreases s.len() - stream.pos,
    {
        proof { lemma_scan_literal(s, stream.pos as int, single(46)); }
        let ghost pb = stream.pos as int;
        if !parse_char(stream, 46) {
            break;
        }
        assert(scan_dots(s, pb, ticks as int, dot as int) == (if dot % 2 == 0 {
            scan_dots(s, stream.pos as int, ticks + dot / 2, (dot / 2) as int)
        } else {
            Err::<(int, int), MmlError>(MmlError { pos: stream.pos, kind: MmlErrorKind::OddDottedLength })
        }));
        if dot % 2 == 0 {
            proof {
                if j == 0 {
                    assert(two_pow(0) == 1);
                    assert(dot == m) by (nonlinear_arith)
                        requires dot == two_pow(j) * m, two_pow(j) == 1;
                    assert(false);
                }
                let jp = (j - 1) as nat;
                assert(two_pow(j) == 2 * two_pow(jp));
                assert(dot / 2 == two_pow(jp) * m) by (nonlinear_arith)
                    requires dot == two_pow(j) * m, two_pow(j) == 2 * two_pow(jp);
                assert(ticks + dot / 2 == two_pow(jp) * (2 * o + m)) by (nonlinear_arith)
                    requires ticks == two_pow(j) * o, dot / 2 == two_pow(jp) * m, two_pow(j) == 2 * two_pow(jp);
                assert(two_pow(jp) * two_pow(jp) * (2 * o + m) <= two_pow(j) * two_pow(j) * o) by (nonlinear_arith)
                    requires two_pow(j) == 2 * two_pow(jp), m <= o, two_pow(jp) >= 1;
                lemma_two_pow_pos(jp);
                assert(ticks + dot / 2 <= 12288) by (nonlinear_arith)
                    requires ticks + dot / 2 == two_pow(jp) * (2 * o + m),
                        two_pow(jp) * two_pow(jp) * (2 * o + m) <= two_pow(j) * two_pow(j) * o,
                        two_pow(j) * two_pow(j) * o <= 12288, two_pow(jp) >= 1;
                j = jp;
                o = 2 * o + m;
            }
            dot = dot / 2;
            ticks = ticks + dot;
        } else {
            return Err(MmlError { pos: stream.pos, kind: MmlErrorKind::OddDottedLength });
        }
    }
    proof {
        lemma_p2_pow(j, o);
        lemma_two_pow_pos(j);
        assert(ticks <= 12288) by (nonlinear_arith)
            requires ticks == two_pow(j) * o, two_pow(j) >= 1, two_pow(j) * two_pow(j) * o <= 12288;
        assert(ticks * p2(ticks as nat) <= 12288) by (nonlinear_arith)
            requires ticks == two_pow(j) * o, p2(ticks as nat) == two_pow(j),
                two_pow(j) * two_pow(j) * o <= 12288;
    }
    Ok(ticks)
}


/// Semitone of a note letter within its octave, or -1 for other bytes.
pub open spec fn semitone_of(b: u8) -> int {
    let c = lower(b);
    if c == 99 {
        0
    } else if c == 100 {
        2
    } else if c == 101 {
        4
    } else if c == 102 {
        5
    } else if c == 103 {
        7
    } else if c == 97 {
        9
    } else if c == 98 {
        11
    } else {
        -1
    }
}

pub enum NoteScan {
    NoNote { at: int },
    Note { midi_note: int, duration: int, connected: bool, end: int },
    Fail { err: MmlError },
}

/// `&<len>` extensions of a note; `&` before anything but a digit ties the note to the next.
/// Reading stops at the extension that takes the length past `u32::MAX`.
pub open spec fn scan_note_ties(s: Seq<u8>, p: int, nt: int, d: int) -> Result<(int, bool, int), MmlError>
    decreases s.len() - p,
{
    match scan_literal(s, p, single(38)) {
        Err((at, _)) => Ok((d, false, at)),
        Ok(e) => {
            let q = skip_ws(s, e);
            if 0 <= q < s.len() && is_digit(s[q]) {
                match scan_length(s, q, nt) {
                    Err(err) => Err(err),
                    Ok((t, e2)) => if d + t <= u32::MAX && p < e2 <= s.len() {
                        scan_note_ties(s, e2, nt, d + t)
                    } else {
                        Ok((d + t, false, e2))
                    },
                }
            } else {
                Ok((d, true, q))
            }
        },
    }
}

/// Accidentals: `#` or `+` raise the note, `-` lowers it but not below 0.
pub open spec fn scan_accidental(s: Seq<u8>, p: int, m: int) -> (int, int) {
    match scan_literal(s, p, single(35)) {
        Ok(e) => (m + 1, e),
        Err((a1, _)) => match scan_literal(s, a1, single(43)) {
            Ok(e) => (m + 1, e),
            Err((a2, _)) => match scan_literal(s, a2, single(45)) {
                Ok(e) => (if m > 0 { m - 1 } else { 0 }, e),
                Err((a3, _)) => (m, a3),
            },
        },
    }
}

pub open spec fn scan_note(s: Seq<u8>, p: int, octave: int, nt: int) -> NoteScan {
    let q = skip_ws(s, p);
    if !(0 <= q < s.len()) || semitone_of(s[q]) < 0 {
        NoteScan::NoNote { at: q }
    } else {
        let (m, p2) = scan_accidental(s, q + 1, (octave + 1) * 12 + semitone_of(s[q]));
        match scan_length(s, p2, nt) {
            Err(err) => NoteScan::Fail { err },
            Ok((d, p3)) => match scan_note_ties(s, p3, nt, d) {
                Err(err) => NoteScan::Fail { err },
                Ok((d2, connected, p4)) => NoteScan::Note { midi_note: m, duration: d2, connected, end: p4 },
            },
        }
    }
}

pub enum RestScan {
    NoRest { at: int },
    Rest { duration: int, end: int },
    Fail { err: MmlError },
}

/// `&<len>` extensions of a rest, up to the one that takes the length past `u32::MAX`.
pub open spec fn scan_rest_ties(s: Seq<u8>, p: int, nt: int, d: int) -> Result<(int, int), MmlError>
    decreases s.len() - p,
{
    match scan_literal(s, p, single(38)) {
        Err((at, _)) => Ok((d, at)),
        Ok(e) => match scan_length(s, e, nt) {
            Err(err) => Err(err),
            Ok((t, e2)) => if d + t <= u32::MAX && p < e2 <= s.len() {
                scan_rest_ties(s, e2, nt, d + t)
            } else {
                Ok((d + t, e2))
            },
        },
    }
}

pub open spec fn scan_rest(s: Seq<u8>, p: int, nt: int) -> RestScan {
    match scan_literal(s, p, single(82)) {
        Err((at, _)) => RestScan::NoRest { at },
        Ok(e) => match scan_length(s, e, nt) {
            Err(err) => RestScan::Fail { err },
            Ok((d, e2)) => match scan_rest_ties(s, e2, nt, d) {
                Err(err) => RestScan::Fail { err },
                Ok((d2, e3)) => RestScan::Rest { duration: d2, end: e3 },
            },
        },
    }
}

pub proof fn lemma_scan_length(s: Seq<u8>, p: int, nt: int)
    requires
        0 <= p <= s.len(),
        s.len() <= usize::MAX,
    ensures
        match scan_length(s, p, nt) {
            Ok((t, e)) => p <= e <= s.len(),
            Err(err) => p <= err.pos <= s.len(),
        },
{
    lemma_scan_number(s, p, MmlParam::NoteLength, 1, 192);
    let base = match scan_number(s, p, MmlParam::NoteLength, 1, 192) {
        NumScan::Value { value, end } => if 192int % value == 0 {
            Ok((192int / value, end))
        } else {
            Err(MmlError { pos: end as usize, kind: MmlErrorKind::InvalidNoteLength { length: value as u32 } })
        },
        NumScan::Absent { at, .. } => Ok((nt, at)),
        NumScan::OutOfRange { err } => Ok((nt, err.pos as int)),
    };
    if let Ok((t, q)) = base {
        lemma_scan_dots(s, q, t, t);
    }
}

pub proof fn lemma_scan_dots(s: Seq<u8>, p: int, ticks: int, dot: int)
    requires
        0 <= p <= s.len(),
        s.len() <= usize::MAX,
    ensures
        match scan_dots(s, p, ticks, dot) {
            Ok((t, e)) => p <= e <= s.len(),
            Err(err) => p <= err.pos <= s.len(),
        },
    decreases s.len() - p,
{
    lemma_scan_literal(s, p, single(46));
    if let Ok(e) = scan_literal(s, p, single(46)) {
        if dot % 2 == 0 && p < e <= s.len() {
            lemma_scan_dots(s, e, ticks + dot / 2, dot / 2);
        }
    }
}

/// A note or rest length as read: positive, and past `u32::MAX` by at most one extension.
pub open spec fn dur_ok(d: int) -> bool {
    0 < d <= u32::MAX + 12288
}

fn parse_note(stream: &mut CharStream, octave: i32, note_ticks: u32) -> (r: Result<Option<(u32, u64, bool)>, MmlError>)
    requires
        old(stream).pos <= old(stream).bytes@.len(),
        old(stream).bytes@.len() <= usize::MAX,
        tick_ok(note_ticks as int),
        -1 <= octave <= 9,
    ensures
        final(stream).bytes == old(stream).bytes,
        final(stream).pos <= final(stream).bytes@.len(),
        match scan_note(old(stream).bytes@, old(stream).pos as int, octave as int, note_ticks as int) {
            NoteScan::NoNote { at } => r == Ok::<Option<(u32, u64, bool)>, MmlError>(None) && final(stream).pos == at,
            NoteScan::Note { midi_note, duration, connected, end } => r == Ok::<Option<(u32, u64, bool)>, MmlError>(
                Some((midi_note as u32, duration as u64, connected)),
            ) && final(stream).pos == end && 0 <= midi_note <= 132 && dur_ok(duration)
                && old(stream).pos < end,
            NoteScan::Fail { err } => r == Err::<Option<(u32, u64, bool)>, MmlError>(err) && final(stream).pos == err.pos,
        },
{
    let ghost s = stream.bytes@;
    let ghost p0 = stream.pos as int;
    skip_whitespace(stream);
    proof { lemma_skip_ws(s, p0); }
    let semitone: i32 = match stream.peek() {
        Some(c) => {
            let l = lower_byte(c);
            if l == 99 {
                0
            } else if l == 100 {
                2
            } else if l == 101 {
                4
            } else if l == 102 {
                5
            } else if l == 103 {
                7
            } else if l == 97 {
                9
            } else if l == 98 {
                11
            } else {
                return Ok(None);
            }
        },
        None => {
            return Ok(None);
        },
    };
    stream.next();
    let midi_note: u32 = ((octave + 1) * 12 + semitone) as u32;
    let ghost q1 = stream.pos as int;
    proof {
        lemma_scan_literal(s, q1, single(35));
        if let Err((a1, _)) = scan_literal(s, q1, single(35)) {
            lemma_scan_literal(s, a1, single(43));
            if let Err((a2, _)) = scan_literal(s, a1, single(43)) {
                lemma_scan_literal(s, a2, single(45));
            }
        }
    }
    let midi_note = if parse_char(stream, 35) || parse_char(stream, 43) {
        midi_note + 1
    } else if parse_char(stream, 45) {
        midi_note.saturating_sub(1)
    } else {
        midi_note
    };
    let ghost pa = stream.pos as int;
    assert(scan_accidental(s, q1, midi_note_before(octave as int, semitone as int)) == (midi_note as int, pa));
    proof { lemma_scan_length(s, pa, note_ticks as int); }
    let first = parse_length_as_ticks(stream, note_ticks)?;
    let ghost p3 = stream.pos as int;
    let ghost d0 = first as int;
    proof { lemma_p2_pos(first as nat); }
    assert(first <= 12288) by (nonlinear_arith)
        requires first * p2(first as nat) <= 12288, p2(first as nat) >= 1, first > 0;
    let mut duration_ticks: u64 = first as u64;
    let mut is_connected = false;
    assert(scan_note(s, p0, octave as int, note_ticks as int) == note_from_ties(midi_note as int, scan_note_ties(s, p3, note_ticks as int, d0)));
    loop
        invariant_except_break
            stream.bytes@ == s,
            stream.bytes == old(stream).bytes,
            p0 < p3 <= stream.pos <= s.len(),
            s.len() <= usize::MAX,
            tick_ok(note_ticks as int),
            !is_connected,
            s == old(stream).bytes@,
            p0 == old(stream).pos,
            scan_note(s, p0, octave as int, note_ticks as int) == note_from_ties(midi_note as int, scan_note_ties(s, p3, note_ticks as int, d0)),
            scan_note_ties(s, stream.pos as int, note_ticks as int, duration_ticks as int) == scan_note_ties(s, p3, note_ticks as int, d0),
            0 < duration_ticks <= u32::MAX,
        ensures
            stream.bytes@ == s,
            stream.bytes == old(stream).bytes,
            p0 < stream.pos <= s.len(),
            scan_note_ties(s, p3, note_ticks as int, d0) == Ok::<(int, bool, int), MmlError>((duration_ticks as int, is_connected, stream.pos as int)),
            dur_ok(duration_ticks as int),
            scan_note(s, p0, octave as int, note_ticks as int) == note_from_ties(midi_note as int, scan_note_ties(s, p3, note_ticks as int, d0)),
        decreases s.len() - stream.pos,
    {
        let ghost pb = stream.pos as int;
        proof { lemma_scan_literal(s, pb, single(38)); }
        if !parse_char(stream, 38) {
            break;
        }
        let ghost e = stream.pos as int;
        skip_whitespace(stream);
        proof { lemma_skip_ws(s, e); }
        let is_digit_next = match stream.peek() {
            Some(c) => 48 <= c && c <= 57,
            None => false,
        };
        if is_digit_next {
            let ghost q = stream.pos as int;
            proof { lemma_scan_length(s, q, note_ticks as int); }
            let t = parse_length_as_ticks(stream, note_ticks)?;
            proof {
                lemma_scan_number(s, q, MmlParam::NoteLength, 1, 192);
                lemma_p2_pos(t as nat);
                assert(t <= 12288) by (nonlinear_arith)
                    requires t * p2(t as nat) <= 12288, p2(t as nat) >= 1, t > 0;
            }
            duration_ticks = duration_ticks + t as u64;
            if duration_ticks > u32::MAX as u64 {
                break;
            }
        } else {
            is_connected = true;
            break;
        }
    }
    Ok(Some((midi_note, duration_ticks, is_connected)))
}

pub open spec fn note_from_ties(m: int, ties: Result<(int, bool, int), MmlError>) -> NoteScan {
    match ties {
        Err(err) => NoteScan::Fail { err },
        Ok((d2, connected, p4)) => NoteScan::Note { midi_note: m, duration: d2, connected, end: p4 },
    }
}

pub open spec fn midi_note_before(octave: int, semitone: int) -> int {
    (octave + 1) * 12 + semitone
}


fn parse_rest(stream: &mut CharStream, note_ticks: u32) -> (r: Result<Option<u64>, MmlError>)
    requires
        old(stream).pos <= old(stream).bytes@.len(),
        old(stream).bytes@.len() <= usize::MAX,
        tick_ok(note_ticks as int),
    ensures
        final(stream).bytes == old(stream).bytes,
        final(stream).pos <= final(stream).bytes@.len(),
        match scan_rest(old(stream).bytes@, old(stream).pos as int, note_ticks as int) {
            RestScan::NoRest { at } => r == Ok::<Option<u64>, MmlError>(None) && final(stream).pos == at,
            RestScan::Rest { duration, end } => r == Ok::<Option<u64>, MmlError>(Some(duration as u64))
                && final(stream).pos == end && dur_ok(duration) && old(stream).pos < end,
            RestScan::Fail { err } => r == Err::<Option<u64>, MmlError>(err) && final(stream).pos == err.pos,
        },
{
    let ghost s = stream.bytes@;
    let ghost p0 = stream.pos as int;
    proof { lemma_scan_literal(s, p0, single(82)); }
    if !parse_char(stream, 82) {
        return Ok(None);
    }
    let ghost e = stream.pos as int;
    proof { lemma_scan_length(s, e, note_ticks as int); }
    let first = parse_length_as_ticks(stream, note_ticks)?;
    let ghost p3 = stream.pos as int;
    let ghost d0 = first as int;
    proof { lemma_p2_pos(first as nat); }
    assert(first <= 12288) by (nonlinear_arith)
        requires first * p2(first as nat) <= 12288, p2(first as nat) >= 1, first > 0;
    let mut duration_ticks: u64 = first as u64;
    loop
        invariant_except_break
            stream.bytes@ == s,
            stream.bytes == old(stream).bytes,
            p0 < p3 <= stream.pos <= s.len(),
            s.len() <= usize::MAX,
            tick_ok(note_ticks as int),
            s == old(stream).bytes@,
            p0 == old(stream).pos,
            scan_rest(s, p0, note_ticks as int) == rest_from_ties(scan_rest_ties(s, p3, note_ticks as int, d0)),
            scan_rest_ties(s, stream.pos as int, note_ticks as int, duration_ticks as int) == scan_rest_ties(s, p3, note_ticks as int, d0),
            0 < duration_ticks <= u32::MAX,
        ensures
            stream.bytes@ == s,
            stream.bytes == old(stream).bytes,
            p0 < stream.pos <= s.len(),
            scan_rest_ties(s, p3, note_ticks as int, d0) == Ok::<(int, int), MmlError>((duration_ticks as int, stream.pos as int)),
            dur_ok(duration_ticks as int),
            scan_rest(s, p0, note_ticks as int) == rest_from_ties(scan_rest_ties(s, p3, note_ticks as int, d0)),
        decreases s.len() - stream.pos,
    {
        let ghost pb = stream.pos as int;
        proof { lemma_scan_literal(s, pb, single(38)); }
        if !parse_char(stream, 38) {
            break;
        }
        let ghost q = stream.pos as int;
        proof { lemma_scan_length(s, q, note_ticks as int); }
        let t = parse_length_as_ticks(stream, note_ticks)?;
        proof {
            lemma_p2_pos(t as nat);
            assert(t <= 12288) by (nonlinear_arith)
                requires t * p2(t as nat) <= 12288, p2(t as nat) >= 1, t > 0;
        }
        duration_ticks = duration_ticks + t as u64;
        if duration_ticks > u32::MAX as u64 {
            break;
        }
    }
    Ok(Some(duration_ticks))
}

pub open spec fn rest_from_ties(ties: Result<(int, int), MmlError>) -> RestScan {
    match ties {
        Err(err) => RestScan::Fail { err },
        Ok((d, e)) => RestScan::Rest { duration: d, end: e },
    }
}

pub enum EffScan {
    NoEffect { at: int },
    Cmd { cmd: MmlCommandView, end: int },
    Fail { err: MmlError },
}

pub open spec fn lit_env() -> Seq<u8> {
    seq![64u8, 69u8, 78u8, 86u8]
}

pub open spec fn lit_vib() -> Seq<u8> {
    seq![64u8, 86u8, 73u8, 66u8]
}

pub open spec fn lit_gli() -> Seq<u8> {
    seq![64u8, 71u8, 76u8, 73u8]
}

/// `, dur_ticks, vol` pairs of an envelope definition up to the closing `}`.
pub open spec fn scan_env_segments(s: Seq<u8>, p: int, segs: Seq<(u32, u32)>) -> Result<(Seq<(u32, u32)>, int), MmlError>
    decreases s.len() - p,
{
    match scan_literal(s, p, single(125)) {
        Ok(e) => Ok((segs, e)),
        Err((at, _)) => match scan_expected_literal(s, at, 44) {
            Err(err) => Err(err),
            Ok(e1) => match scan_expected(s, e1, MmlParam::DurTicks, 0, i32::MAX) {
                CmdScan::Value { value: d, end: e2 } => match scan_expected_literal(s, e2, 44) {
                    Err(err) => Err(err),
                    Ok(e3) => match scan_expected(s, e3, MmlParam::Vol, 0, 127) {
                        CmdScan::Value { value: v, end: e4 } => if p < e4 <= s.len() {
                            scan_env_segments(s, e4, segs.push((d as u32, v as u32)))
                        } else {
                            Ok((segs.push((d as u32, v as u32)), e4))
                        },
                        CmdScan::Fail { err } => Err(err),
                        CmdScan::NoMatch { .. } => Ok((segs, p)),
                    },
                },
                CmdScan::Fail { err } => Err(err),
                CmdScan::NoMatch { .. } => Ok((segs, p)),
            },
        },
    }
}

/// `@ENV<slot>` or `@ENV<slot> { init_vol, dur_ticks, vol, ... }`.
pub open spec fn scan_envelope(s: Seq<u8>, p: int) -> EffScan {
    match scan_command(s, p, lit_env(), MmlParam::Envelope, 0, i32::MAX) {
        CmdScan::NoMatch { at } => EffScan::NoEffect { at },
        CmdScan::Fail { err } => EffScan::Fail { err },
        CmdScan::Value { value: slot, end: e } => match scan_literal(s, e, single(123)) {
            Err((at, _)) => EffScan::Cmd { cmd: MmlCommandView::Envelope { slot: slot as u32 }, end: at },
            Ok(e1) => if slot == 0 {
                EffScan::Fail { err: MmlError { pos: e1 as usize, kind: MmlErrorKind::ReservedSlot { effect: MmlEffect::Envelope } } }
            } else {
                match scan_expected(s, e1, MmlParam::InitVol, 0, 127) {
                    CmdScan::Value { value: iv, end: e2 } => match scan_env_segments(s, e2, Seq::empty()) {
                        Err(err) => EffScan::Fail { err },
                        Ok((segs, e3)) => EffScan::Cmd {
                            cmd: MmlCommandView::EnvelopeSet { slot: slot as u32, initial_volume: iv as u32, segments: segs },
                            end: e3,
                        },
                    },
                    CmdScan::Fail { err } => EffScan::Fail { err },
                    CmdScan::NoMatch { .. } => EffScan::NoEffect { at: p },
                }
            },
        },
    }
}

/// `@VIB<slot>` or `@VIB<slot> { delay_ticks, period_ticks, depth_cents }`.
pub open spec fn scan_vibrato(s: Seq<u8>, p: int) -> EffScan {
    match scan_command(s, p, lit_vib(), MmlParam::Vibrato, 0, i32::MAX) {
        CmdScan::NoMatch { at } => EffScan::NoEffect { at },
        CmdScan::Fail { err } => EffScan::Fail { err },
        CmdScan::Value { value: slot, end: e } => match scan_literal(s, e, single(123)) {
            Err((at, _)) => EffScan::Cmd { cmd: MmlCommandView::Vibrato { slot: slot as u32 }, end: at },
            Ok(e1) => if slot == 0 {
                EffScan::Fail { err: MmlError { pos: e1 as usize, kind: MmlErrorKind::ReservedSlot { effect: MmlEffect::Vibrato } } }
            } else {
                match scan_expected(s, e1, MmlParam::DelayTicks, 0, i32::MAX) {
                    CmdScan::Value { value: delay, end: e2 } => match scan_expected_literal(s, e2, 44) {
                        Err(err) => EffScan::Fail { err },
                        Ok(e3) => match scan_expected(s, e3, MmlParam::PeriodTicks, 0, i32::MAX) {
                            CmdScan::Value { value: period, end: e4 } => match scan_expected_literal(s, e4, 44) {
                                Err(err) => EffScan::Fail { err },
                                Ok(e5) => match scan_expected(s, e5, MmlParam::DepthCents, i32::MIN, i32::MAX) {
                                    CmdScan::Value { value: depth, end: e6 } => match scan_expected_literal(s, e6, 125) {
                                        Err(err) => EffScan::Fail { err },
                                        Ok(e7) => EffScan::Cmd {
                                            cmd: MmlCommandView::VibratoSet {
                                                slot: slot as u32,
                                                delay_ticks: delay as u32,
                                                period_ticks: period as u32,
                                                depth_cents: depth as i32,
                                            },
                                            end: e7,
                                        },
                                    },
                                    CmdScan::Fail { err } => EffScan::Fail { err },
                                    CmdScan::NoMatch { .. } => EffScan::NoEffect { at: p },
                                },
                            },
                            CmdScan::Fail { err } => EffScan::Fail { err },
                            CmdScan::NoMatch { .. } => EffScan::NoEffect { at: p },
                        },
                    },
                    CmdScan::Fail { err } => EffScan::Fail { err },
                    CmdScan::NoMatch { .. } => EffScan::NoEffect { at: p },
                }
            },
        },
    }
}

/// A glide value: `*` for "keep", else a mandatory number.
pub open spec fn scan_wild(s: Seq<u8>, p: int, param: MmlParam, lo: i32, hi: i32) -> Result<(Option<int>, int), MmlError> {
    match scan_literal(s, p, single(42)) {
        Ok(e) => Ok((None, e)),
        Err((at, _)) => match scan_expected(s, at, param, lo, hi) {
            CmdScan::Value { value, end } => Ok((Some(value), end)),
            CmdScan::Fail { err } => Err(err),
            CmdScan::NoMatch { .. } => Ok((None, p)),
        },
    }
}

/// `@GLI<slot>` or `@GLI<slot> { offset_cents|*, dur_ticks|* }`.
pub open spec fn scan_glide(s: Seq<u8>, p: int) -> EffScan {
    match scan_command(s, p, lit_gli(), MmlParam::Glide, 0, i32::MAX) {
        CmdScan::NoMatch { at } => EffScan::NoEffect { at },
        CmdScan::Fail { err } => EffScan::Fail { err },
        CmdScan::Value { value: slot, end: e } => match scan_literal(s, e, single(123)) {
            Err((at, _)) => EffScan::Cmd { cmd: MmlCommandView::Glide { slot: slot as u32 }, end: at },
            Ok(e1) => if slot == 0 {
                EffScan::Fail { err: MmlError { pos: e1 as usize, kind: MmlErrorKind::ReservedSlot { effect: MmlEffect::Glide } } }
            } else {
                match scan_wild(s, e1, MmlParam::OffsetCents, i32::MIN, i32::MAX) {
                    Err(err) => EffScan::Fail { err },
                    Ok((offset, e2)) => match scan_expected_literal(s, e2, 44) {
                        Err(err) => EffScan::Fail { err },
                        Ok(e3) => match scan_wild(s, e3, MmlParam::DurTicks, 0, i32::MAX) {
                            Err(err) => EffScan::Fail { err },
                            Ok((dur, e4)) => match scan_expected_literal(s, e4, 125) {
                                Err(err) => EffScan::Fail { err },
                                Ok(e5) => EffScan::Cmd {
                                    cmd: MmlCommandView::GlideSet {
                                        slot: slot as u32,
                                        offset_cents: match offset { Some(v) => Some(v as i32), None => None },
                                        duration_ticks: match dur { Some(v) => Some(v as u32), None => None },
                                    },
                                    end: e5,
                                },
                            },
                        },
                    },
                }
            },
        },
    }
}

/// How an effect parser's result relates to its scan.
pub open spec fn effect_matches(sc: EffScan, r: Result<Option<MmlCommand>, MmlError>, pos: int) -> bool {
    match sc {
        EffScan::NoEffect { at } => r matches Ok(None) && pos == at,
        EffScan::Cmd { cmd, end } => r matches Ok(Some(c)) && c@ == cmd && pos == end,
        EffScan::Fail { err } => r == Err::<Option<MmlCommand>, MmlError>(err) && pos == err.pos,
    }
}

proof fn lemma_scan_expected(s: Seq<u8>, p: int, param: MmlParam, lo: i32, hi: i32)
    requires
        0 <= p <= s.len(),
        s.len() <= usize::MAX,
    ensures
        match scan_expected(s, p, param, lo, hi) {
            CmdScan::Value { value, end } => p < end <= s.len() && lo <= value <= hi,
            CmdScan::Fail { err } => p <= err.pos <= s.len(),
            CmdScan::NoMatch { .. } => false,
        },
{
    lemma_scan_number(s, p, param, lo, hi);
}

proof fn lemma_scan_command(s: Seq<u8>, p: int, lit: Seq<u8>, param: MmlParam, lo: i32, hi: i32)
    requires
        0 <= p <= s.len(),
        s.len() <= usize::MAX,
    ensures
        match scan_command(s, p, lit, param, lo, hi) {
            CmdScan::Value { value, end } => p < end <= s.len() && lo <= value <= hi,
            CmdScan::Fail { err } => p <= err.pos <= s.len(),
            CmdScan::NoMatch { at } => p <= at <= s.len(),
        },
{
    lemma_scan_literal(s, p, lit);
    if let Ok(e) = scan_literal(s, p, lit) {
        lemma_scan_expected(s, e, param, lo, hi);
    }
}

fn parse_envelope(stream: &mut CharStream) -> (r: Result<Option<MmlCommand>, MmlError>)
    requires
        old(stream).pos <= old(stream).bytes@.len(),
        old(stream).bytes@.len() <= usize::MAX,
    ensures
        final(stream).bytes == old(stream).bytes,
        final(stream).pos <= final(stream).bytes@.len(),
        effect_matches(scan_envelope(old(stream).bytes@, old(stream).pos as int), r, final(stream).pos as int),
        r is Ok ==> final(stream).pos >= old(stream).pos,
        r matches Ok(Some(_)) ==> final(stream).pos > old(stream).pos,
{
    let ghost s = stream.bytes@;
    let ghost p0 = stream.pos as int;
    let lit: [u8; 4] = [64, 69, 78, 86];
    assert(lit@ == lit_env());
    proof { lemma_scan_command(s, p0, lit_env(), MmlParam::Envelope, 0, i32::MAX); }
    let slot = match parse_command(stream, lit.as_slice(), MmlParam::Envelope, 0, i32::MAX)? {
        Some(v) => v,
        None => {
            return Ok(None);
        },
    };
    let ghost e = stream.pos as int;
    proof { lemma_scan_literal(s, e, single(123)); }
    if !parse_char(stream, 123) {
        return Ok(Some(MmlCommand::Envelope { slot: slot as u32 }));
    }
    if slot == 0 {
        return Err(MmlError { pos: stream.pos, kind: MmlErrorKind::ReservedSlot { effect: MmlEffect::Envelope } });
    }
    let ghost e1 = stream.pos as int;
    proof { lemma_scan_expected(s, e1, MmlParam::InitVol, 0, 127); }
    let init_vol = expect_number(stream, MmlParam::InitVol, 0, 127)?;
    let ghost e2 = stream.pos as int;
    let mut segments: Vec<(u32, u32)> = Vec::new();
    assert(scan_envelope(s, p0) == envelope_from_segments(slot as u32, init_vol as u32, scan_env_segments(s, e2, Seq::empty())));
    loop
        invariant_except_break
            stream.bytes@ == s,
            stream.bytes == old(stream).bytes,
            e2 <= stream.pos <= s.len(),
            p0 < e2,
            s.len() <= usize::MAX,
            scan_env_segments(s, stream.pos as int, segments@) == scan_env_segments(s, e2, Seq::empty()),
            s == old(stream).bytes@,
            p0 == old(stream).pos,
            scan_envelope(s, p0) == envelope_from_segments(slot as u32, init_vol as u32, scan_env_segments(s, e2, Seq::empty())),
        ensures
            stream.bytes@ == s,
            stream.bytes == old(stream).bytes,
            p0 < e2 <= stream.pos <= s.len(),
            scan_env_segments(s, e2, Seq::empty()) == Ok::<(Seq<(u32, u32)>, int), MmlError>((segments@, stream.pos as int)),
            scan_envelope(s, p0) == envelope_from_segments(slot as u32, init_vol as u32, scan_env_segments(s, e2, Seq::empty())),
        decreases s.len() - stream.pos,
    {
        let ghost pb = stream.pos as int;
        proof { lemma_scan_literal(s, pb, single(125)); }
        if parse_char(stream, 125) {
            break;
        }
        let ghost at = stream.pos as int;
        proof { lemma_scan_literal(s, at, single(44)); }
        expect_literal(stream, 44)?;
        proof { lemma_scan_expected(s, stream.pos as int, MmlParam::DurTicks, 0, i32::MAX); }
        let dur_ticks = expect_number(stream, MmlParam::DurTicks, 0, i32::MAX)?;
        proof { lemma_scan_literal(s, stream.pos as int, single(44)); }
        expect_literal(stream, 44)?;
        proof { lemma_scan_expected(s, stream.pos as int, MmlParam::Vol, 0, 127); }
        let vol = expect_number(stream, MmlParam::Vol, 0, 127)?;
        segments.push((dur_ticks as u32, vol as u32));
    }
    Ok(Some(MmlCommand::EnvelopeSet { slot: slot as u32, initial_volume: init_vol as u32, segments }))
}

pub open spec fn envelope_from_segments(slot: u32, iv: u32, r: Result<(Seq<(u32, u32)>, int), MmlError>) -> EffScan {
    match r {
        Err(err) => EffScan::Fail { err },
        Ok((segs, e3)) => EffScan::Cmd {
            cmd: MmlCommandView::EnvelopeSet { slot, initial_volume: iv, segments: segs },
            end: e3,
        },
    }
}

fn parse_vibrato(stream: &mut CharStream) -> (r: Result<Option<MmlCommand>, MmlError>)
    requires
        old(stream).pos <= old(stream).bytes@.len(),
        old(stream).bytes@.len() <= usize::MAX,
    ensures
        final(stream).bytes == old(stream).bytes,
        final(stream).pos <= final(stream).bytes@.len(),
        effect_matches(scan_vibrato(old(stream).bytes@, old(stream).pos as int), r, final(stream).pos as int),
        r is Ok ==> final(stream).pos >= old(stream).pos,
        r matches Ok(Some(_)) ==> final(stream).pos > old(stream).pos,
{
    let ghost s = stream.bytes@;
    let ghost p0 = stream.pos as int;
    let lit: [u8; 4] = [64, 86, 73, 66];
    assert(lit@ == lit_vib());
    proof { lemma_scan_command(s, p0, lit_vib(), MmlParam::Vibrato, 0, i32::MAX); }
    let slot = match parse_command(stream, lit.as_slice(), MmlParam::Vibrato, 0, i32::MAX)? {
        Some(v) => v,
        None => {
            return Ok(None);
        },
    };
    proof { lemma_scan_literal(s, stream.pos as int, single(123)); }
    if !parse_char(stream, 123) {
        return Ok(Some(MmlCommand::Vibrato { slot: slot as u32 }));
    }
    if slot == 0 {
        return Err(MmlError { pos: stream.pos, kind: MmlErrorKind::ReservedSlot { effect: MmlEffect::Vibrato } });
    }
    proof { lemma_scan_expected(s, stream.pos as int, MmlParam::DelayTicks, 0, i32::MAX); }
    let delay_ticks = expect_number(stream, MmlParam::DelayTicks, 0, i32::MAX)?;
    proof { lemma_scan_literal(s, stream.pos as int, single(44)); }
    expect_literal(stream, 44)?;
    proof { lemma_scan_expected(s, stream.pos as int, MmlParam::PeriodTicks, 0, i32::MAX); }
    let period_ticks = expect_number(stream, MmlParam::PeriodTicks, 0, i32::MAX)?;
    proof { lemma_scan_literal(s, stream.pos as int, single(44)); }
    expect_literal(stream, 44)?;
    proof { lemma_scan_expected(s, stream.pos as int, MmlParam::DepthCents, i32::MIN, i32::MAX); }
    let depth_cents = expect_number(stream, MmlParam::DepthCents, i32::MIN, i32::MAX)?;
    proof { lemma_scan_literal(s, stream.pos as int, single(125)); }
    expect_literal(stream, 125)?;
    Ok(Some(MmlCommand::VibratoSet {
        slot: slot as u32,
        delay_ticks: delay_ticks as u32,
        period_ticks: period_ticks as u32,
        depth_cents,
    }))
}

fn parse_wild(stream: &mut CharStream, param: MmlParam, lo: i32, hi: i32) -> (r: Result<Option<i32>, MmlError>)
    requires
        old(stream).pos <= old(stream).bytes@.len(),
        old(stream).bytes@.len() <= usize::MAX,
    ensures
        final(stream).bytes == old(stream).bytes,
        final(stream).pos <= final(stream).bytes@.len(),
        match scan_wild(old(stream).bytes@, old(stream).pos as int, param, lo, hi) {
            Ok((v, e)) => r matches Ok(w) && final(stream).pos == e
                && w == (match v { Some(x) => Some(x as i32), None => None::<i32> }),
            Err(err) => r == Err::<Option<i32>, MmlError>(err) && final(stream).pos == err.pos,
        },
        r is Ok ==> final(stream).pos >= old(stream).pos,
{
    let ghost s = stream.bytes@;
    proof { lemma_scan_literal(s, stream.pos as int, single(42)); }
    if parse_char(stream, 42) {
        return Ok(None);
    }
    proof { lemma_scan_expected(s, stream.pos as int, param, lo, hi); }
    let v = expect_number(stream, param, lo, hi)?;
    Ok(Some(v))
}

fn parse_glide(stream: &mut CharStream) -> (r: Result<Option<MmlCommand>, MmlError>)
    requires
        old(stream).pos <= old(stream).bytes@.len(),
        old(stream).bytes@.len() <= usize::MAX,
    ensures
        final(stream).bytes == old(stream).bytes,
        final(stream).pos <= final(stream).bytes@.len(),
        effect_matches(scan_glide(old(stream).bytes@, old(stream).pos as int), r, final(stream).pos as int),
        r is Ok ==> final(stream).pos >= old(stream).pos,
        r matches Ok(Some(_)) ==> final(stream).pos > old(stream).pos,
{
    let ghost s = stream.bytes@;
    let ghost p0 = stream.pos as int;
    let lit: [u8; 4] = [64, 71, 76, 73];
    assert(lit@ == lit_gli());
    proof { lemma_scan_command(s, p0, lit_gli(), MmlParam::Glide, 0, i32::MAX); }
    let slot = match parse_command(stream, lit.as_slice(), MmlParam::Glide, 0, i32::MAX)? {
        Some(v) => v,
        None => {
            return Ok(None);
        },
    };
    proof { lemma_scan_literal(s, stream.pos as int, single(123)); }
    if !parse_char(stream, 123) {
        return Ok(Some(MmlCommand::Glide { slot: slot as u32 }));
    }
    if slot == 0 {
        return Err(MmlError { pos: stream.pos, kind: MmlErrorKind::ReservedSlot { effect: MmlEffect::Glide } });
    }
    let offset_cents = parse_wild(stream, MmlParam::OffsetCents, i32::MIN, i32::MAX)?;
    proof { lemma_scan_literal(s, stream.pos as int, single(44)); }
    expect_literal(stream, 44)?;
    let duration = parse_wild(stream, MmlParam::DurTicks, 0, i32::MAX)?;
    proof { lemma_scan_literal(s, stream.pos as int, single(125)); }
    expect_literal(stream, 125)?;
    let duration_ticks: Option<u32> = match duration {
        Some(d) => Some(d as u32),
        None => None,
    };
    Ok(Some(MmlCommand::GlideSet { slot: slot as u32, offset_cents, duration_ticks }))
}


/// Which parameters have a command in the output; a note inserts defaults for the others.
#[derive(Clone, Copy)]
pub struct SetFlags {
    pub tempo: bool,
    pub quantize: bool,
    pub tone: bool,
    pub volume: bool,
    pub transpose: bool,
    pub detune: bool,
    pub envelope: bool,
    pub vibrato: bool,
    pub glide: bool,
}

pub open spec fn all_set() -> SetFlags {
    SetFlags {
        tempo: true,
        quantize: true,
        tone: true,
        volume: true,
        transpose: true,
        detune: true,
        envelope: true,
        vibrato: true,
        glide: true,
    }
}

pub open spec fn none_set() -> SetFlags {
    SetFlags {
        tempo: false,
        quantize: false,
        tone: false,
        volume: false,
        transpose: false,
        detune: false,
        envelope: false,
        vibrato: false,
        glide: false,
    }
}

/// The parser's state between two commands of the input.
#[verifier::ext_equal]
pub struct MmlScanState {
    pub pos: int,
    pub commands: Seq<MmlCommandView>,
    pub octave: int,
    pub note_ticks: int,
    pub quantize: int,
    pub flags: SetFlags,
    pub connected_note: Option<u32>,
    pub last_note_index: Option<int>,
}

pub enum MmlStep {
    Next { st: MmlScanState },
    Fail { err: MmlError },
    Stuck,
}

pub enum MmlOutcome {
    Done { commands: Seq<MmlCommandView> },
    Fail { err: MmlError },
    Stuck,
}

/// Clocks per tick at `bpm`, rounded to the nearest integer (halves up).
pub open spec fn cpt_of(bpm: int) -> int {
    (2 * 107_386_380 + 48 * bpm) / (96 * bpm)
}

pub open spec fn default_tempo_cpt() -> u32 {
    18643
}


/// The commands a first note inserts for the parameters not yet set, in their fixed order.
pub open spec fn add_unless(cmds: Seq<MmlCommandView>, set: bool, c: MmlCommandView) -> Seq<MmlCommandView> {
    if set {
        cmds
    } else {
        cmds.push(c)
    }
}

/// The commands a first note inserts for the parameters not yet set, in their fixed order.
#[verifier::opaque]
pub open spec fn insert_defaults(cmds: Seq<MmlCommandView>, f: SetFlags) -> Seq<MmlCommandView> {
    let c1 = add_unless(cmds, f.tempo, MmlCommandView::Tempo { clocks_per_tick: default_tempo_cpt() });
    let c2 = add_unless(c1, f.quantize, MmlCommandView::Quantize { gate_time: 80 });
    let c3 = add_unless(c2, f.tone, MmlCommandView::Tone { tone: 0 });
    let c4 = add_unless(c3, f.volume, MmlCommandView::Volume { volume: 100 });
    let c5 = add_unless(c4, f.transpose, MmlCommandView::Transpose { key_offset: 0 });
    let c6 = add_unless(c5, f.detune, MmlCommandView::Detune { offset_cents: 0 });
    let c7 = add_unless(c6, f.envelope, MmlCommandView::Envelope { slot: 0 });
    let c8 = add_unless(c7, f.vibrato, MmlCommandView::Vibrato { slot: 0 });
    add_unless(c8, f.glide, MmlCommandView::Glide { slot: 0 })
}

pub open spec fn push_cmd(st: MmlScanState, pos: int, c: MmlCommandView) -> MmlScanState {
    MmlScanState { pos, commands: st.commands.push(c), ..st }
}

#[verifier::opaque]
pub open spec fn step_tempo(s: Seq<u8>, st: MmlScanState, p: int) -> MmlStep {
    match scan_command(s, p, single(84), MmlParam::Tempo, 1, i32::MAX) {
        CmdScan::Fail { err } => MmlStep::Fail { err },
        CmdScan::Value { value, end } => MmlStep::Next {
            st: MmlScanState {
                flags: SetFlags { tempo: true, ..st.flags },
                ..push_cmd(st, end, MmlCommandView::Tempo { clocks_per_tick: cpt_of(value) as u32 })
            },
        },
        CmdScan::NoMatch { at } => step_quantize(s, st, at),
    }
}

#[verifier::opaque]
pub open spec fn step_quantize(s: Seq<u8>, st: MmlScanState, p: int) -> MmlStep {
    match scan_command(s, p, single(81), MmlParam::Quantize, 0, 100) {
        CmdScan::Fail { err } => MmlStep::Fail { err },
        CmdScan::Value { value, end } => MmlStep::Next {
            st: MmlScanState {
                flags: SetFlags { quantize: true, ..st.flags },
                quantize: value,
                ..push_cmd(st, end, MmlCommandView::Quantize { gate_time: value as u32 })
            },
        },
        CmdScan::NoMatch { at } => step_volume(s, st, at),
    }
}

#[verifier::opaque]
pub open spec fn step_volume(s: Seq<u8>, st: MmlScanState, p: int) -> MmlStep {
    match scan_command(s, p, single(86), MmlParam::Volume, 0, 127) {
        CmdScan::Fail { err } => MmlStep::Fail { err },
        CmdScan::Value { value, end } => MmlStep::Next {
            st: MmlScanState {
                flags: SetFlags { volume: true, ..st.flags },
                ..push_cmd(st, end, MmlCommandView::Volume { volume: value as u32 })
            },
        },
        CmdScan::NoMatch { at } => step_transpose(s, st, at),
    }
}

#[verifier::opaque]
pub open spec fn step_transpose(s: Seq<u8>, st: MmlScanState, p: int) -> MmlStep {
    match scan_command(s, p, single(75), MmlParam::Transpose, i32::MIN, i32::MAX) {
        CmdScan::Fail { err } => MmlStep::Fail { err },
        CmdScan::Value { value, end } => MmlStep::Next {
            st: MmlScanState {
                flags: SetFlags { transpose: true, ..st.flags },
                ..push_cmd(st, end, MmlCommandView::Transpose { key_offset: value as i32 })
            },
        },
        CmdScan::NoMatch { at } => step_detune(s, st, at),
    }
}

#[verifier::opaque]
pub open spec fn step_detune(s: Seq<u8>, st: MmlScanState, p: int) -> MmlStep {
    match scan_command(s, p, single(89), MmlParam::Detune, i32::MIN, i32::MAX) {
        CmdScan::Fail { err } => MmlStep::Fail { err },
        CmdScan::Value { value, end } => MmlStep::Next {
            st: MmlScanState {
                flags: SetFlags { detune: true, ..st.flags },
                ..push_cmd(st, end, MmlCommandView::Detune { offset_cents: value as i32 })
            },
        },
        CmdScan::NoMatch { at } => step_envelope(s, st, at),
    }
}

#[verifier::opaque]
pub open spec fn step_envelope(s: Seq<u8>, st: MmlScanState, p: int) -> MmlStep {
    match scan_envelope(s, p) {
        EffScan::Fail { err } => MmlStep::Fail { err },
        EffScan::Cmd { cmd, end } => MmlStep::Next {
            st: MmlScanState { flags: SetFlags { envelope: true, ..st.flags }, ..push_cmd(st, end, cmd) },
        },
        EffScan::NoEffect { at } => step_vibrato(s, st, at),
    }
}

#[verifier::opaque]
pub open spec fn step_vibrato(s: Seq<u8>, st: MmlScanState, p: int) -> MmlStep {
    match scan_vibrato(s, p) {
        EffScan::Fail { err } => MmlStep::Fail { err },
        EffScan::Cmd { cmd, end } => MmlStep::Next {
            st: MmlScanState { flags: SetFlags { vibrato: true, ..st.flags }, ..push_cmd(st, end, cmd) },
        },
        EffScan::NoEffect { at } => step_glide(s, st, at),
    }
}

#[verifier::opaque]
pub open spec fn step_glide(s: Seq<u8>, st: MmlScanState, p: int) -> MmlStep {
    match scan_glide(s, p) {
        EffScan::Fail { err } => MmlStep::Fail { err },
        EffScan::Cmd { cmd, end } => MmlStep::Next {
            st: MmlScanState { flags: SetFlags { glide: true, ..st.flags }, ..push_cmd(st, end, cmd) },
        },
        EffScan::NoEffect { at } => step_tone(s, st, at),
    }
}

#[verifier::opaque]
pub open spec fn step_tone(s: Seq<u8>, st: MmlScanState, p: int) -> MmlStep {
    match scan_command(s, p, single(64), MmlParam::Tone, 0, i32::MAX) {
        CmdScan::Fail { err } => MmlStep::Fail { err },
        CmdScan::Value { value, end } => if value > 65535 {
            MmlStep::Fail { err: MmlError { pos: end as usize, kind: MmlErrorKind::InvalidValue { param: MmlParam::Tone } } }
        } else {
            MmlStep::Next {
                st: MmlScanState {
                    flags: SetFlags { tone: true, ..st.flags },
                    ..push_cmd(st, end, MmlCommandView::Tone { tone: value as u16 })
                },
            }
        },
        CmdScan::NoMatch { at } => step_octave(s, st, at),
    }
}

#[verifier::opaque]
pub open spec fn step_octave(s: Seq<u8>, st: MmlScanState, p: int) -> MmlStep {
    match scan_command(s, p, single(79), MmlParam::Octave, -1i32, 9i32) {
        CmdScan::Fail { err } => MmlStep::Fail { err },
        CmdScan::Value { value, end } => MmlStep::Next { st: MmlScanState { pos: end, octave: value, ..st } },
        CmdScan::NoMatch { at } => match scan_literal(s, at, single(62)) {
            Ok(e) => if st.octave < 9 {
                MmlStep::Next { st: MmlScanState { pos: e, octave: st.octave + 1, ..st } }
            } else {
                MmlStep::Fail { err: MmlError { pos: e as usize, kind: MmlErrorKind::OctaveAboveMaximum { octave: st.octave as i32 } } }
            },
            Err((a1, _)) => match scan_literal(s, a1, single(60)) {
                Ok(e) => if st.octave > -1 {
                    MmlStep::Next { st: MmlScanState { pos: e, octave: st.octave - 1, ..st } }
                } else {
                    MmlStep::Fail { err: MmlError { pos: e as usize, kind: MmlErrorKind::OctaveBelowMinimum { octave: st.octave as i32 } } }
                },
                Err((a2, _)) => step_length(s, st, a2),
            },
        },
    }
}

#[verifier::opaque]
pub open spec fn step_length(s: Seq<u8>, st: MmlScanState, p: int) -> MmlStep {
    match scan_literal(s, p, single(76)) {
        Ok(e) => match scan_length(s, e, st.note_ticks) {
            Ok((t, e2)) => MmlStep::Next { st: MmlScanState { pos: e2, note_ticks: t, ..st } },
            Err(err) => MmlStep::Fail { err },
        },
        Err((at, _)) => step_note(s, st, at),
    }
}

/// A note joins the previous note when that one ended with `&` and has the same pitch.
/// Else the defaults not yet given are pushed first, then a quantize command when the
/// gate is not full, then the note.
#[verifier::opaque]
pub open spec fn apply_note(st: MmlScanState, end: int, m: int, d: int, connected: bool) -> MmlScanState {
    match st.connected_note {
        Some(prev) if m == prev => {
            let cmds = st.commands;
            let merged = match st.last_note_index {
                Some(i) => match cmds[i] {
                    MmlCommandView::Note { midi_note, duration_ticks } => cmds.update(
                        i,
                        MmlCommandView::Note { midi_note, duration_ticks: (duration_ticks + d) as u32 },
                    ),
                    _ => cmds,
                },
                None => cmds,
            };
            MmlScanState {
                pos: end,
                commands: merged,
                connected_note: if connected { Some(prev) } else { None },
                ..st
            }
        },
        _ => {
            let with_defaults = insert_defaults(st.commands, st.flags);
            let gated = if st.quantize != 100 {
                with_defaults.push(MmlCommandView::Quantize { gate_time: if connected { 100 } else { st.quantize as u32 } })
            } else {
                with_defaults
            };
            MmlScanState {
                pos: end,
                commands: gated.push(MmlCommandView::Note { midi_note: m as u32, duration_ticks: d as u32 }),
                flags: all_set(),
                connected_note: if connected { Some(m as u32) } else { None },
                last_note_index: Some(gated.len() as int),
                ..st
            }
        },
    }
}

/// A note of length `d` whose length, or the length of the note it joins, does not fit in
/// `u32`.
pub open spec fn note_overflows(st: MmlScanState, m: int, d: int) -> bool {
    ||| d > u32::MAX
    ||| match (st.connected_note, st.last_note_index) {
        (Some(prev), Some(i)) => m == prev && match st.commands[i] {
            MmlCommandView::Note { duration_ticks, .. } => duration_ticks + d > u32::MAX,
            _ => false,
        },
        _ => false,
    }
}

/// A note; the parser stops, as on `Stuck`, where a length overflows `u32`.
#[verifier::opaque]
pub open spec fn step_note(s: Seq<u8>, st: MmlScanState, p: int) -> MmlStep {
    match scan_note(s, p, st.octave, st.note_ticks) {
        NoteScan::Fail { err } => MmlStep::Fail { err },
        NoteScan::Note { midi_note, duration, connected, end } => if note_overflows(st, midi_note, duration) {
            MmlStep::Stuck
        } else {
            MmlStep::Next { st: apply_note(st, end, midi_note, duration, connected) }
        },
        NoteScan::NoNote { at } => step_rest(s, st, at),
    }
}

#[verifier::opaque]
pub open spec fn step_rest(s: Seq<u8>, st: MmlScanState, p: int) -> MmlStep {
    match scan_rest(s, p, st.note_ticks) {
        RestScan::Fail { err } => MmlStep::Fail { err },
        RestScan::Rest { duration, end } => if duration > u32::MAX {
            MmlStep::Stuck
        } else {
            let cmds = add_unless(st.commands, st.flags.tempo, MmlCommandView::Tempo { clocks_per_tick: default_tempo_cpt() });
            MmlStep::Next {
                st: MmlScanState {
                    pos: end,
                    commands: cmds.push(MmlCommandView::Rest { duration_ticks: duration as u32 }),
                    flags: SetFlags { tempo: true, ..st.flags },
                    connected_note: None,
                    last_note_index: None,
                    ..st
                },
            }
        },
        RestScan::NoRest { at } => step_repeat(s, st, at),
    }
}

#[verifier::opaque]
pub open spec fn step_repeat(s: Seq<u8>, st: MmlScanState, p: int) -> MmlStep {
    match scan_literal(s, p, single(91)) {
        Ok(e) => MmlStep::Next { st: push_cmd(st, e, MmlCommandView::RepeatStart) },
        Err((a1, _)) => match scan_literal(s, a1, single(93)) {
            Ok(e) => {
                let (count, e2) = match scan_number(s, e, MmlParam::Count, 1, i32::MAX) {
                    NumScan::Value { value, end } => (value, end),
                    NumScan::Absent { at, .. } => (0, at),
                    NumScan::OutOfRange { err } => (0, err.pos as int),
                };
                MmlStep::Next { st: push_cmd(st, e2, MmlCommandView::RepeatEnd { play_count: count as u32 }) }
            },
            Err((a2, _)) => if 0 <= a2 < s.len() {
                MmlStep::Fail { err: MmlError { pos: a2 as usize, kind: MmlErrorKind::UnexpectedChar { found: s[a2] } } }
            } else {
                MmlStep::Stuck
            },
        },
    }
}

/// One command of the input, tried in the parser's fixed order.
pub open spec fn mml_step(s: Seq<u8>, st: MmlScanState) -> MmlStep {
    step_tempo(s, st, st.pos)
}

pub open spec fn mml_run(s: Seq<u8>, st: MmlScanState) -> MmlOutcome
    decreases s.len() - st.pos,
{
    if !(0 <= st.pos < s.len()) {
        MmlOutcome::Done { commands: st.commands }
    } else {
        match mml_step(s, st) {
            MmlStep::Next { st: st2 } => if st.pos < st2.pos <= s.len() {
                mml_run(s, st2)
            } else {
                MmlOutcome::Stuck
            },
            MmlStep::Fail { err } => MmlOutcome::Fail { err },
            MmlStep::Stuck => MmlOutcome::Stuck,
        }
    }
}

pub open spec fn initial_state() -> MmlScanState {
    MmlScanState {
        pos: 0,
        commands: Seq::empty(),
        octave: 4,
        note_ticks: 48,
        quantize: 80,
        flags: none_set(),
        connected_note: None,
        last_note_index: None,
    }
}

/// What parsing `s` gives: the commands, the first error, or `Stuck` where the input ends in
/// whitespace that no command reads (the parser then finds no character to report) or a
/// note or rest length does not fit in `u32`.
pub open spec fn mml_parse(s: Seq<u8>) -> MmlOutcome {
    mml_run(s, initial_state())
}


pub open spec fn step_result(sc: MmlStep, r: Result<bool, MmlError>, new: MmlScanState) -> bool {
    match sc {
        MmlStep::Next { st } => r == Ok::<bool, MmlError>(true) && new == st,
        MmlStep::Fail { err } => r == Err::<bool, MmlError>(err),
        MmlStep::Stuck => r == Ok::<bool, MmlError>(false),
    }
}

proof fn lemma_view_push(v: Seq<MmlCommand>, c: MmlCommand)
    ensures
        commands_view(v.push(c)) == commands_view(v).push(c@),
{
    assert(commands_view(v.push(c)) =~= commands_view(v).push(c@));
}

proof fn lemma_view_update(v: Seq<MmlCommand>, i: int, c: MmlCommand)
    requires
        0 <= i < v.len(),
    ensures
        commands_view(v.update(i, c)) == commands_view(v).update(i, c@),
{
    assert(commands_view(v.update(i, c)) =~= commands_view(v).update(i, c@));
}

/// Parser state held while reading the input.
struct ParseState {
    commands: Vec<MmlCommand>,
    octave: i32,
    note_ticks: u32,
    quantize: u32,
    flags: SetFlags,
    connected_note: Option<u32>,
    last_note_index: Option<usize>,
}

impl ParseState {
    spec fn at(&self, pos: int) -> MmlScanState {
        MmlScanState {
            pos,
            commands: commands_view(self.commands@),
            octave: self.octave as int,
            note_ticks: self.note_ticks as int,
            quantize: self.quantize as int,
            flags: self.flags,
            connected_note: self.connected_note,
            last_note_index: match self.last_note_index {
                Some(i) => Some(i as int),
                None => None,
            },
        }
    }

    spec fn wf(&self, pos: int) -> bool {
        &&& -1 <= self.octave <= 9
        &&& tick_ok(self.note_ticks as int)
        &&& self.quantize <= 100
        &&& match self.last_note_index {
            Some(i) => i < self.commands@.len() && self.commands@[i as int] is Note,
            None => true,
        }
    }
}

proof fn lemma_wf_mono(st: &ParseState, p: int, q: int)
    requires
        0 <= p <= q,
        st.wf(p),
    ensures
        st.wf(q),
{
}

proof fn lemma_wf_push(st: &ParseState, st2: &ParseState, c: MmlCommand, p: int)
    requires
        st.wf(p),
        st2.commands@ == st.commands@.push(c),
        st2.octave == st.octave,
        st2.note_ticks == st.note_ticks,
        st2.quantize == st.quantize,
        st2.last_note_index == st.last_note_index,
    ensures
        st2.wf(p),
{
    if let Some(i) = st.last_note_index {
        assert(st2.commands@[i as int] == st.commands@[i as int]);
    }
}

fn bpm_to_cpt(bpm: u32) -> (r: u32)
    requires
        bpm >= 1,
    ensures
        r == cpt_of(bpm as int),
{
    let d: u64 = 96 * bpm as u64;
    let n: u64 = 214_772_760 + 48 * bpm as u64;
    assert(n / d <= 214_772_760) by (nonlinear_arith)
        requires n == 214_772_760 + 48 * bpm, d == 96 * bpm, bpm >= 1;
    (n / d) as u32
}

fn push_defaults(commands: &mut Vec<MmlCommand>, flags: SetFlags)
    ensures
        commands_view(final(commands)@) == insert_defaults(commands_view(old(commands)@), flags),
{
    reveal(insert_defaults);
        let ghost c0 = commands@;
        let ghost f = flags;
        if !flags.tempo {
            proof { lemma_view_push(commands@, MmlCommand::Tempo { clocks_per_tick: 18643 }); }
            commands.push(MmlCommand::Tempo { clocks_per_tick: 18643 });
        }
        assert(commands_view(commands@) == add_unless(commands_view(c0), f.tempo, MmlCommandView::Tempo { clocks_per_tick: default_tempo_cpt() }));
        let ghost c1 = commands@;
        if !flags.quantize {
            proof { lemma_view_push(commands@, MmlCommand::Quantize { gate_time: 80 }); }
            commands.push(MmlCommand::Quantize { gate_time: 80 });
        }
        assert(commands_view(commands@) == add_unless(commands_view(c1), f.quantize, MmlCommandView::Quantize { gate_time: 80 }));
        let ghost c2 = commands@;
        if !flags.tone {
            proof { lemma_view_push(commands@, MmlCommand::Tone { tone: 0 }); }
            commands.push(MmlCommand::Tone { tone: 0 });
        }
        assert(commands_view(commands@) == add_unless(commands_view(c2), f.tone, MmlCommandView::Tone { tone: 0 }));
        let ghost c3 = commands@;
        if !flags.volume {
            proof { lemma_view_push(commands@, MmlCommand::Volume { volume: 100 }); }
            commands.push(MmlCommand::Volume { volume: 100 });
        }
        assert(commands_view(commands@) == add_unless(commands_view(c3), f.volume, MmlCommandView::Volume { volume: 100 }));
        let ghost c4 = commands@;
        if !flags.transpose {
            proof { lemma_view_push(commands@, MmlCommand::Transpose { key_offset: 0 }); }
            commands.push(MmlCommand::Transpose { key_offset: 0 });
        }
        assert(commands_view(commands@) == add_unless(commands_view(c4), f.transpose, MmlCommandView::Transpose { key_offset: 0 }));
        let ghost c5 = commands@;
        if !flags.detune {
            proof { lemma_view_push(commands@, MmlCommand::Detune { offset_cents: 0 }); }
            commands.push(MmlCommand::Detune { offset_cents: 0 });
        }
        assert(commands_view(commands@) == add_unless(commands_view(c5), f.detune, MmlCommandView::Detune { offset_cents: 0 }));
        let ghost c6 = commands@;
        if !flags.envelope {
            proof { lemma_view_push(commands@, MmlCommand::Envelope { slot: 0 }); }
            commands.push(MmlCommand::Envelope { slot: 0 });
        }
        assert(commands_view(commands@) == add_unless(commands_view(c6), f.envelope, MmlCommandView::Envelope { slot: 0 }));
        let ghost c7 = commands@;
        if !flags.vibrato {
            proof { lemma_view_push(commands@, MmlCommand::Vibrato { slot: 0 }); }
            commands.push(MmlCommand::Vibrato { slot: 0 });
        }
        assert(commands_view(commands@) == add_unless(commands_view(c7), f.vibrato, MmlCommandView::Vibrato { slot: 0 }));
        let ghost c8 = commands@;
        if !flags.glide {
            proof { lemma_view_push(commands@, MmlCommand::Glide { slot: 0 }); }
            commands.push(MmlCommand::Glide { slot: 0 });
        }
        assert(commands_view(commands@) == add_unless(commands_view(c8), f.glide, MmlCommandView::Glide { slot: 0 }));
        assert(commands_view(commands@) == insert_defaults(commands_view(c0), f));
}

/// Adds `duration_ticks` to the last note, unless the sum does not fit in `u32`; returns
/// whether it was added.
fn merge_tied_note(state: &mut ParseState, duration_ticks: u32, p0: Ghost<int>, end: Ghost<int>) -> (ok: bool)
    requires
        old(state).wf(p0@),
        0 <= p0@ < end@,
    ensures
        ok == !match old(state).at(p0@).last_note_index {
            Some(i) => match commands_view(old(state).commands@)[i] {
                MmlCommandView::Note { duration_ticks: d, .. } => d + duration_ticks > u32::MAX,
                _ => false,
            },
            None => false,
        },
        ok ==> final(state).wf(end@),
        final(state).octave == old(state).octave,
        final(state).note_ticks == old(state).note_ticks,
        final(state).quantize == old(state).quantize,
        final(state).flags == old(state).flags,
        final(state).connected_note == old(state).connected_note,
        final(state).last_note_index == old(state).last_note_index,
        ok ==> commands_view(final(state).commands@) == (match old(state).at(p0@).last_note_index {
            Some(i) => match commands_view(old(state).commands@)[i] {
                MmlCommandView::Note { midi_note, duration_ticks: d } => commands_view(old(state).commands@).update(
                    i,
                    MmlCommandView::Note { midi_note, duration_ticks: (d + duration_ticks) as u32 },
                ),
                _ => commands_view(old(state).commands@),
            },
            None => commands_view(old(state).commands@),
        }),
{
    match state.last_note_index {
        Some(index) => {
            let (m, d) = match &state.commands[index] {
                MmlCommand::Note { midi_note, duration_ticks } => (*midi_note, *duration_ticks),
                _ => (0, 0),
            };
            assert(commands_view(state.commands@)[index as int] == state.commands@[index as int]@);
            if d as u64 + duration_ticks as u64 > u32::MAX as u64 {
                return false;
            }
            proof {
                lemma_view_update(state.commands@, index as int, MmlCommand::Note { midi_note: m, duration_ticks: (d + duration_ticks) as u32 });
            }
            state.commands.set(index, MmlCommand::Note { midi_note: m, duration_ticks: d + duration_ticks });
            true
        },
        None => true,
    }
}

fn push_note(state: &mut ParseState, midi_note: u32, duration_ticks: u32, connected: bool, p0: Ghost<int>, end: Ghost<int>)
    requires
        old(state).wf(p0@),
        0 <= p0@ < end@,
    ensures
        final(state).wf(end@),
        final(state).octave == old(state).octave,
        final(state).note_ticks == old(state).note_ticks,
        final(state).quantize == old(state).quantize,
        final(state).flags == all_set(),
        final(state).connected_note == (if connected { Some(midi_note) } else { None::<u32> }),
        ({
            let with_defaults = insert_defaults(commands_view(old(state).commands@), old(state).flags);
            let gated = if old(state).quantize != 100 {
                with_defaults.push(MmlCommandView::Quantize { gate_time: if connected { 100 } else { old(state).quantize } })
            } else {
                with_defaults
            };
            &&& commands_view(final(state).commands@) == gated.push(MmlCommandView::Note { midi_note, duration_ticks })
            &&& final(state).last_note_index matches Some(i) && i as int == gated.len()
        }),
{
    push_defaults(&mut state.commands, state.flags);
    state.flags = SetFlags {
        tempo: true,
        quantize: true,
        tone: true,
        volume: true,
        transpose: true,
        detune: true,
        envelope: true,
        vibrato: true,
        glide: true,
    };
    if state.quantize != 100 {
        let gate_time = if connected { 100 } else { state.quantize };
        proof { lemma_view_push(state.commands@, MmlCommand::Quantize { gate_time }); }
        state.commands.push(MmlCommand::Quantize { gate_time });
    }
    state.connected_note = if connected { Some(midi_note) } else { None };
    state.last_note_index = Some(state.commands.len());
    proof { lemma_view_push(state.commands@, MmlCommand::Note { midi_note, duration_ticks }); }
    state.commands.push(MmlCommand::Note { midi_note, duration_ticks });
}

/// Applies a note read with length `duration_ticks`, unless a length overflows `u32`;
/// returns whether it was applied.
fn apply_note_exec(state: &mut ParseState, midi_note: u32, duration_ticks: u64, connected: bool, p0: Ghost<int>, end: Ghost<int>, base: Ghost<int>) -> (ok: bool)
    requires
        old(state).wf(p0@),
        0 <= p0@ < end@,
    ensures
        ok == !note_overflows(old(state).at(base@), midi_note as int, duration_ticks as int),
        ok ==> final(state).at(end@) == apply_note(old(state).at(base@), end@, midi_note as int, duration_ticks as int, connected),
        ok ==> final(state).wf(end@),
{
    reveal(apply_note);
    let ghost st0 = state.at(base@);
    if duration_ticks > u32::MAX as u64 {
        return false;
    }
    let d = duration_ticks as u32;
    match state.connected_note {
        Some(prev) => {
            if midi_note == prev {
                if !merge_tied_note(state, d, p0, end) {
                    return false;
                }
                state.connected_note = if connected { Some(prev) } else { None };
                assert(state.at(end@) =~= apply_note(st0, end@, midi_note as int, duration_ticks as int, connected));
                return true;
            }
        },
        None => {},
    }
    push_note(state, midi_note, d, connected, p0, end);
    assert(state.at(end@) =~= apply_note(st0, end@, midi_note as int, duration_ticks as int, connected));
    true
}

fn step_events(stream: &mut CharStream, state: &mut ParseState, base: Ghost<int>) -> (r: Result<bool, MmlError>)
    requires
        old(stream).pos <= old(stream).bytes@.len(),
        old(stream).bytes@.len() <= usize::MAX,
        old(state).wf(old(stream).pos as int),
    ensures
        final(stream).bytes == old(stream).bytes,
        final(stream).pos <= final(stream).bytes@.len(),
        step_result(step_note(old(stream).bytes@, old(state).at(base@), old(stream).pos as int), r,
            final(state).at(final(stream).pos as int)),
        r == Ok::<bool, MmlError>(true) ==> final(stream).pos > old(stream).pos && final(state).wf(final(stream).pos as int),
{
    let ghost s = stream.bytes@;
    let ghost p0 = stream.pos as int;
    reveal(step_note);
    let octave = state.octave;
    let note_ticks = state.note_ticks;
    match parse_note(stream, octave, note_ticks)? {
        Some((midi_note, duration_ticks, connected)) => {
            let applied = apply_note_exec(state, midi_note, duration_ticks, connected, Ghost(p0), Ghost(stream.pos as int), base);
            Ok(applied)
        },
        None => {
            proof {
                lemma_skip_ws(s, p0);
                lemma_wf_mono(state, p0, stream.pos as int);
            }
            step_rest_exec(stream, state, base)
        },
    }
}

#[verifier::rlimit(40)]
#[verifier::spinoff_prover]
fn step_rest_exec(stream: &mut CharStream, state: &mut ParseState, base: Ghost<int>) -> (r: Result<bool, MmlError>)
    requires
        old(stream).pos <= old(stream).bytes@.len(),
        old(stream).bytes@.len() <= usize::MAX,
        old(state).wf(old(stream).pos as int),
    ensures
        final(stream).bytes == old(stream).bytes,
        final(stream).pos <= final(stream).bytes@.len(),
        step_result(step_rest(old(stream).bytes@, old(state).at(base@), old(stream).pos as int), r,
            final(state).at(final(stream).pos as int)),
        r == Ok::<bool, MmlError>(true) ==> final(stream).pos > old(stream).pos && final(state).wf(final(stream).pos as int),
{
    let ghost s = stream.bytes@;
    let ghost p0 = stream.pos as int;
    reveal(step_rest);
    reveal(step_repeat);
    proof { lemma_scan_literal(s, p0, single(82)); }
    let note_ticks = state.note_ticks;
    match parse_rest(stream, note_ticks)? {
        Some(read) => {
            if read > u32::MAX as u64 {
                return Ok(false);
            }
            let duration_ticks = read as u32;
            let ghost c0 = state.commands@;
            if !state.flags.tempo {
                proof { lemma_view_push(state.commands@, MmlCommand::Tempo { clocks_per_tick: 18643 }); }
                state.commands.push(MmlCommand::Tempo { clocks_per_tick: 18643 });
            }
            assert(commands_view(state.commands@) == add_unless(commands_view(c0), state.flags.tempo, MmlCommandView::Tempo { clocks_per_tick: default_tempo_cpt() }));
            state.flags.tempo = true;
            state.connected_note = None;
            proof { lemma_view_push(state.commands@, MmlCommand::Rest { duration_ticks }); }
            state.commands.push(MmlCommand::Rest { duration_ticks });
            state.last_note_index = None;
            Ok(true)
        },
        None => {
            let ghost a0 = stream.pos as int;
            proof { lemma_scan_literal(s, a0, single(91)); }
            if parse_char(stream, 91) {
                proof { lemma_view_push(state.commands@, MmlCommand::RepeatStart); }
                let ghost before = *state;
                state.commands.push(MmlCommand::RepeatStart);
                proof {
                    lemma_wf_push(&before, state, MmlCommand::RepeatStart, p0);
                    lemma_wf_mono(state, p0, stream.pos as int);
                }
                return Ok(true);
            }
            proof { lemma_scan_literal(s, stream.pos as int, single(93)); }
            if parse_char(stream, 93) {
                proof { lemma_scan_number(s, stream.pos as int, MmlParam::Count, 1, i32::MAX); }
                let count: u32 = match parse_number(stream, MmlParam::Count, 1, i32::MAX) {
                    Ok(v) => v as u32,
                    Err(_) => 0,
                };
                proof { lemma_view_push(state.commands@, MmlCommand::RepeatEnd { play_count: count }); }
                let ghost before = *state;
                state.commands.push(MmlCommand::RepeatEnd { play_count: count });
                proof {
                    lemma_wf_push(&before, state, MmlCommand::RepeatEnd { play_count: count }, p0);
                    lemma_wf_mono(state, p0, stream.pos as int);
                }
                return Ok(true);
            }
            match stream.peek() {
                Some(c) => Err(MmlError { pos: stream.pos, kind: MmlErrorKind::UnexpectedChar { found: c } }),
                None => Ok(false),
            }
        },
    }
}


proof fn lemma_push_state(st: &ParseState, st2: &ParseState, c: MmlCommand, p: int, q: int)
    requires
        st.wf(p),
        0 <= p <= q,
        st2.commands@ == st.commands@.push(c),
        st2.octave == st.octave,
        st2.note_ticks == st.note_ticks,
        st2.quantize <= 100,
        st2.last_note_index == st.last_note_index,
    ensures
        st2.wf(q),
        commands_view(st2.commands@) == commands_view(st.commands@).push(c@),
{
    lemma_view_push(st.commands@, c);
    if let Some(i) = st.last_note_index {
        assert(st2.commands@[i as int] == st.commands@[i as int]);
    }
}

#[verifier::rlimit(40)]
#[verifier::spinoff_prover]
fn step_octave_exec(stream: &mut CharStream, state: &mut ParseState, base: Ghost<int>) -> (r: Result<bool, MmlError>)
    requires
        old(stream).pos <= old(stream).bytes@.len(),
        old(stream).bytes@.len() <= usize::MAX,
        old(state).wf(old(stream).pos as int),
    ensures
        final(stream).bytes == old(stream).bytes,
        final(stream).pos <= final(stream).bytes@.len(),
        step_result(step_octave(old(stream).bytes@, old(state).at(base@), old(stream).pos as int), r,
            final(state).at(final(stream).pos as int)),
        r == Ok::<bool, MmlError>(true) ==> final(stream).pos > old(stream).pos && final(state).wf(final(stream).pos as int),
{
    let ghost s = stream.bytes@;
    let ghost p0 = stream.pos as int;
    reveal(step_octave);
    reveal(step_length);
    proof { lemma_scan_command(s, p0, single(79), MmlParam::Octave, -1i32, 9i32); }
    let lit_o: [u8; 1] = [79];
    assert(lit_o@ == single(79));
    if let Some(oct) = parse_command(stream, lit_o.as_slice(), MmlParam::Octave, -1, 9)? {
        state.octave = oct;
        proof { lemma_wf_mono(state, p0, stream.pos as int); }
        assert(state.at(stream.pos as int) =~= MmlScanState { pos: stream.pos as int, octave: oct as int, ..old(state).at(base@) });
        return Ok(true);
    }
    let ghost a0 = stream.pos as int;
    proof { lemma_scan_literal(s, a0, single(62)); }
    if parse_char(stream, 62) {
        if state.octave < 9 {
            state.octave = state.octave + 1;
            proof { lemma_wf_mono(state, p0, stream.pos as int); }
            assert(state.at(stream.pos as int) =~= MmlScanState { pos: stream.pos as int, octave: old(state).octave + 1, ..old(state).at(base@) });
            return Ok(true);
        } else {
            return Err(MmlError { pos: stream.pos, kind: MmlErrorKind::OctaveAboveMaximum { octave: state.octave } });
        }
    }
    let ghost a1 = stream.pos as int;
    proof { lemma_scan_literal(s, a1, single(60)); }
    if parse_char(stream, 60) {
        if state.octave > -1 {
            state.octave = state.octave - 1;
            proof { lemma_wf_mono(state, p0, stream.pos as int); }
            assert(state.at(stream.pos as int) =~= MmlScanState { pos: stream.pos as int, octave: old(state).octave - 1, ..old(state).at(base@) });
            return Ok(true);
        } else {
            return Err(MmlError { pos: stream.pos, kind: MmlErrorKind::OctaveBelowMinimum { octave: state.octave } });
        }
    }
    let ghost a2 = stream.pos as int;
    proof { lemma_scan_literal(s, a2, single(76)); }
    if parse_char(stream, 76) {
        let ghost e = stream.pos as int;
        proof { lemma_scan_length(s, e, state.note_ticks as int); }
        let t = parse_length_as_ticks(stream, state.note_ticks)?;
        state.note_ticks = t;
        proof { lemma_wf_mono(state, p0, stream.pos as int); }
        assert(state.at(stream.pos as int) =~= MmlScanState { pos: stream.pos as int, note_ticks: t as int, ..old(state).at(base@) });
        return Ok(true);
    }
    proof { lemma_wf_mono(state, p0, stream.pos as int); }
    step_events(stream, state, base)
}


#[verifier::rlimit(40)]
#[verifier::spinoff_prover]
fn step_effects(stream: &mut CharStream, state: &mut ParseState, base: Ghost<int>) -> (r: Result<bool, MmlError>)
    requires
        old(stream).pos <= old(stream).bytes@.len(),
        old(stream).bytes@.len() <= usize::MAX,
        old(state).wf(old(stream).pos as int),
    ensures
        final(stream).bytes == old(stream).bytes,
        final(stream).pos <= final(stream).bytes@.len(),
        step_result(step_envelope(old(stream).bytes@, old(state).at(base@), old(stream).pos as int), r,
            final(state).at(final(stream).pos as int)),
        r == Ok::<bool, MmlError>(true) ==> final(stream).pos > old(stream).pos && final(state).wf(final(stream).pos as int),
{
    let ghost s = stream.bytes@;
    let ghost p0 = stream.pos as int;
    reveal(step_envelope);
    reveal(step_vibrato);
    reveal(step_glide);
    reveal(step_tone);
    proof { lemma_scan_command(s, p0, lit_env(), MmlParam::Envelope, 0, i32::MAX); }
    if let Some(cmd) = parse_envelope(stream)? {
        let ghost before = *state;
        state.commands.push(cmd);
        state.flags.envelope = true;
        proof { lemma_push_state(&before, state, cmd, p0, stream.pos as int); }
        assert(state.at(stream.pos as int) =~= MmlScanState {
            flags: SetFlags { envelope: true, ..before.flags },
            ..push_cmd(before.at(base@), stream.pos as int, cmd@)
        });
        return Ok(true);
    }
    let ghost a1 = stream.pos as int;
    proof { lemma_scan_command(s, a1, lit_vib(), MmlParam::Vibrato, 0, i32::MAX); }
    if let Some(cmd) = parse_vibrato(stream)? {
        let ghost before = *state;
        state.commands.push(cmd);
        state.flags.vibrato = true;
        proof { lemma_push_state(&before, state, cmd, p0, stream.pos as int); }
        assert(state.at(stream.pos as int) =~= MmlScanState {
            flags: SetFlags { vibrato: true, ..before.flags },
            ..push_cmd(before.at(base@), stream.pos as int, cmd@)
        });
        return Ok(true);
    }
    let ghost a2 = stream.pos as int;
    proof { lemma_scan_command(s, a2, lit_gli(), MmlParam::Glide, 0, i32::MAX); }
    if let Some(cmd) = parse_glide(stream)? {
        let ghost before = *state;
        state.commands.push(cmd);
        state.flags.glide = true;
        proof { lemma_push_state(&before, state, cmd, p0, stream.pos as int); }
        assert(state.at(stream.pos as int) =~= MmlScanState {
            flags: SetFlags { glide: true, ..before.flags },
            ..push_cmd(before.at(base@), stream.pos as int, cmd@)
        });
        return Ok(true);
    }
    let ghost a3 = stream.pos as int;
    proof { lemma_scan_command(s, a3, single(64), MmlParam::Tone, 0, i32::MAX); }
    let lit_at: [u8; 1] = [64];
    assert(lit_at@ == single(64));
    if let Some(tone) = parse_command(stream, lit_at.as_slice(), MmlParam::Tone, 0, i32::MAX)? {
        if tone > 65535 {
            return Err(MmlError { pos: stream.pos, kind: MmlErrorKind::InvalidValue { param: MmlParam::Tone } });
        }
        let cmd = MmlCommand::Tone { tone: tone as u16 };
        let ghost before = *state;
        state.commands.push(cmd);
        state.flags.tone = true;
        proof { lemma_push_state(&before, state, cmd, p0, stream.pos as int); }
        assert(state.at(stream.pos as int) =~= MmlScanState {
            flags: SetFlags { tone: true, ..before.flags },
            ..push_cmd(before.at(base@), stream.pos as int, cmd@)
        });
        return Ok(true);
    }
    proof { lemma_wf_mono(state, p0, stream.pos as int); }
    step_octave_exec(stream, state, base)
}

#[verifier::rlimit(80)]
#[verifier::spinoff_prover]
fn step_params(stream: &mut CharStream, state: &mut ParseState, base: Ghost<int>) -> (r: Result<bool, MmlError>)
    requires
        old(stream).pos <= old(stream).bytes@.len(),
        old(stream).bytes@.len() <= usize::MAX,
        old(state).wf(old(stream).pos as int),
    ensures
        final(stream).bytes == old(stream).bytes,
        final(stream).pos <= final(stream).bytes@.len(),
        step_result(step_tempo(old(stream).bytes@, old(state).at(base@), old(stream).pos as int), r,
            final(state).at(final(stream).pos as int)),
        r == Ok::<bool, MmlError>(true) ==> final(stream).pos > old(stream).pos && final(state).wf(final(stream).pos as int),
{
    let ghost s = stream.bytes@;
    let ghost p0 = stream.pos as int;
    reveal(step_tempo);
    reveal(step_quantize);
    reveal(step_volume);
    reveal(step_transpose);
    reveal(step_detune);
    proof { lemma_scan_command(s, p0, single(84), MmlParam::Tempo, 1, i32::MAX); }
    let lit_t: [u8; 1] = [84];
    assert(lit_t@ == single(84));
    if let Some(bpm) = parse_command(stream, lit_t.as_slice(), MmlParam::Tempo, 1, i32::MAX)? {
        let cmd = MmlCommand::Tempo { clocks_per_tick: bpm_to_cpt(bpm as u32) };
        let ghost before = *state;
        state.commands.push(cmd);
        state.flags.tempo = true;
        proof { lemma_push_state(&before, state, cmd, p0, stream.pos as int); }
        assert(state.at(stream.pos as int) =~= MmlScanState {
            flags: SetFlags { tempo: true, ..before.flags },
            ..push_cmd(before.at(base@), stream.pos as int, cmd@)
        });
        return Ok(true);
    }
    let ghost a1 = stream.pos as int;
    proof { lemma_scan_command(s, a1, single(81), MmlParam::Quantize, 0, 100); }
    let lit_q: [u8; 1] = [81];
    assert(lit_q@ == single(81));
    if let Some(gate) = parse_command(stream, lit_q.as_slice(), MmlParam::Quantize, 0, 100)? {
        let cmd = MmlCommand::Quantize { gate_time: gate as u32 };
        let ghost before = *state;
        state.commands.push(cmd);
        state.flags.quantize = true;
        state.quantize = gate as u32;
        proof { lemma_push_state(&before, state, cmd, p0, stream.pos as int); }
        assert(state.at(stream.pos as int) =~= MmlScanState {
            flags: SetFlags { quantize: true, ..before.flags },
            quantize: gate as int,
            ..push_cmd(before.at(base@), stream.pos as int, cmd@)
        });
        return Ok(true);
    }
    let ghost a2 = stream.pos as int;
    proof { lemma_scan_command(s, a2, single(86), MmlParam::Volume, 0, 127); }
    let lit_v: [u8; 1] = [86];
    assert(lit_v@ == single(86));
    if let Some(vol) = parse_command(stream, lit_v.as_slice(), MmlParam::Volume, 0, 127)? {
        let cmd = MmlCommand::Volume { volume: vol as u32 };
        let ghost before = *state;
        state.commands.push(cmd);
        state.flags.volume = true;
        proof { lemma_push_state(&before, state, cmd, p0, stream.pos as int); }
        assert(state.at(stream.pos as int) =~= MmlScanState {
            flags: SetFlags { volume: true, ..before.flags },
            ..push_cmd(before.at(base@), stream.pos as int, cmd@)
        });
        return Ok(true);
    }
    let ghost a3 = stream.pos as int;
    proof { lemma_scan_command(s, a3, single(75), MmlParam::Transpose, i32::MIN, i32::MAX); }
    let lit_k: [u8; 1] = [75];
    assert(lit_k@ == single(75));
    if let Some(key_offset) = parse_command(stream, lit_k.as_slice(), MmlParam::Transpose, i32::MIN, i32::MAX)? {
        let cmd = MmlCommand::Transpose { key_offset };
        let ghost before = *state;
        state.commands.push(cmd);
        state.flags.transpose = true;
        proof { lemma_push_state(&before, state, cmd, p0, stream.pos as int); }
        assert(state.at(stream.pos as int) =~= MmlScanState {
            flags: SetFlags { transpose: true, ..before.flags },
            ..push_cmd(before.at(base@), stream.pos as int, cmd@)
        });
        return Ok(true);
    }
    let ghost a4 = stream.pos as int;
    proof { lemma_scan_command(s, a4, single(89), MmlParam::Detune, i32::MIN, i32::MAX); }
    let lit_y: [u8; 1] = [89];
    assert(lit_y@ == single(89));
    if let Some(offset_cents) = parse_command(stream, lit_y.as_slice(), MmlParam::Detune, i32::MIN, i32::MAX)? {
        let cmd = MmlCommand::Detune { offset_cents };
        let ghost before = *state;
        state.commands.push(cmd);
        state.flags.detune = true;
        proof { lemma_push_state(&before, state, cmd, p0, stream.pos as int); }
        assert(state.at(stream.pos as int) =~= MmlScanState {
            flags: SetFlags { detune: true, ..before.flags },
            ..push_cmd(before.at(base@), stream.pos as int, cmd@)
        });
        return Ok(true);
    }
    proof { lemma_wf_mono(state, p0, stream.pos as int); }
    step_effects(stream, state, base)
}


/// Parses MML, or returns `None` where the parser would find no character to report (an
/// input that ends in whitespace no command reads) or a note or rest length would not fit
/// in `u32`.
pub fn try_parse_mml(mml: &str) -> (r: Option<Result<Vec<MmlCommand>, MmlError>>)
    ensures
        match mml_parse(mml.spec_bytes()) {
            MmlOutcome::Done { commands } => r matches Some(Ok(v)) && commands_view(v@) == commands,
            MmlOutcome::Fail { err } => r == Some(Err::<Vec<MmlCommand>, MmlError>(err)),
            MmlOutcome::Stuck => r is None,
        },
{
    let mut stream = CharStream::new(mml);
    let total: usize = stream.bytes.len();
    let ghost s = stream.bytes@;
    let mut state = ParseState {
        commands: Vec::new(),
        octave: 4,
        note_ticks: 48,
        quantize: 80,
        flags: SetFlags {
            tempo: false,
            quantize: false,
            tone: false,
            volume: false,
            transpose: false,
            detune: false,
            envelope: false,
            vibrato: false,
            glide: false,
        },
        connected_note: None,
        last_note_index: None,
    };
    proof {
        reveal_with_fuel(p2, 6);
        assert(state.at(0) =~= initial_state());
    }
    while stream.pos < total
        invariant
            stream.bytes@ == s,
            s == mml.spec_bytes(),
            s.len() == total,
            stream.pos <= s.len(),
            state.wf(stream.pos as int),
            mml_run(s, state.at(stream.pos as int)) == mml_parse(s),
        decreases s.len() - stream.pos,
    {
        let ghost p0 = stream.pos as int;
        let ghost st = state.at(p0);
        match step_params(&mut stream, &mut state, Ghost(p0)) {
            Ok(true) => {
                assert(mml_run(s, st) == mml_run(s, state.at(stream.pos as int)));
            },
            Ok(false) => {
                return None;
            },
            Err(e) => {
                return Some(Err(e));
            },
        }
    }
    Some(Ok(state.commands))
}

/// Parses MML into commands, or the first error with its byte position.
pub fn parse_mml(mml: &str) -> (r: Result<Vec<MmlCommand>, MmlError>)
    requires
        !(mml_parse(mml.spec_bytes()) is Stuck),
    ensures
        match mml_parse(mml.spec_bytes()) {
            MmlOutcome::Done { commands } => r matches Ok(v) && commands_view(v@) == commands,
            MmlOutcome::Fail { err } => r == Err::<Vec<MmlCommand>, MmlError>(err),
            MmlOutcome::Stuck => false,
        },
{
    match try_parse_mml(mml) {
        Some(r) => r,
        None => Ok(Vec::new()),
    }
}

/// `s` and `t` are the same text but for the case of ASCII letters.
pub open spec fn same_but_case(s: Seq<u8>, t: Seq<u8>) -> bool {
    &&& s.len() == t.len()
    &&& forall|i: int| 0 <= i < s.len() ==> lower(#[trigger] s[i]) == lower(t[i])
}

/// Bytes with the same lowercase are alike in every class the parser tells apart.
proof fn lemma_lower_alike(a: u8, b: u8)
    requires
        lower(a) == lower(b),
    ensures
        is_ws(a) == is_ws(b),
        is_digit(a) == is_digit(b),
        (a == 45) == (b == 45),
        is_digit(a) ==> a == b,
        semitone_of(a) == semitone_of(b),
{
}

proof fn lemma_case_skip_ws(s: Seq<u8>, t: Seq<u8>, p: int)
    requires
        same_but_case(s, t),
    ensures
        skip_ws(s, p) == skip_ws(t, p),
    decreases s.len() - p,
{
    if 0 <= p < s.len() {
        lemma_lower_alike(s[p], t[p]);
        if is_ws(s[p]) {
            lemma_case_skip_ws(s, t, p + 1);
        }
    }
}

proof fn lemma_case_lit_matched(s: Seq<u8>, t: Seq<u8>, q: int, lit: Seq<u8>, k: int)
    requires
        same_but_case(s, t),
    ensures
        lit_matched(s, q, lit, k) == lit_matched(t, q, lit, k),
    decreases lit.len() - k,
{
    if 0 <= k < lit.len() && 0 <= q + k < s.len() {
        assert(lower(s[q + k]) == lower(t[q + k]));
        lemma_case_lit_matched(s, t, q, lit, k + 1);
    }
}

proof fn lemma_case_scan_literal(s: Seq<u8>, t: Seq<u8>, p: int, lit: Seq<u8>)
    requires
        same_but_case(s, t),
    ensures
        scan_literal(s, p, lit) == scan_literal(t, p, lit),
{
    lemma_case_skip_ws(s, t, p);
    lemma_case_lit_matched(s, t, skip_ws(s, p), lit, 0);
}

proof fn lemma_case_digits_end(s: Seq<u8>, t: Seq<u8>, i: int)
    requires
        same_but_case(s, t),
    ensures
        digits_end(s, i) == digits_end(t, i),
    decreases s.len() - i,
{
    if 0 <= i < s.len() {
        lemma_lower_alike(s[i], t[i]);
        if is_digit(s[i]) {
            lemma_case_digits_end(s, t, i + 1);
        }
    }
}

proof fn lemma_case_dec_value(s: Seq<u8>, t: Seq<u8>, a: int, b: int)
    requires
        same_but_case(s, t),
        0 <= a,
        b <= s.len(),
        forall|j: int| a <= j < b ==> is_digit(#[trigger] s[j]),
    ensures
        dec_value(s, a, b) == dec_value(t, a, b),
    decreases b - a,
{
    if a < b {
        lemma_lower_alike(s[b - 1], t[b - 1]);
        lemma_case_dec_value(s, t, a, b - 1);
    }
}

proof fn lemma_case_scan_number(s: Seq<u8>, t: Seq<u8>, p: int, param: MmlParam, lo: i32, hi: i32)
    requires
        same_but_case(s, t),
        0 <= p <= s.len(),
    ensures
        scan_number(s, p, param, lo, hi) == scan_number(t, p, param, lo, hi),
{
    lemma_case_skip_ws(s, t, p);
    lemma_skip_ws(s, p);
    let q = skip_ws(s, p);
    if q < s.len() {
        lemma_lower_alike(s[q], t[q]);
    }
    let neg = q < s.len() && s[q] == 45;
    let d0 = if neg { q + 1 } else { q };
    lemma_case_digits_end(s, t, d0);
    lemma_digits_end(s, d0);
    lemma_case_dec_value(s, t, d0, digits_end(s, d0));
}

proof fn lemma_case_scan_command(s: Seq<u8>, t: Seq<u8>, p: int, lit: Seq<u8>, param: MmlParam, lo: i32, hi: i32)
    requires
        same_but_case(s, t),
        0 <= p <= s.len(),
    ensures
        scan_command(s, p, lit, param, lo, hi) == scan_command(t, p, lit, param, lo, hi),
        scan_expected(s, p, param, lo, hi) == scan_expected(t, p, param, lo, hi),
{
    lemma_case_scan_number(s, t, p, param, lo, hi);
    lemma_case_scan_literal(s, t, p, lit);
    lemma_scan_literal(s, p, lit);
    if let Ok(e) = scan_literal(s, p, lit) {
        lemma_case_scan_number(s, t, e, param, lo, hi);
    }
}

proof fn lemma_case_scan_dots(s: Seq<u8>, t: Seq<u8>, p: int, ticks: int, dot: int)
    requires
        same_but_case(s, t),
        0 <= p <= s.len(),
    ensures
        scan_dots(s, p, ticks, dot) == scan_dots(t, p, ticks, dot),
    decreases s.len() - p,
{
    lemma_case_scan_literal(s, t, p, single(46));
    if let Ok(e) = scan_literal(s, p, single(46)) {
        if dot % 2 == 0 && p < e <= s.len() {
            lemma_case_scan_dots(s, t, e, ticks + dot / 2, dot / 2);
        }
    }
}

proof fn lemma_case_scan_length(s: Seq<u8>, t: Seq<u8>, p: int, nt: int)
    requires
        same_but_case(s, t),
        0 <= p <= s.len(),
        s.len() <= usize::MAX,
    ensures
        scan_length(s, p, nt) == scan_length(t, p, nt),
{
    lemma_case_scan_number(s, t, p, MmlParam::NoteLength, 1, 192);
    let base = match scan_number(s, p, MmlParam::NoteLength, 1, 192) {
        NumScan::Value { value, end } => if 192int % value == 0 {
            Ok((192int / value, end))
        } else {
            Err(MmlError { pos: end as usize, kind: MmlErrorKind::InvalidNoteLength { length: value as u32 } })
        },
        NumScan::Absent { at, .. } => Ok((nt, at)),
        NumScan::OutOfRange { err } => Ok((nt, err.pos as int)),
    };
    lemma_scan_number(s, p, MmlParam::NoteLength, 1, 192);
    if let Ok((tk, q)) = base {
        lemma_case_scan_dots(s, t, q, tk, tk);
    }
}


proof fn lemma_case_scan_note_ties(s: Seq<u8>, t: Seq<u8>, p: int, nt: int, d: int)
    requires
        same_but_case(s, t),
        0 <= p <= s.len(),
        s.len() <= usize::MAX,
    ensures
        scan_note_ties(s, p, nt, d) == scan_note_ties(t, p, nt, d),
    decreases s.len() - p,
{
    lemma_case_scan_literal(s, t, p, single(38));
    lemma_scan_literal(s, p, single(38));
    if let Ok(e) = scan_literal(s, p, single(38)) {
        lemma_case_skip_ws(s, t, e);
        lemma_skip_ws(s, e);
        let q = skip_ws(s, e);
        if q < s.len() {
            lemma_lower_alike(s[q], t[q]);
            lemma_case_scan_length(s, t, q, nt);
            if let Ok((tk, e2)) = scan_length(s, q, nt) {
                if d + tk <= u32::MAX && p < e2 <= s.len() {
                    lemma_case_scan_note_ties(s, t, e2, nt, d + tk);
                }
            }
        }
    }
}

proof fn lemma_case_scan_note(s: Seq<u8>, t: Seq<u8>, p: int, octave: int, nt: int)
    requires
        same_but_case(s, t),
        0 <= p <= s.len(),
        s.len() <= usize::MAX,
    ensures
        scan_note(s, p, octave, nt) == scan_note(t, p, octave, nt),
{
    lemma_case_skip_ws(s, t, p);
    lemma_skip_ws(s, p);
    let q = skip_ws(s, p);
    if q < s.len() {
        lemma_lower_alike(s[q], t[q]);
        if semitone_of(s[q]) >= 0 {
            let m0 = (octave + 1) * 12 + semitone_of(s[q]);
            lemma_case_scan_literal(s, t, q + 1, single(35));
            lemma_scan_literal(s, q + 1, single(35));
            if let Err((a1, _)) = scan_literal(s, q + 1, single(35)) {
                lemma_case_scan_literal(s, t, a1, single(43));
                lemma_scan_literal(s, a1, single(43));
                if let Err((a2, _)) = scan_literal(s, a1, single(43)) {
                    lemma_case_scan_literal(s, t, a2, single(45));
                }
            }
            assert(scan_accidental(s, q + 1, m0) == scan_accidental(t, q + 1, m0));
            let (m, p2) = scan_accidental(s, q + 1, m0);
            lemma_scan_literal(s, q + 1, single(35));
            assert(q + 1 <= p2 <= s.len()) by {
                if let Err((a1, _)) = scan_literal(s, q + 1, single(35)) {
                    lemma_scan_literal(s, a1, single(43));
                    if let Err((a2, _)) = scan_literal(s, a1, single(43)) {
                        lemma_scan_literal(s, a2, single(45));
                    }
                }
            }
            lemma_case_scan_length(s, t, p2, nt);
            lemma_scan_length(s, p2, nt);
            if let Ok((d, p3)) = scan_length(s, p2, nt) {
                lemma_case_scan_note_ties(s, t, p3, nt, d);
            }
        }
    }
}

proof fn lemma_case_scan_rest_ties(s: Seq<u8>, t: Seq<u8>, p: int, nt: int, d: int)
    requires
        same_but_case(s, t),
        0 <= p <= s.len(),
        s.len() <= usize::MAX,
    ensures
        scan_rest_ties(s, p, nt, d) == scan_rest_ties(t, p, nt, d),
    decreases s.len() - p,
{
    lemma_case_scan_literal(s, t, p, single(38));
    lemma_scan_literal(s, p, single(38));
    if let Ok(e) = scan_literal(s, p, single(38)) {
        lemma_case_scan_length(s, t, e, nt);
        if let Ok((tk, e2)) = scan_length(s, e, nt) {
            if d + tk <= u32::MAX && p < e2 <= s.len() {
                lemma_case_scan_rest_ties(s, t, e2, nt, d + tk);
            }
        }
    }
}

proof fn lemma_case_scan_rest(s: Seq<u8>, t: Seq<u8>, p: int, nt: int)
    requires
        same_but_case(s, t),
        0 <= p <= s.len(),
        s.len() <= usize::MAX,
    ensures
        scan_rest(s, p, nt) == scan_rest(t, p, nt),
{
    lemma_case_scan_literal(s, t, p, single(82));
    lemma_scan_literal(s, p, single(82));
    if let Ok(e) = scan_literal(s, p, single(82)) {
        lemma_case_scan_length(s, t, e, nt);
        lemma_scan_length(s, e, nt);
        if let Ok((d, e2)) = scan_length(s, e, nt) {
            lemma_case_scan_rest_ties(s, t, e2, nt, d);
        }
    }
}

/// `scan_expected_literal` at `p` agrees on both texts and, where it succeeds, ends
/// within the text.
proof fn lemma_case_expect_lit(s: Seq<u8>, t: Seq<u8>, p: int, c: u8)
    requires
        same_but_case(s, t),
        0 <= p <= s.len(),
    ensures
        scan_expected_literal(s, p, c) == scan_expected_literal(t, p, c),
        scan_expected_literal(s, p, c) matches Ok(e) ==> p <= e <= s.len(),
{
    lemma_case_scan_literal(s, t, p, single(c));
    lemma_scan_literal(s, p, single(c));
}

/// `scan_expected` at `p` agrees on both texts and, where it reads a value, ends within
/// the text.
proof fn lemma_case_expect_num(s: Seq<u8>, t: Seq<u8>, p: int, param: MmlParam, lo: i32, hi: i32)
    requires
        same_but_case(s, t),
        0 <= p <= s.len(),
        s.len() <= usize::MAX,
    ensures
        scan_expected(s, p, param, lo, hi) == scan_expected(t, p, param, lo, hi),
        scan_expected(s, p, param, lo, hi) matches CmdScan::Value { end, .. } ==> p <= end <= s.len(),
{
    lemma_case_scan_command(s, t, p, single(0), param, lo, hi);
    lemma_scan_expected(s, p, param, lo, hi);
}

proof fn lemma_case_env_segments(s: Seq<u8>, t: Seq<u8>, p: int, segs: Seq<(u32, u32)>)
    requires
        same_but_case(s, t),
        0 <= p <= s.len(),
        s.len() <= usize::MAX,
    ensures
        scan_env_segments(s, p, segs) == scan_env_segments(t, p, segs),
    decreases s.len() - p,
{
    lemma_case_scan_literal(s, t, p, single(125));
    lemma_scan_literal(s, p, single(125));
    if let Err((at, _)) = scan_literal(s, p, single(125)) {
        lemma_case_expect_lit(s, t, at, 44);
        if let Ok(e1) = scan_expected_literal(s, at, 44) {
            lemma_case_expect_num(s, t, e1, MmlParam::DurTicks, 0, i32::MAX);
            if let CmdScan::Value { value: d, end: e2 } = scan_expected(s, e1, MmlParam::DurTicks, 0, i32::MAX) {
                lemma_case_expect_lit(s, t, e2, 44);
                if let Ok(e3) = scan_expected_literal(s, e2, 44) {
                    lemma_case_expect_num(s, t, e3, MmlParam::Vol, 0, 127);
                    if let CmdScan::Value { value: v, end: e4 } = scan_expected(s, e3, MmlParam::Vol, 0, 127) {
                        if p < e4 <= s.len() {
                            lemma_case_env_segments(s, t, e4, segs.push((d as u32, v as u32)));
                        }
                    }
                }
            }
        }
    }
}

/// The `{` that may follow an effect slot, read alike on both texts.
proof fn lemma_case_brace(s: Seq<u8>, t: Seq<u8>, lit: Seq<u8>, p: int, param: MmlParam)
    requires
        same_but_case(s, t),
        0 <= p <= s.len(),
        s.len() <= usize::MAX,
    ensures
        scan_command(s, p, lit, param, 0, i32::MAX) == scan_command(t, p, lit, param, 0, i32::MAX),
        scan_command(s, p, lit, param, 0, i32::MAX) matches CmdScan::Value { end, .. } ==> {
            &&& scan_literal(s, end, single(123)) == scan_literal(t, end, single(123))
            &&& scan_literal(s, end, single(123)) matches Ok(e1) ==> 0 <= e1 <= s.len()
        },
{
    lemma_case_scan_command(s, t, p, lit, param, 0, i32::MAX);
    lemma_scan_command(s, p, lit, param, 0, i32::MAX);
    if let CmdScan::Value { end, .. } = scan_command(s, p, lit, param, 0, i32::MAX) {
        lemma_case_scan_literal(s, t, end, single(123));
        lemma_scan_literal(s, end, single(123));
    }
}

proof fn lemma_case_scan_envelope(s: Seq<u8>, t: Seq<u8>, p: int)
    requires
        same_but_case(s, t),
        0 <= p <= s.len(),
        s.len() <= usize::MAX,
    ensures
        scan_envelope(s, p) == scan_envelope(t, p),
{
    lemma_case_brace(s, t, lit_env(), p, MmlParam::Envelope);
    if let CmdScan::Value { end: e, .. } = scan_command(s, p, lit_env(), MmlParam::Envelope, 0, i32::MAX) {
        if let Ok(e1) = scan_literal(s, e, single(123)) {
            lemma_case_expect_num(s, t, e1, MmlParam::InitVol, 0, 127);
            if let CmdScan::Value { end: e2, .. } = scan_expected(s, e1, MmlParam::InitVol, 0, 127) {
                lemma_case_env_segments(s, t, e2, Seq::empty());
            }
        }
    }
}

proof fn lemma_case_scan_vibrato(s: Seq<u8>, t: Seq<u8>, p: int)
    requires
        same_but_case(s, t),
        0 <= p <= s.len(),
        s.len() <= usize::MAX,
    ensures
        scan_vibrato(s, p) == scan_vibrato(t, p),
{
    lemma_case_brace(s, t, lit_vib(), p, MmlParam::Vibrato);
    if let CmdScan::Value { end: e, .. } = scan_command(s, p, lit_vib(), MmlParam::Vibrato, 0, i32::MAX) {
        if let Ok(e1) = scan_literal(s, e, single(123)) {
            lemma_case_expect_num(s, t, e1, MmlParam::DelayTicks, 0, i32::MAX);
            if let CmdScan::Value { end: e2, .. } = scan_expected(s, e1, MmlParam::DelayTicks, 0, i32::MAX) {
                lemma_case_expect_lit(s, t, e2, 44);
                if let Ok(e3) = scan_expected_literal(s, e2, 44) {
                    lemma_case_expect_num(s, t, e3, MmlParam::PeriodTicks, 0, i32::MAX);
                    if let CmdScan::Value { end: e4, .. } = scan_expected(s, e3, MmlParam::PeriodTicks, 0, i32::MAX) {
                        lemma_case_expect_lit(s, t, e4, 44);
                        if let Ok(e5) = scan_expected_literal(s, e4, 44) {
                            lemma_case_expect_num(s, t, e5, MmlParam::DepthCents, i32::MIN, i32::MAX);
                            if let CmdScan::Value { end: e6, .. } = scan_expected(s, e5, MmlParam::DepthCents, i32::MIN, i32::MAX) {
                                lemma_case_expect_lit(s, t, e6, 125);
                            }
                        }
                    }
                }
            }
        }
    }
}

proof fn lemma_case_scan_wild(s: Seq<u8>, t: Seq<u8>, p: int, param: MmlParam, lo: i32, hi: i32)
    requires
        same_but_case(s, t),
        0 <= p <= s.len(),
        s.len() <= usize::MAX,
    ensures
        scan_wild(s, p, param, lo, hi) == scan_wild(t, p, param, lo, hi),
        scan_wild(s, p, param, lo, hi) matches Ok((_, e)) ==> p <= e <= s.len(),
{
    lemma_case_scan_literal(s, t, p, single(42));
    lemma_scan_literal(s, p, single(42));
    if let Err((at, _)) = scan_literal(s, p, single(42)) {
        lemma_case_expect_num(s, t, at, param, lo, hi);
    }
}

proof fn lemma_case_scan_glide(s: Seq<u8>, t: Seq<u8>, p: int)
    requires
        same_but_case(s, t),
        0 <= p <= s.len(),
        s.len() <= usize::MAX,
    ensures
        scan_glide(s, p) == scan_glide(t, p),
{
    lemma_case_brace(s, t, lit_gli(), p, MmlParam::Glide);
    if let CmdScan::Value { end: e, .. } = scan_command(s, p, lit_gli(), MmlParam::Glide, 0, i32::MAX) {
        if let Ok(e1) = scan_literal(s, e, single(123)) {
            lemma_case_scan_wild(s, t, e1, MmlParam::OffsetCents, i32::MIN, i32::MAX);
            if let Ok((_, e2)) = scan_wild(s, e1, MmlParam::OffsetCents, i32::MIN, i32::MAX) {
                lemma_case_expect_lit(s, t, e2, 44);
                if let Ok(e3) = scan_expected_literal(s, e2, 44) {
                    lemma_case_scan_wild(s, t, e3, MmlParam::DurTicks, 0, i32::MAX);
                    if let Ok((_, e4)) = scan_wild(s, e3, MmlParam::DurTicks, 0, i32::MAX) {
                        lemma_case_expect_lit(s, t, e4, 125);
                    }
                }
            }
        }
    }
}

/// Two steps that agree but for the byte an unexpected-character error reports.
pub open spec fn steps_alike(a: MmlStep, b: MmlStep) -> bool {
    match (a, b) {
        (MmlStep::Next { st: x }, MmlStep::Next { st: y }) => x == y,
        (MmlStep::Fail { err: e1 }, MmlStep::Fail { err: e2 }) => e1.pos == e2.pos,
        (MmlStep::Stuck, MmlStep::Stuck) => true,
        _ => false,
    }
}

proof fn lemma_case_step_repeat(s: Seq<u8>, t: Seq<u8>, st: MmlScanState, p: int)
    requires
        same_but_case(s, t),
        0 <= p <= s.len(),
        s.len() <= usize::MAX,
    ensures
        steps_alike(step_repeat(s, st, p), step_repeat(t, st, p)),
{
    reveal(step_repeat);
    lemma_case_scan_literal(s, t, p, single(91));
    lemma_scan_literal(s, p, single(91));
    if let Err((a1, _)) = scan_literal(s, p, single(91)) {
        lemma_case_scan_literal(s, t, a1, single(93));
        lemma_scan_literal(s, a1, single(93));
        if let Ok(e) = scan_literal(s, a1, single(93)) {
            lemma_case_scan_number(s, t, e, MmlParam::Count, 1, i32::MAX);
        }
    }
}

proof fn lemma_case_step_rest(s: Seq<u8>, t: Seq<u8>, st: MmlScanState, p: int)
    requires
        same_but_case(s, t),
        0 <= p <= s.len(),
        s.len() <= usize::MAX,
    ensures
        steps_alike(step_rest(s, st, p), step_rest(t, st, p)),
{
    reveal(step_rest);
    lemma_case_scan_rest(s, t, p, st.note_ticks);
    lemma_scan_literal(s, p, single(82));
    if let RestScan::NoRest { at } = scan_rest(s, p, st.note_ticks) {
        lemma_case_step_repeat(s, t, st, at);
    }
}

proof fn lemma_case_step_note(s: Seq<u8>, t: Seq<u8>, st: MmlScanState, p: int)
    requires
        same_but_case(s, t),
        0 <= p <= s.len(),
        s.len() <= usize::MAX,
    ensures
        steps_alike(step_note(s, st, p), step_note(t, st, p)),
{
    reveal(step_note);
    lemma_case_scan_note(s, t, p, st.octave, st.note_ticks);
    lemma_skip_ws(s, p);
    if let NoteScan::NoNote { at } = scan_note(s, p, st.octave, st.note_ticks) {
        lemma_case_step_rest(s, t, st, at);
    }
}

proof fn lemma_case_step_length(s: Seq<u8>, t: Seq<u8>, st: MmlScanState, p: int)
    requires
        same_but_case(s, t),
        0 <= p <= s.len(),
        s.len() <= usize::MAX,
    ensures
        steps_alike(step_length(s, st, p), step_length(t, st, p)),
{
    reveal(step_length);
    lemma_case_scan_literal(s, t, p, single(76));
    lemma_scan_literal(s, p, single(76));
    match scan_literal(s, p, single(76)) {
        Ok(e) => { lemma_case_scan_length(s, t, e, st.note_ticks); },
        Err((at, _)) => { lemma_case_step_note(s, t, st, at); },
    }
}

proof fn lemma_case_step_octave(s: Seq<u8>, t: Seq<u8>, st: MmlScanState, p: int)
    requires
        same_but_case(s, t),
        0 <= p <= s.len(),
        s.len() <= usize::MAX,
    ensures
        steps_alike(step_octave(s, st, p), step_octave(t, st, p)),
{
    reveal(step_octave);
    lemma_case_scan_command(s, t, p, single(79), MmlParam::Octave, -1i32, 9i32);
    lemma_scan_command(s, p, single(79), MmlParam::Octave, -1i32, 9i32);
    if let CmdScan::NoMatch { at } = scan_command(s, p, single(79), MmlParam::Octave, -1i32, 9i32) {
        lemma_case_scan_literal(s, t, at, single(62));
        lemma_scan_literal(s, at, single(62));
        if let Err((a1, _)) = scan_literal(s, at, single(62)) {
            lemma_case_scan_literal(s, t, a1, single(60));
            lemma_scan_literal(s, a1, single(60));
            if let Err((a2, _)) = scan_literal(s, a1, single(60)) {
                lemma_case_step_length(s, t, st, a2);
            }
        }
    }
}

proof fn lemma_case_step_tone(s: Seq<u8>, t: Seq<u8>, st: MmlScanState, p: int)
    requires
        same_but_case(s, t),
        0 <= p <= s.len(),
        s.len() <= usize::MAX,
    ensures
        steps_alike(step_tone(s, st, p), step_tone(t, st, p)),
{
    reveal(step_tone);
    lemma_case_scan_command(s, t, p, single(64), MmlParam::Tone, 0, i32::MAX);
    lemma_scan_command(s, p, single(64), MmlParam::Tone, 0, i32::MAX);
    if let CmdScan::NoMatch { at } = scan_command(s, p, single(64), MmlParam::Tone, 0, i32::MAX) {
        lemma_case_step_octave(s, t, st, at);
    }
}

proof fn lemma_case_step_glide(s: Seq<u8>, t: Seq<u8>, st: MmlScanState, p: int)
    requires
        same_but_case(s, t),
        0 <= p <= s.len(),
        s.len() <= usize::MAX,
    ensures
        steps_alike(step_glide(s, st, p), step_glide(t, st, p)),
{
    reveal(step_glide);
    lemma_case_scan_glide(s, t, p);
    lemma_scan_command(s, p, lit_gli(), MmlParam::Glide, 0, i32::MAX);
    if let EffScan::NoEffect { at } = scan_glide(s, p) {
        lemma_case_step_tone(s, t, st, at);
    }
}

proof fn lemma_case_step_vibrato(s: Seq<u8>, t: Seq<u8>, st: MmlScanState, p: int)
    requires
        same_but_case(s, t),
        0 <= p <= s.len(),
        s.len() <= usize::MAX,
    ensures
        steps_alike(step_vibrato(s, st, p), step_vibrato(t, st, p)),
{
    reveal(step_vibrato);
    lemma_case_scan_vibrato(s, t, p);
    lemma_scan_command(s, p, lit_vib(), MmlParam::Vibrato, 0, i32::MAX);
    if let EffScan::NoEffect { at } = scan_vibrato(s, p) {
        lemma_case_step_glide(s, t, st, at);
    }
}

proof fn lemma_case_step_envelope(s: Seq<u8>, t: Seq<u8>, st: MmlScanState, p: int)
    requires
        same_but_case(s, t),
        0 <= p <= s.len(),
        s.len() <= usize::MAX,
    ensures
        steps_alike(step_envelope(s, st, p), step_envelope(t, st, p)),
{
    reveal(step_envelope);
    lemma_case_scan_envelope(s, t, p);
    lemma_scan_command(s, p, lit_env(), MmlParam::Envelope, 0, i32::MAX);
    if let EffScan::NoEffect { at } = scan_envelope(s, p) {
        lemma_case_step_vibrato(s, t, st, at);
    }
}

proof fn lemma_case_step_detune(s: Seq<u8>, t: Seq<u8>, st: MmlScanState, p: int)
    requires
        same_but_case(s, t),
        0 <= p <= s.len(),
        s.len() <= usize::MAX,
    ensures
        steps_alike(step_detune(s, st, p), step_detune(t, st, p)),
{
    reveal(step_detune);
    lemma_case_scan_command(s, t, p, single(89), MmlParam::Detune, i32::MIN, i32::MAX);
    lemma_scan_command(s, p, single(89), MmlParam::Detune, i32::MIN, i32::MAX);
    if let CmdScan::NoMatch { at } = scan_command(s, p, single(89), MmlParam::Detune, i32::MIN, i32::MAX) {
        lemma_case_step_envelope(s, t, st, at);
    }
}

proof fn lemma_case_step_transpose(s: Seq<u8>, t: Seq<u8>, st: MmlScanState, p: int)
    requires
        same_but_case(s, t),
        0 <= p <= s.len(),
        s.len() <= usize::MAX,
    ensures
        steps_alike(step_transpose(s, st, p), step_transpose(t, st, p)),
{
    reveal(step_transpose);
    lemma_case_scan_command(s, t, p, single(75), MmlParam::Transpose, i32::MIN, i32::MAX);
    lemma_scan_command(s, p, single(75), MmlParam::Transpose, i32::MIN, i32::MAX);
    if let CmdScan::NoMatch { at } = scan_command(s, p, single(75), MmlParam::Transpose, i32::MIN, i32::MAX) {
        lemma_case_step_detune(s, t, st, at);
    }
}

proof fn lemma_case_step_volume(s: Seq<u8>, t: Seq<u8>, st: MmlScanState, p: int)
    requires
        same_but_case(s, t),
        0 <= p <= s.len(),
        s.len() <= usize::MAX,
    ensures
        steps_alike(step_volume(s, st, p), step_volume(t, st, p)),
{
    reveal(step_volume);
    lemma_case_scan_command(s, t, p, single(86), MmlParam::Volume, 0, 127);
    lemma_scan_command(s, p, single(86), MmlParam::Volume, 0, 127);
    if let CmdScan::NoMatch { at } = scan_command(s, p, single(86), MmlParam::Volume, 0, 127) {
        lemma_case_step_transpose(s, t, st, at);
    }
}

proof fn lemma_case_step_quantize(s: Seq<u8>, t: Seq<u8>, st: MmlScanState, p: int)
    requires
        same_but_case(s, t),
        0 <= p <= s.len(),
        s.len() <= usize::MAX,
    ensures
        steps_alike(step_quantize(s, st, p), step_quantize(t, st, p)),
{
    reveal(step_quantize);
    lemma_case_scan_command(s, t, p, single(81), MmlParam::Quantize, 0, 100);
    lemma_scan_command(s, p, single(81), MmlParam::Quantize, 0, 100);
    if let CmdScan::NoMatch { at } = scan_command(s, p, single(81), MmlParam::Quantize, 0, 100) {
        lemma_case_step_volume(s, t, st, at);
    }
}

proof fn lemma_case_step_tempo(s: Seq<u8>, t: Seq<u8>, st: MmlScanState, p: int)
    requires
        same_but_case(s, t),
        0 <= p <= s.len(),
        s.len() <= usize::MAX,
    ensures
        steps_alike(step_tempo(s, st, p), step_tempo(t, st, p)),
{
    reveal(step_tempo);
    lemma_case_scan_command(s, t, p, single(84), MmlParam::Tempo, 1, i32::MAX);
    lemma_scan_command(s, p, single(84), MmlParam::Tempo, 1, i32::MAX);
    if let CmdScan::NoMatch { at } = scan_command(s, p, single(84), MmlParam::Tempo, 1, i32::MAX) {
        lemma_case_step_quantize(s, t, st, at);
    }
}

/// Two parse outcomes that agree but for the byte an unexpected-character error reports.
pub open spec fn outcomes_alike(a: MmlOutcome, b: MmlOutcome) -> bool {
    match (a, b) {
        (MmlOutcome::Done { commands: c1 }, MmlOutcome::Done { commands: c2 }) => c1 == c2,
        (MmlOutcome::Fail { err: e1 }, MmlOutcome::Fail { err: e2 }) => e1.pos == e2.pos,
        (MmlOutcome::Stuck, MmlOutcome::Stuck) => true,
        _ => false,
    }
}

proof fn lemma_case_mml_run(s: Seq<u8>, t: Seq<u8>, st: MmlScanState)
    requires
        same_but_case(s, t),
        0 <= st.pos,
        s.len() <= usize::MAX,
    ensures
        outcomes_alike(mml_run(s, st), mml_run(t, st)),
    decreases s.len() - st.pos,
{
    if st.pos < s.len() {
        lemma_case_step_tempo(s, t, st, st.pos);
        if let MmlStep::Next { st: st2 } = mml_step(s, st) {
            if st.pos < st2.pos <= s.len() {
                lemma_case_mml_run(s, t, st2);
            }
        }
    }
}

/// Command letters and note names are read without regard to case: two texts that differ
/// only in the case of ASCII letters give the same commands, or both fail at the same
/// position, or both find nothing to report.
pub proof fn lemma_mml_case_insensitive(s: Seq<u8>, t: Seq<u8>)
    requires
        same_but_case(s, t),
        s.len() <= usize::MAX,
    ensures
        outcomes_alike(mml_parse(s), mml_parse(t)),
{
    lemma_case_mml_run(s, t, initial_state());
}

/// A note of the pitch that the previous note was tied to (`&`) joins it: its length is
/// added to that note's and no command is added.
pub proof fn lemma_tie_joins_note(st: MmlScanState, end: int, m: int, d: int, connected: bool, i: int)
    requires
        st.connected_note == Some(m as u32),
        0 <= m <= u32::MAX,
        st.last_note_index == Some(i),
        0 <= i < st.commands.len(),
        st.commands[i] is Note,
    ensures
        apply_note(st, end, m, d, connected).commands == st.commands.update(i, MmlCommandView::Note {
            midi_note: st.commands[i]->Note_midi_note,
            duration_ticks: (st.commands[i]->Note_duration_ticks + d) as u32,
        }),
        apply_note(st, end, m, d, connected).pos == end,
{
    reveal(apply_note);
}

/// A note or rest without a length number takes the current length, then its dots.
pub proof fn lemma_missing_length_is_current(s: Seq<u8>, p: int, nt: int)
    requires
        scan_number(s, p, MmlParam::NoteLength, 1, 192) is Absent,
    ensures
        scan_length(s, p, nt) == scan_dots(s, scan_number(s, p, MmlParam::NoteLength, 1, 192)->Absent_at, nt, nt),
{
}

/// A dot after a length whose added part is odd is an error at the dot's end.
pub proof fn lemma_odd_dot_fails(s: Seq<u8>, p: int, ticks: int, dot: int)
    requires
        scan_literal(s, p, single(46)) is Ok,
        dot % 2 == 1,
    ensures
        scan_dots(s, p, ticks, dot) == Err::<(int, int), MmlError>(MmlError {
            pos: scan_literal(s, p, single(46))->Ok_0 as usize,
            kind: MmlErrorKind::OddDottedLength,
        }),
{
}

} // verus!
