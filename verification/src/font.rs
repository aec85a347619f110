use vstd::prelude::*;

use std::collections::HashMap;

use crate::image::hex_digit;
use crate::old_resource_data::{all_decimal, chars_of, copy_range, decimal_value, hex_group_value, without_plus};

verus! {

broadcast use vstd::std_specs::hash::group_hash_axioms;

/// A box: its size and the offset of its lower-left corner.
#[derive(Clone, Copy, Debug, PartialEq, Eq, Structural)]
pub struct BdfBoundingBox {
    pub width: i32,
    pub height: i32,
    pub x: i32,
    pub y: i32,
}

/// A glyph of a bitmap font: its advance, its box, and its rows, each with the leftmost
/// pixel in bit 0.
pub struct BdfGlyph {
    pub dwidth: i32,
    pub bbx: BdfBoundingBox,
    pub bitmap: Vec<u32>,
}

/// What a glyph holds.
pub struct BdfGlyphView {
    pub dwidth: i32,
    pub bbx: BdfBoundingBox,
    pub bitmap: Seq<u32>,
}

impl View for BdfGlyph {
    type V = BdfGlyphView;

    open spec fn view(&self) -> BdfGlyphView {
        BdfGlyphView { dwidth: self.dwidth, bbx: self.bbx, bitmap: self.bitmap@ }
    }
}

/// A bitmap font read from BDF text: the font's box and its glyphs by code point.
pub struct BdfFont {
    pub bounding_box: BdfBoundingBox,
    pub glyphs: HashMap<i32, BdfGlyph>,
}

/// The font's glyphs by code point.
pub open spec fn glyph_views(glyphs: Map<i32, BdfGlyph>) -> Map<i32, BdfGlyphView> {
    glyphs.map_values(|g: BdfGlyph| g@)
}

/// Why BDF text was refused: the index of the offending line.
#[derive(Clone, Copy, Debug, PartialEq, Eq)]
pub struct BdfParseError {
    pub line: usize,
}

/// `char::is_whitespace`: the characters with the Unicode `White_Space` property.
pub open spec fn is_ws(c: char) -> bool {
    ('\t' <= c && c <= '\r') || c == ' ' || c == '\u{85}' || c == '\u{a0}' || c == '\u{1680}'
        || ('\u{2000}' <= c && c <= '\u{200a}') || c == '\u{2028}' || c == '\u{2029}'
        || c == '\u{202f}' || c == '\u{205f}' || c == '\u{3000}'
}

/// The first index at or after `i` whose character is (`ws`) or is not (`!ws`) white space.
pub open spec fn next_ws(s: Seq<char>, i: int, ws: bool) -> int
    decreases s.len() - i,
{
    if i < 0 || i >= s.len() {
        s.len() as int
    } else if is_ws(s[i]) == ws {
        i
    } else {
        next_ws(s, i + 1, ws)
    }
}

/// The words of `s` from index `i`, as `str::split_whitespace` gives them.
pub open spec fn words_from(s: Seq<char>, i: int) -> Seq<Seq<char>>
    decreases s.len() - i,
{
    let j = next_ws(s, i, false);
    if i < 0 || j < i || j >= s.len() {
        Seq::empty()
    } else {
        let e = next_ws(s, j, true);
        if e <= j || e > s.len() {
            Seq::empty()
        } else {
            seq![s.subrange(j, e)] + words_from(s, e)
        }
    }
}

/// One past the last character of `s[..end]` that is not white space (0 if none).
pub open spec fn trim_end_at(s: Seq<char>, end: int) -> int
    decreases end,
{
    if end <= 0 || end > s.len() {
        0
    } else if !is_ws(s[end - 1]) {
        end
    } else {
        trim_end_at(s, end - 1)
    }
}

/// `str::trim`: `s` without leading and trailing white space.
pub open spec fn trimmed(s: Seq<char>) -> Seq<char> {
    let a = next_ws(s, 0, false);
    let b = trim_end_at(s, s.len() as int);
    if a >= b {
        Seq::empty()
    } else {
        s.subrange(a, b)
    }
}

/// Whether `s` begins with `p`.
pub open spec fn starts_with(s: Seq<char>, p: Seq<char>) -> bool {
    p.len() <= s.len() && s.subrange(0, p.len() as int) == p
}

/// The text after an optional leading sign.
pub open spec fn without_sign(p: Seq<char>) -> Seq<char> {
    if p.len() > 0 && (p[0] == '-' || p[0] == '+') {
        p.drop_first()
    } else {
        p
    }
}

/// `i32::from_str`: an optional sign, at least one decimal digit, a value that fits.
pub open spec fn parse_i32(p: Seq<char>) -> Option<i32> {
    let neg = p.len() > 0 && p[0] == '-';
    let d = without_sign(p);
    if d.len() == 0 || !all_decimal(d) {
        None
    } else if neg {
        if decimal_value(d) > 0x8000_0000 { None } else { Some((-decimal_value(d)) as i32) }
    } else {
        if decimal_value(d) > i32::MAX { None } else { Some(decimal_value(d) as i32) }
    }
}

/// Whether every character is a hexadecimal digit.
pub open spec fn all_hex(d: Seq<char>) -> bool {
    forall|i: int| 0 <= i < d.len() ==> hex_digit(#[trigger] d[i]) is Some
}

/// `u32::from_str_radix(_, 16)`: an optional `+`, at least one hexadecimal digit, a value
/// that fits.
pub open spec fn parse_hex_u32(p: Seq<char>) -> Option<u32> {
    let d = without_plus(p);
    if d.len() == 0 || !all_hex(d) || hex_group_value(d) > u32::MAX {
        None
    } else {
        Some(hex_group_value(d) as u32)
    }
}

/// `2` to the power `n`.
pub open spec fn pow2(n: nat) -> nat
    decreases n,
{
    if n == 0 {
        1
    } else {
        2 * pow2((n - 1) as nat)
    }
}

/// The low `n` bits of `b` in reverse order.
pub open spec fn reversed_bits(b: int, n: nat) -> int
    decreases n,
{
    if n == 0 {
        0
    } else {
        (b % 2) * pow2((n - 1) as nat) + reversed_bits(b / 2, (n - 1) as nat)
    }
}

/// A box from the words after the keyword: at least four, all integers; the first four
/// are width, height, x and y.
pub open spec fn parse_bbox(line: Seq<char>) -> Option<BdfBoundingBox> {
    let w = words_from(line, 0);
    if exists|k: int| 1 <= k < w.len() && #[trigger] parse_i32(w[k]) is None {
        None
    } else if w.len() < 5 {
        None
    } else {
        Some(BdfBoundingBox {
            width: parse_i32(w[1])->0,
            height: parse_i32(w[2])->0,
            x: parse_i32(w[3])->0,
            y: parse_i32(w[4])->0,
        })
    }
}

/// The integer after the keyword.
pub open spec fn second_i32(line: Seq<char>) -> Option<i32> {
    let w = words_from(line, 0);
    if w.len() < 2 {
        None
    } else {
        parse_i32(w[1])
    }
}

pub open spec fn kw_fontboundingbox() -> Seq<char> {
    seq!['F', 'O', 'N', 'T', 'B', 'O', 'U', 'N', 'D', 'I', 'N', 'G', 'B', 'O', 'X']
}

pub open spec fn kw_encoding() -> Seq<char> {
    seq!['E', 'N', 'C', 'O', 'D', 'I', 'N', 'G']
}

pub open spec fn kw_dwidth() -> Seq<char> {
    seq!['D', 'W', 'I', 'D', 'T', 'H']
}

pub open spec fn kw_bbx() -> Seq<char> {
    seq!['B', 'B', 'X']
}

pub open spec fn kw_bitmap() -> Seq<char> {
    seq!['B', 'I', 'T', 'M', 'A', 'P']
}

pub open spec fn kw_endchar() -> Seq<char> {
    seq!['E', 'N', 'D', 'C', 'H', 'A', 'R']
}

/// What the reader keeps between lines.
pub struct BdfState {
    pub bounding_box: BdfBoundingBox,
    pub glyphs: Map<i32, BdfGlyphView>,
    pub code: Option<i32>,
    pub bitmap: Option<Seq<u32>>,
    pub dwidth: i32,
    pub bbx: BdfBoundingBox,
}

/// The result of reading one line.
pub enum BdfStep {
    Next(BdfState),
    Fail,
    /// A bitmap row of more than eight characters that still reads as a number; the
    /// row cannot be placed in 32 bits.
    Overlong,
}

/// Reads one line of BDF text.
pub open spec fn bdf_step(st: BdfState, line: Seq<char>) -> BdfStep {
    if starts_with(line, kw_fontboundingbox()) {
        match parse_bbox(line) {
            Some(b) => BdfStep::Next(BdfState { bounding_box: b, ..st }),
            None => BdfStep::Fail,
        }
    } else if starts_with(line, kw_encoding()) {
        match second_i32(line) {
            Some(c) => BdfStep::Next(BdfState { code: Some(c), ..st }),
            None => BdfStep::Fail,
        }
    } else if starts_with(line, kw_dwidth()) {
        match second_i32(line) {
            Some(d) => BdfStep::Next(BdfState { dwidth: d, ..st }),
            None => BdfStep::Fail,
        }
    } else if starts_with(line, kw_bbx()) {
        match parse_bbox(line) {
            Some(b) => BdfStep::Next(BdfState { bbx: b, ..st }),
            None => BdfStep::Fail,
        }
    } else if starts_with(line, kw_bitmap()) {
        BdfStep::Next(BdfState { bitmap: Some(Seq::empty()), ..st })
    } else if starts_with(line, kw_endchar()) {
        match (st.code, st.bitmap) {
            (Some(c), Some(rows)) => BdfStep::Next(BdfState {
                glyphs: st.glyphs.insert(c, BdfGlyphView { dwidth: st.dwidth, bbx: st.bbx, bitmap: rows }),
                bitmap: None,
                ..st
            }),
            _ => BdfStep::Next(BdfState { bitmap: None, ..st }),
        }
    } else {
        match st.bitmap {
            Some(rows) => {
                let hex = trimmed(line);
                match parse_hex_u32(hex) {
                    None => BdfStep::Fail,
                    Some(bits) => if hex.len() > 8 {
                        BdfStep::Overlong
                    } else {
                        BdfStep::Next(BdfState {
                            bitmap: Some(rows.push(reversed_bits(bits as int, (hex.len() * 4) as nat) as u32)),
                            ..st
                        })
                    },
                }
            },
            None => BdfStep::Next(st),
        }
    }
}

/// The outcome of reading lines `i..`.
pub enum BdfOutcome {
    Done(BdfState),
    Fail { line: int },
    Overlong,
}

pub open spec fn bdf_run(lines: Seq<Seq<char>>, i: int, st: BdfState) -> BdfOutcome
    decreases lines.len() - i,
{
    if i < 0 || i >= lines.len() {
        BdfOutcome::Done(st)
    } else {
        match bdf_step(st, lines[i]) {
            BdfStep::Next(next) => bdf_run(lines, i + 1, next),
            BdfStep::Fail => BdfOutcome::Fail { line: i },
            BdfStep::Overlong => BdfOutcome::Overlong,
        }
    }
}

/// The reader's state before the first line.
pub open spec fn bdf_start() -> BdfState {
    let zero = BdfBoundingBox { width: 0, height: 0, x: 0, y: 0 };
    BdfState { bounding_box: zero, glyphs: Map::empty(), code: None, bitmap: None, dwidth: 0, bbx: zero }
}

/// Reading BDF text given as its lines.
pub open spec fn bdf_parse(lines: Seq<Seq<char>>) -> BdfOutcome {
    bdf_run(lines, 0, bdf_start())
}

fn is_ws_char(c: char) -> (r: bool)
    ensures
        r == is_ws(c),
{
    ('\t' <= c && c <= '\r') || c == ' ' || c == '\u{85}' || c == '\u{a0}' || c == '\u{1680}'
        || ('\u{2000}' <= c && c <= '\u{200a}') || c == '\u{2028}' || c == '\u{2029}'
        || c == '\u{202f}' || c == '\u{205f}' || c == '\u{3000}'
}

pub(crate) proof fn lemma_next_ws(s: Seq<char>, i: int, ws: bool)
    requires
        0 <= i <= s.len(),
    ensures
        i <= next_ws(s, i, ws) <= s.len(),
        next_ws(s, i, ws) < s.len() ==> is_ws(s[next_ws(s, i, ws)]) == ws,
    decreases s.len() - i,
{
    if i < s.len() && is_ws(s[i]) != ws {
        lemma_next_ws(s, i + 1, ws);
    }
}

pub(crate) fn next_ws_at(s: &Vec<char>, i: usize, ws: bool) -> (r: usize)
    requires
        i <= s@.len(),
    ensures
        r == next_ws(s@, i as int, ws),
        i <= r <= s@.len(),
{
    let mut j = i;
    while j < s.len() && is_ws_char(s[j]) != ws
        invariant
            i <= j <= s@.len(),
            next_ws(s@, i as int, ws) == next_ws(s@, j as int, ws),
        decreases s@.len() - j,
    {
        j = j + 1;
    }
    j
}

/// The words of a line (see `words_from`).
fn words(s: &Vec<char>) -> (r: Vec<Vec<char>>)
    ensures
        r@.map_values(|w: Vec<char>| w@) == words_from(s@, 0),
{
    let mut out: Vec<Vec<char>> = Vec::new();
    let mut i: usize = 0;
    loop
        invariant
            i <= s@.len(),
            out@.map_values(|w: Vec<char>| w@) + words_from(s@, i as int) == words_from(s@, 0),
        decreases s@.len() - i,
    {
        let j = next_ws_at(s, i, false);
        if j >= s.len() {
            assert(words_from(s@, i as int) == Seq::<Seq<char>>::empty());
            assert(out@.map_values(|w: Vec<char>| w@) =~= out@.map_values(|w: Vec<char>| w@) + words_from(s@, i as int));
            return out;
        }
        proof {
            lemma_next_ws(s@, i as int, false);
            lemma_next_ws(s@, j as int + 1, true);
        }
        let e = next_ws_at(s, j, true);
        assert(e > j);
        let w = copy_range(s, j, e);
        let ghost before = out@;
        out.push(w);
        assert(words_from(s@, i as int) == seq![w@] + words_from(s@, e as int));
        assert(out@.map_values(|w: Vec<char>| w@) =~= before.map_values(|w: Vec<char>| w@).push(w@));
        assert(out@.map_values(|w: Vec<char>| w@) + words_from(s@, e as int)
            =~= before.map_values(|w: Vec<char>| w@) + words_from(s@, i as int));
        i = e;
    }
}

fn trim_end(s: &Vec<char>) -> (r: usize)
    ensures
        r == trim_end_at(s@, s@.len() as int),
        r <= s@.len(),
{
    let mut end = s.len();
    while end > 0 && is_ws_char(s[end - 1])
        invariant
            end <= s@.len(),
            trim_end_at(s@, s@.len() as int) == trim_end_at(s@, end as int),
        decreases end,
    {
        end = end - 1;
    }
    end
}

/// A line without leading and trailing white space (see `trimmed`).
fn trim_chars(s: &Vec<char>) -> (r: Vec<char>)
    ensures
        r@ == trimmed(s@),
{
    let a = next_ws_at(s, 0, false);
    let b = trim_end(s);
    if a >= b {
        Vec::new()
    } else {
        copy_range(s, a, b)
    }
}

fn starts_with_chars(s: &Vec<char>, p: &[char]) -> (r: bool)
    ensures
        r == starts_with(s@, p@),
{
    if p.len() > s.len() {
        return false;
    }
    let mut i: usize = 0;
    while i < p.len()
        invariant
            i <= p@.len() <= s@.len(),
            forall|k: int| 0 <= k < i ==> s@[k] == p@[k],
        decreases p@.len() - i,
    {
        if s[i] != p[i] {
            assert(s@.subrange(0, p@.len() as int)[i as int] != p@[i as int]);
            return false;
        }
        i = i + 1;
    }
    assert(s@.subrange(0, p@.len() as int) =~= p@);
    true
}

/// `i32::from_str` (see `parse_i32`).
fn parse_i32_chars(p: &Vec<char>) -> (r: Option<i32>)
    ensures
        r == parse_i32(p@),
{
    let mut i: usize = 0;
    let neg = p.len() > 0 && p[0] == '-';
    if p.len() > 0 && (p[0] == '-' || p[0] == '+') {
        i = 1;
    }
    let ghost d = without_sign(p@);
    assert(d =~= p@.subrange(i as int, p@.len() as int));
    if i == p.len() {
        return None;
    }
    let start = i;
    let mut value: u64 = 0;
    let mut too_big = false;
    while i < p.len()
        invariant
            start <= i <= p@.len(),
            start < p@.len(),
            d == p@.subrange(start as int, p@.len() as int),
            d == without_sign(p@),
            neg == (p@.len() > 0 && p@[0] == '-'),
            d.len() > 0,
            forall|m: int| 0 <= m < i - start ==> '0' <= #[trigger] d[m] <= '9',
            !too_big ==> value == decimal_value(d.take(i - start)) && value <= 0x8000_0000,
            too_big ==> decimal_value(d.take(i - start)) > 0x8000_0000,
        decreases p@.len() - i,
    {
        let c = p[i];
        if !('0' <= c && c <= '9') {
            assert(d[i - start] == c);
            assert(!all_decimal(d));
            return None;
        }
        proof {
            let k = i - start;
            assert(d.take(k + 1).drop_last() =~= d.take(k));
            assert(d.take(k + 1).last() == c);
        }
        if !too_big {
            let next = value * 10 + (c as u64 - '0' as u64);
            if next > 0x8000_0000 {
                too_big = true;
            } else {
                value = next;
            }
        } else {
            proof {
                let k = i - start;
                assert forall|m: int| 0 <= m < k implies '0' <= #[trigger] d.take(k)[m] <= '9' by {
                    assert(d.take(k)[m] == d[m]);
                }
                lemma_decimal_nonneg_font(d.take(k));
            }
        }
        i = i + 1;
    }
    assert(d.take(d.len() as int) =~= d);
    assert(all_decimal(d));
    if too_big {
        None
    } else if neg {
        Some((0 - value as i64) as i32)
    } else if value > i32::MAX as u64 {
        None
    } else {
        Some(value as i32)
    }
}

proof fn lemma_decimal_nonneg_font(d: Seq<char>)
    requires
        forall|m: int| 0 <= m < d.len() ==> '0' <= #[trigger] d[m] <= '9',
    ensures
        decimal_value(d) >= 0,
    decreases d.len(),
{
    if d.len() > 0 {
        assert forall|m: int| 0 <= m < d.drop_last().len() implies '0' <= #[trigger] d.drop_last()[m] <= '9' by {
            assert(d.drop_last()[m] == d[m]);
        }
        lemma_decimal_nonneg_font(d.drop_last());
    }
}

proof fn lemma_hex_nonneg(d: Seq<char>)
    ensures
        hex_group_value(d) >= 0,
    decreases d.len(),
{
    if d.len() > 0 {
        lemma_hex_nonneg(d.drop_last());
    }
}

/// `u32::from_str_radix(_, 16)` (see `parse_hex_u32`).
fn parse_hex_u32_chars(p: &Vec<char>) -> (r: Option<u32>)
    ensures
        r == parse_hex_u32(p@),
{
    let mut i: usize = 0;
    if p.len() > 0 && p[0] == '+' {
        i = 1;
    }
    let ghost d = without_plus(p@);
    assert(d =~= p@.subrange(i as int, p@.len() as int));
    if i == p.len() {
        return None;
    }
    let start = i;
    let mut value: u64 = 0;
    let mut too_big = false;
    while i < p.len()
        invariant
            start <= i <= p@.len(),
            start < p@.len(),
            d == p@.subrange(start as int, p@.len() as int),
            d == without_plus(p@),
            d.len() > 0,
            forall|m: int| 0 <= m < i - start ==> hex_digit(#[trigger] d[m]) is Some,
            !too_big ==> value == hex_group_value(d.take(i - start)) && value <= u32::MAX,
            too_big ==> hex_group_value(d.take(i - start)) > u32::MAX,
        decreases p@.len() - i,
    {
        let c = p[i];
        let v = if '0' <= c && c <= '9' {
            c as u64 - '0' as u64
        } else if 'a' <= c && c <= 'f' {
            c as u64 - 'a' as u64 + 10
        } else if 'A' <= c && c <= 'F' {
            c as u64 - 'A' as u64 + 10
        } else {
            assert(d[i - start] == c);
            assert(!all_hex(d));
            return None;
        };
        proof {
            let k = i - start;
            assert(d.take(k + 1).drop_last() =~= d.take(k));
            assert(d.take(k + 1).last() == c);
            lemma_hex_nonneg(d.take(k));
        }
        if !too_big {
            let next = value * 16 + v;
            if next > u32::MAX as u64 {
                too_big = true;
            } else {
                value = next;
            }
        }
        i = i + 1;
    }
    assert(d.take(d.len() as int) =~= d);
    assert(all_hex(d));
    if too_big {
        None
    } else {
        Some(value as u32)
    }
}

proof fn lemma_reversed_bound(b: int, n: nat)
    requires
        b >= 0,
    ensures
        0 <= reversed_bits(b, n) < pow2(n),
    decreases n,
{
    if n > 0 {
        lemma_reversed_bound(b / 2, (n - 1) as nat);
        assert(pow2(n) == 2 * pow2((n - 1) as nat));
        if b % 2 == 0 {
            assert((b % 2) * pow2((n - 1) as nat) == 0);
        } else {
            assert((b % 2) * pow2((n - 1) as nat) == pow2((n - 1) as nat));
        }
    }
}

/// The low `n` bits of `b` in reverse order (see `reversed_bits`).
fn reverse_low_bits(b: u32, n: u32) -> (r: u32)
    requires
        1 <= n <= 32,
    ensures
        r == reversed_bits(b as int, n as nat),
{
    let mut place: u64 = 1;
    let mut m: u32 = 1;
    proof {
        lemma_pow2_values();
    }
    while m < n
        invariant
            1 <= m <= n <= 32,
            place == pow2((m - 1) as nat),
            place <= 0x8000_0000,
            pow2(31) == 0x8000_0000,
        decreases n - m,
    {
        proof {
            lemma_pow2_monotone(m as nat, 31);
            assert(pow2(m as nat) == 2 * pow2((m - 1) as nat));
        }
        place = place * 2;
        m = m + 1;
    }
    let mut cur: u64 = b as u64;
    let mut r: u64 = 0;
    let mut left: u32 = n;
    proof {
        lemma_reversed_bound(b as int, n as nat);
        lemma_pow2_monotone(n as nat, 32);
        lemma_pow2_values();
    }
    while left > 0
        invariant
            left <= n <= 32,
            left > 0 ==> place == pow2((left - 1) as nat),
            cur >= 0,
            r + reversed_bits(cur as int, left as nat) == reversed_bits(b as int, n as nat),
            r <= reversed_bits(b as int, n as nat),
            reversed_bits(b as int, n as nat) < pow2(n as nat),
            pow2(n as nat) <= 0x1_0000_0000,
        decreases left,
    {
        proof {
            lemma_reversed_bound(cur as int / 2, (left - 1) as nat);
        }
        r = r + (cur % 2) * place;
        cur = cur / 2;
        left = left - 1;
        if left > 0 {
            proof {
                assert(pow2(left as nat) == 2 * pow2((left - 1) as nat));
            }
            place = place / 2;
        }
    }
    r as u32
}

proof fn lemma_pow2_values()
    ensures
        pow2(31) == 0x8000_0000,
        pow2(32) == 0x1_0000_0000,
{
    reveal_with_fuel(pow2, 33);
}

proof fn lemma_pow2_monotone(a: nat, b: nat)
    requires
        a <= b,
    ensures
        pow2(a) <= pow2(b),
    decreases b - a,
{
    if a < b {
        lemma_pow2_monotone(a, (b - 1) as nat);
    }
}

/// A box from the words after a keyword (see `parse_bbox`).
fn parse_bbox_chars(line: &Vec<char>) -> (r: Option<BdfBoundingBox>)
    ensures
        r == parse_bbox(line@),
{
    let w = words(line);
    let ghost ws = words_from(line@, 0);
    assert(w@.map_values(|x: Vec<char>| x@) == ws);
    let mut values: Vec<i32> = Vec::new();
    let mut k: usize = 1;
    while k < w.len()
        invariant
            1 <= k,
            k <= w@.len() || w@.len() == 0,
            w@.map_values(|x: Vec<char>| x@) == ws,
            ws == words_from(line@, 0),
            values@.len() == if k >= 1 { k - 1 } else { 0 },
            forall|m: int| 1 <= m < k && m < ws.len() ==> #[trigger] parse_i32(ws[m]) is Some,
            forall|m: int| 1 <= m < k && m < ws.len() ==> values@[m - 1] == parse_i32(ws[m])->0,
        decreases w@.len() - k,
    {
        assert(w@[k as int]@ == ws[k as int]);
        match parse_i32_chars(&w[k]) {
            None => {
                assert(ws.len() == w@.len());
                assert(parse_i32(ws[k as int]) is None);
                assert(exists|m: int| 1 <= m < ws.len() && #[trigger] parse_i32(ws[m]) is None);
                return None;
            },
            Some(v) => {
                values.push(v);
            },
        }
        k = k + 1;
    }
    if w.len() < 5 {
        return None;
    }
    assert(forall|m: int| 1 <= m < ws.len() ==> #[trigger] parse_i32(ws[m]) is Some);
    Some(BdfBoundingBox { width: values[0], height: values[1], x: values[2], y: values[3] })
}

/// The integer after a keyword (see `second_i32`).
fn second_i32_chars(line: &Vec<char>) -> (r: Option<i32>)
    ensures
        r == second_i32(line@),
{
    let w = words(line);
    assert(w@.map_values(|x: Vec<char>| x@) == words_from(line@, 0));
    if w.len() < 2 {
        return None;
    }
    assert(w@[1]@ == words_from(line@, 0)[1]);
    parse_i32_chars(&w[1])
}

/// The font state as the specification sees it.
pub open spec fn state_of(
    bounding_box: BdfBoundingBox,
    glyphs: Map<i32, BdfGlyph>,
    code: Option<i32>,
    bitmap: Option<Seq<u32>>,
    dwidth: i32,
    bbx: BdfBoundingBox,
) -> BdfState {
    BdfState { bounding_box, glyphs: glyph_views(glyphs), code, bitmap, dwidth, bbx }
}

/// The rows of a bitmap being read.
pub open spec fn opt_view(b: Option<Vec<u32>>) -> Option<Seq<u32>> {
    match b {
        Some(v) => Some(v@),
        None => None,
    }
}

/// The lines' characters.
pub open spec fn line_views(lines: Seq<String>) -> Seq<Seq<char>> {
    lines.map_values(|l: String| l@)
}

impl BdfFont {
    /// Reads BDF text given as its lines; a row of more than eight hexadecimal characters
    /// inside a bitmap gives `None`, every other input its font or its error.
    pub fn try_parse(lines: &Vec<String>) -> (r: Option<Result<BdfFont, BdfParseError>>)
        ensures
            match bdf_parse(line_views(lines@)) {
                BdfOutcome::Overlong => r is None,
                BdfOutcome::Fail { line } => r == Some(Err::<BdfFont, BdfParseError>(BdfParseError { line: line as usize })),
                BdfOutcome::Done(st) => r matches Some(Ok(font)) && font.bounding_box == st.bounding_box
                    && glyph_views(font.glyphs@) == st.glyphs,
            },
    {
        let ghost ls = line_views(lines@);
        let zero = BdfBoundingBox { width: 0, height: 0, x: 0, y: 0 };
        let mut bounding_box = zero;
        let mut glyphs: HashMap<i32, BdfGlyph> = HashMap::new();
        let mut code: Option<i32> = None;
        let mut bitmap: Option<Vec<u32>> = None;
        let mut dwidth: i32 = 0;
        let mut bbx = zero;
        assert(glyph_views(glyphs@) =~= Map::<i32, BdfGlyphView>::empty());
        let mut i: usize = 0;
        while i < lines.len()
            invariant
                i <= lines@.len() == ls.len(),
                ls == line_views(lines@),
                bdf_parse(ls) == bdf_run(ls, i as int, state_of(bounding_box, glyphs@, code, opt_view(bitmap), dwidth, bbx)),
            decreases lines@.len() - i,
        {
            let line = chars_of(lines[i].as_str());
            assert(line@ == ls[i as int]);
            if starts_with_chars(&line, &['F', 'O', 'N', 'T', 'B', 'O', 'U', 'N', 'D', 'I', 'N', 'G', 'B', 'O', 'X']) {
                assert(['F', 'O', 'N', 'T', 'B', 'O', 'U', 'N', 'D', 'I', 'N', 'G', 'B', 'O', 'X']@ =~= kw_fontboundingbox());
                match parse_bbox_chars(&line) {
                    Some(b) => {
                        bounding_box = b;
                    },
                    None => {
                        return Some(Err(BdfParseError { line: i }));
                    },
                }
            } else if starts_with_chars(&line, &['E', 'N', 'C', 'O', 'D', 'I', 'N', 'G']) {
                assert(['F', 'O', 'N', 'T', 'B', 'O', 'U', 'N', 'D', 'I', 'N', 'G', 'B', 'O', 'X']@ =~= kw_fontboundingbox());
                assert(['E', 'N', 'C', 'O', 'D', 'I', 'N', 'G']@ =~= kw_encoding());
                match second_i32_chars(&line) {
                    Some(c) => {
                        code = Some(c);
                    },
                    None => {
                        return Some(Err(BdfParseError { line: i }));
                    },
                }
            } else if starts_with_chars(&line, &['D', 'W', 'I', 'D', 'T', 'H']) {
                assert(['F', 'O', 'N', 'T', 'B', 'O', 'U', 'N', 'D', 'I', 'N', 'G', 'B', 'O', 'X']@ =~= kw_fontboundingbox());
                assert(['E', 'N', 'C', 'O', 'D', 'I', 'N', 'G']@ =~= kw_encoding());
                assert(['D', 'W', 'I', 'D', 'T', 'H']@ =~= kw_dwidth());
                match second_i32_chars(&line) {
                    Some(d) => {
                        dwidth = d;
                    },
                    None => {
                        return Some(Err(BdfParseError { line: i }));
                    },
                }
            } else if starts_with_chars(&line, &['B', 'B', 'X']) {
                assert(['F', 'O', 'N', 'T', 'B', 'O', 'U', 'N', 'D', 'I', 'N', 'G', 'B', 'O', 'X']@ =~= kw_fontboundingbox());
                assert(['E', 'N', 'C', 'O', 'D', 'I', 'N', 'G']@ =~= kw_encoding());
                assert(['D', 'W', 'I', 'D', 'T', 'H']@ =~= kw_dwidth());
                assert(['B', 'B', 'X']@ =~= kw_bbx());
                match parse_bbox_chars(&line) {
                    Some(b) => {
                        bbx = b;
                    },
                    None => {
                        return Some(Err(BdfParseError { line: i }));
                    },
                }
            } else if starts_with_chars(&line, &['B', 'I', 'T', 'M', 'A', 'P']) {
                assert(['F', 'O', 'N', 'T', 'B', 'O', 'U', 'N', 'D', 'I', 'N', 'G', 'B', 'O', 'X']@ =~= kw_fontboundingbox());
                assert(['E', 'N', 'C', 'O', 'D', 'I', 'N', 'G']@ =~= kw_encoding());
                assert(['D', 'W', 'I', 'D', 'T', 'H']@ =~= kw_dwidth());
                assert(['B', 'B', 'X']@ =~= kw_bbx());
                assert(['B', 'I', 'T', 'M', 'A', 'P']@ =~= kw_bitmap());
                bitmap = Some(Vec::new());
                assert(opt_view(bitmap) == Some(Seq::<u32>::empty()));
            } else if starts_with_chars(&line, &['E', 'N', 'D', 'C', 'H', 'A', 'R']) {
                assert(['F', 'O', 'N', 'T', 'B', 'O', 'U', 'N', 'D', 'I', 'N', 'G', 'B', 'O', 'X']@ =~= kw_fontboundingbox());
                assert(['E', 'N', 'C', 'O', 'D', 'I', 'N', 'G']@ =~= kw_encoding());
                assert(['D', 'W', 'I', 'D', 'T', 'H']@ =~= kw_dwidth());
                assert(['B', 'B', 'X']@ =~= kw_bbx());
                assert(['B', 'I', 'T', 'M', 'A', 'P']@ =~= kw_bitmap());
                assert(['E', 'N', 'D', 'C', 'H', 'A', 'R']@ =~= kw_endchar());
                let taken = bitmap;
                bitmap = None;
                match (code, taken) {
                    (Some(c), Some(rows)) => {
                        let ghost before = glyphs@;
                        let glyph = BdfGlyph { dwidth, bbx, bitmap: rows };
                        glyphs.insert(c, glyph);
                        assert(glyph_views(glyphs@) =~= glyph_views(before).insert(c, glyph@));
                    },
                    _ => {},
                }
            } else {
                assert(['F', 'O', 'N', 'T', 'B', 'O', 'U', 'N', 'D', 'I', 'N', 'G', 'B', 'O', 'X']@ =~= kw_fontboundingbox());
                assert(['E', 'N', 'C', 'O', 'D', 'I', 'N', 'G']@ =~= kw_encoding());
                assert(['D', 'W', 'I', 'D', 'T', 'H']@ =~= kw_dwidth());
                assert(['B', 'B', 'X']@ =~= kw_bbx());
                assert(['B', 'I', 'T', 'M', 'A', 'P']@ =~= kw_bitmap());
                assert(['E', 'N', 'D', 'C', 'H', 'A', 'R']@ =~= kw_endchar());
                match bitmap {
                    Some(mut rows) => {
                        let hex = trim_chars(&line);
                        match parse_hex_u32_chars(&hex) {
                            None => {
                                return Some(Err(BdfParseError { line: i }));
                            },
                            Some(bits) => {
                                if hex.len() > 8 {
                                    return None;
                                }
                                let row = reverse_low_bits(bits, (hex.len() * 4) as u32);
                                rows.push(row);
                                bitmap = Some(rows);
                            },
                        }
                    },
                    None => {},
                }
            }
            i = i + 1;
        }
        Some(Ok(BdfFont { bounding_box, glyphs }))
    }
}

/// Characters that take no room: control characters, variation selectors, bidirectional
/// controls and zero-width characters.
pub open spec fn is_invisible(c: char) -> bool {
    c <= '\u{1f}' || ('\u{7f}' <= c && c <= '\u{9f}')
        || ('\u{fe00}' <= c && c <= '\u{fe0f}') || ('\u{e0100}' <= c && c <= '\u{e01ef}')
        || ('\u{200e}' <= c && c <= '\u{200f}') || ('\u{202a}' <= c && c <= '\u{202e}')
        || ('\u{2066}' <= c && c <= '\u{2069}')
        || c == '\u{200b}' || c == '\u{200c}' || c == '\u{200d}' || c == '\u{2060}'
}

fn invisible(c: char) -> (r: bool)
    ensures
        r == is_invisible(c),
{
    c <= '\u{1f}' || ('\u{7f}' <= c && c <= '\u{9f}')
        || ('\u{fe00}' <= c && c <= '\u{fe0f}') || ('\u{e0100}' <= c && c <= '\u{e01ef}')
        || ('\u{200e}' <= c && c <= '\u{200f}') || ('\u{202a}' <= c && c <= '\u{202e}')
        || ('\u{2066}' <= c && c <= '\u{2069}')
        || c == '\u{200b}' || c == '\u{200c}' || c == '\u{200d}' || c == '\u{2060}'
}

/// How far a character advances the pen: its glyph's advance, or 0 without a glyph.
pub open spec fn advance(glyphs: Map<i32, BdfGlyphView>, c: char) -> int {
    if glyphs.dom().contains(c as i32) {
        glyphs[c as i32].dwidth as int
    } else {
        0
    }
}

/// The pen position after character `i`, on a line that had reached `width` before it.
pub open spec fn width_after(glyphs: Map<i32, BdfGlyphView>, c: char, width: int) -> int {
    if c == '\n' {
        0
    } else if is_invisible(c) {
        width
    } else {
        width + advance(glyphs, c)
    }
}

/// The widest line of `s` from index `i`, the current line having reached `width` and
/// the earlier ones `widest`.
pub open spec fn text_width_from(glyphs: Map<i32, BdfGlyphView>, s: Seq<char>, i: int, width: int, widest: int) -> int
    decreases s.len() - i,
{
    if i < 0 || i >= s.len() {
        if widest >= width { widest } else { width }
    } else {
        let next_widest = if s[i] == '\n' && width > widest { width } else { widest };
        text_width_from(glyphs, s, i + 1, width_after(glyphs, s[i], width), next_widest)
    }
}

/// Every pen position from index `i` on fits an `i32`.
pub open spec fn widths_fit(glyphs: Map<i32, BdfGlyphView>, s: Seq<char>, i: int, width: int) -> bool
    decreases s.len() - i,
{
    if i < 0 || i >= s.len() {
        true
    } else {
        let w = width_after(glyphs, s[i], width);
        i32::MIN <= w <= i32::MAX && widths_fit(glyphs, s, i + 1, w)
    }
}

impl BdfFont {
    /// Reads BDF text given as its lines (see `try_parse`).
    pub fn parse(lines: &Vec<String>) -> (r: Result<BdfFont, BdfParseError>)
        requires
            !(bdf_parse(line_views(lines@)) is Overlong),
        ensures
            match bdf_parse(line_views(lines@)) {
                BdfOutcome::Overlong => false,
                BdfOutcome::Fail { line } => r == Err::<BdfFont, BdfParseError>(BdfParseError { line: line as usize }),
                BdfOutcome::Done(st) => r matches Ok(font) && font.bounding_box == st.bounding_box
                    && glyph_views(font.glyphs@) == st.glyphs,
            },
    {
        match Self::try_parse(lines) {
            Some(r) => r,
            None => vstd::pervasive::unreached(),
        }
    }

    /// The width of the widest line of `s`: the sum of its glyphs' advances.
    pub fn text_width(&self, s: &str) -> (r: i32)
        requires
            widths_fit(glyph_views(self.glyphs@), s@, 0, 0),
        ensures
            r == text_width_from(glyph_views(self.glyphs@), s@, 0, 0, 0),
    {
        let ghost g = glyph_views(self.glyphs@);
        let chars = chars_of(s);
        let mut max_width: i32 = 0;
        let mut width: i32 = 0;
        let mut i: usize = 0;
        while i < chars.len()
            invariant
                i <= chars@.len(),
                chars@ == s@,
                g == glyph_views(self.glyphs@),
                text_width_from(g, s@, 0, 0, 0) == text_width_from(g, s@, i as int, width as int, max_width as int),
                widths_fit(g, s@, i as int, width as int),
            decreases chars@.len() - i,
        {
            let c = chars[i];
            if c == '\n' {
                if width > max_width {
                    max_width = width;
                }
                width = 0;
            } else if !invisible(c) {
                let key = c as i32;
                assert(key == c as i32);
                let adv = match self.glyphs.get(&key) {
                    Some(glyph) => glyph.dwidth,
                    None => 0,
                };
                width = width + adv;
            }
            i = i + 1;
        }
        if width > max_width { width } else { max_width }
    }
}

/// `s[a..b]` is a line of `s`: it starts the text or follows a line break, ends the text
/// or a line break follows it, and holds no line break.
pub open spec fn is_line(s: Seq<char>, a: int, b: int) -> bool {
    &&& 0 <= a <= b <= s.len()
    &&& (a == 0 || s[a - 1] == '\n')
    &&& (b == s.len() || s[b] == '\n')
    &&& forall|k: int| a <= k < b ==> s[k] != '\n'
}

/// The sum of the advances of the visible characters of `s[a..b]`.
pub open spec fn line_width(glyphs: Map<i32, BdfGlyphView>, s: Seq<char>, a: int, b: int) -> int
    decreases b - a,
{
    if b <= a {
        0
    } else {
        line_width(glyphs, s, a, b - 1) + if is_invisible(s[b - 1]) { 0 } else { advance(glyphs, s[b - 1]) }
    }
}

/// A line that overlaps the stretch `st..e` without line breaks, bounded by a break or the
/// text's ends on both sides, is that stretch.
proof fn lemma_line_is_stretch(s: Seq<char>, a: int, b: int, st: int, e: int)
    requires
        is_line(s, a, b),
        0 <= st <= e <= s.len(),
        st <= b <= e,
        st == 0 || s[st - 1] == '\n',
        e == s.len() || s[e] == '\n',
        forall|k: int| st <= k < e ==> s[k] != '\n',
    ensures
        a == st,
        b == e,
{
    if b < e {
        assert(s[b] == '\n');
    }
    if a < st {
        assert(s[st - 1] != '\n');
    }
    if a > st {
        assert(s[a - 1] == '\n');
    }
}

/// Reading `s` from `i`, inside the line that starts at `st`, with the pen at `width` and
/// the widest finished line at `widest`, ends with the widest line of the text.
proof fn lemma_widest_from(glyphs: Map<i32, BdfGlyphView>, s: Seq<char>, i: int, st: int, width: int, widest: int)
    requires
        0 <= st <= i <= s.len(),
        st == 0 || s[st - 1] == '\n',
        forall|k: int| st <= k < i ==> s[k] != '\n',
        width == line_width(glyphs, s, st, i),
        widest >= 0,
        forall|a: int, b: int| #[trigger] is_line(s, a, b) && b < st ==> widest >= line_width(glyphs, s, a, b),
        widest == 0 || exists|a: int, b: int| #[trigger] is_line(s, a, b) && b < st && line_width(glyphs, s, a, b) == widest,
    ensures
        ({
            let r = text_width_from(glyphs, s, i, width, widest);
            &&& r >= 0
            &&& forall|a: int, b: int| #[trigger] is_line(s, a, b) ==> r >= line_width(glyphs, s, a, b)
            &&& r == 0 || exists|a: int, b: int| #[trigger] is_line(s, a, b) && line_width(glyphs, s, a, b) == r
        }),
    decreases s.len() - i,
{
    let r = text_width_from(glyphs, s, i, width, widest);
    if i >= s.len() {
        assert(is_line(s, st, i));
        assert forall|a: int, b: int| #[trigger] is_line(s, a, b) implies r >= line_width(glyphs, s, a, b) by {
            if b >= st {
                lemma_line_is_stretch(s, a, b, st, i);
            }
        }
        if r != 0 && r == width {
            assert(is_line(s, st, i) && line_width(glyphs, s, st, i) == r);
        }
    } else if s[i] == '\n' {
        assert(is_line(s, st, i));
        let widest2 = if width > widest { width } else { widest };
        assert forall|a: int, b: int| #[trigger] is_line(s, a, b) && b < i + 1 implies widest2 >= line_width(glyphs, s, a, b) by {
            if b >= st {
                lemma_line_is_stretch(s, a, b, st, i);
            }
        }
        if widest2 != 0 {
            if width > widest {
                assert(is_line(s, st, i) && i < i + 1 && line_width(glyphs, s, st, i) == widest2);
            } else {
                let (a0, b0) = choose|a: int, b: int| #[trigger] is_line(s, a, b) && b < st && line_width(glyphs, s, a, b) == widest;
                assert(is_line(s, a0, b0) && b0 < i + 1 && line_width(glyphs, s, a0, b0) == widest2);
            }
        }
        assert(line_width(glyphs, s, i + 1, i + 1) == 0);
        lemma_widest_from(glyphs, s, i + 1, i + 1, 0, widest2);
    } else {
        assert(line_width(glyphs, s, st, i + 1) == width_after(glyphs, s[i], width));
        lemma_widest_from(glyphs, s, i + 1, st, width_after(glyphs, s[i], width), widest);
    }
}

/// The width of a text is that of its widest line, the sum of the advances of the line's
/// visible characters, and at least 0: no line is wider, and unless it is 0 some line is
/// that wide.
pub proof fn lemma_text_width_is_widest_line(glyphs: Map<i32, BdfGlyphView>, s: Seq<char>)
    ensures
        text_width_from(glyphs, s, 0, 0, 0) >= 0,
        forall|a: int, b: int| #[trigger] is_line(s, a, b) ==> text_width_from(glyphs, s, 0, 0, 0) >= line_width(glyphs, s, a, b),
        text_width_from(glyphs, s, 0, 0, 0) == 0
            || exists|a: int, b: int| #[trigger] is_line(s, a, b) && line_width(glyphs, s, a, b) == text_width_from(glyphs, s, 0, 0, 0),
{
    assert(line_width(glyphs, s, 0, 0) == 0);
    lemma_widest_from(glyphs, s, 0, 0, 0, 0);
}

} // verus!
