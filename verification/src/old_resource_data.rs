use vstd::prelude::*;

use vstd::string::StrSliceExecFns;

use crate::image::hex_digit;
use crate::music::Music;

verus! {

/// Number of channels a piece of music has in the old resource format.
pub const NUM_CHANNELS: u32 = 4;

/// Rows of tiles in old tilemap data; the line after them names the image.
pub const TILEMAP_SIZE: u32 = 256;

/// Number of images a tilemap can refer to by index.
pub const NUM_IMAGES: u32 = 3;

/// Speed a sound gets when its entry is missing.
pub const DEFAULT_SOUND_SPEED: u32 = 30;

/// Why an entry of an old resource archive was refused; lines and columns count from 1.
#[derive(Debug, Clone, Copy, PartialEq, Eq)]
pub enum ResourceError {
    /// The image data has `got` lines where the image has `maximum` rows.
    TooManyImageRows { got: usize, maximum: u32 },
    /// Line `line` of the image data holds `got` digits where the image is `maximum` wide.
    TooManyImageColumns { line: usize, got: usize, maximum: u32 },
    /// The character at `line`, `column` is not a hexadecimal digit.
    InvalidHexDigit { digit: char, line: usize, column: usize },
    /// Line `line` does not split into groups of `group_width` digits.
    InvalidValueWidth { line: usize, group_width: usize },
    /// Line `line` is not a decimal number.
    InvalidDecimal { line: usize },
    /// The music data has `got` lines where there are `maximum` channels.
    TooManyMusicChannels { got: usize, maximum: u32 },
    /// Line `line` of tile data does not split into groups of `group_width` digits.
    InvalidTileWidth { line: usize, group_width: usize },
    /// Line `line` holds `got` tiles where the tilemap is `maximum` wide.
    TooManyTiles { line: usize, got: usize, maximum: u32 },
    /// The image index `index` on line `line` names no image.
    ImageIndexOutOfRange { index: u32, line: usize },
    /// The tilemap data has `got` lines where at most `maximum` are read.
    TooManyTilemapLines { got: usize, maximum: u32 },
}

/// The lines of a text, as `str::lines` gives them: split at `'\n'`, a `'\r'` before it
/// dropped, no empty line after a final line break.
pub open spec fn lines_of(s: Seq<char>) -> Seq<Seq<char>> {
    lines_from(s, 0)
}

/// The index of the first `c` at or after `i`, or the length when there is none.
pub open spec fn next_index_of(s: Seq<char>, c: char, i: int) -> int
    decreases s.len() - i,
{
    if i < 0 || i >= s.len() {
        s.len() as int
    } else if s[i] == c {
        i
    } else {
        next_index_of(s, c, i + 1)
    }
}

/// A line without its trailing `'\r'`.
pub open spec fn strip_cr(line: Seq<char>) -> Seq<char> {
    if line.len() > 0 && line.last() == '\r' {
        line.drop_last()
    } else {
        line
    }
}

/// The lines of `s` from index `start`.
pub open spec fn lines_from(s: Seq<char>, start: int) -> Seq<Seq<char>>
    decreases s.len() - start,
{
    if start < 0 || start >= s.len() {
        Seq::empty()
    } else {
        let e = next_index_of(s, '\n', start);
        if e < start || e >= s.len() {
            seq![strip_cr(s.subrange(start, s.len() as int))]
        } else {
            seq![strip_cr(s.subrange(start, e))] + lines_from(s, e + 1)
        }
    }
}

/// The value of a group of hexadecimal digits, the first the most significant.
pub open spec fn hex_group_value(g: Seq<char>) -> int
    decreases g.len(),
{
    if g.len() == 0 {
        0
    } else {
        hex_group_value(g.drop_last()) * 16 + hex_digit(g.last())->0
    }
}

/// The first index at or after `k` that holds no hexadecimal digit.
pub open spec fn first_non_hex(s: Seq<char>, k: int) -> Option<int>
    decreases s.len() - k,
{
    if k < 0 || k >= s.len() {
        None
    } else if hex_digit(s[k]) is None {
        Some(k)
    } else {
        first_non_hex(s, k + 1)
    }
}

/// A line of `group_width`-digit hexadecimal values, or why it is not one; `line` is its
/// number.
pub open spec fn hex_values(s: Seq<char>, group_width: int, line: int) -> Result<Seq<u32>, ResourceError> {
    if (s.len() as int) % group_width != 0 {
        Err(ResourceError::InvalidValueWidth { line: line as usize, group_width: group_width as usize })
    } else {
        match first_non_hex(s, 0) {
            Some(k) => Err(ResourceError::InvalidHexDigit { digit: s[k], line: line as usize, column: (k + 1) as usize }),
            None => Ok(Seq::new(((s.len() as int) / group_width) as nat, |i: int|
                hex_group_value(s.subrange(i * group_width, i * group_width + group_width)) as u32)),
        }
    }
}

/// The value of decimal digits, the first the most significant.
pub open spec fn decimal_value(d: Seq<char>) -> int
    decreases d.len(),
{
    if d.len() == 0 {
        0
    } else {
        decimal_value(d.drop_last()) * 10 + (d.last() as int - '0' as int)
    }
}

/// The text after an optional leading `+`.
pub open spec fn without_plus(p: Seq<char>) -> Seq<char> {
    if p.len() > 0 && p[0] == '+' {
        p.drop_first()
    } else {
        p
    }
}

/// Whether every character is a decimal digit.
pub open spec fn all_decimal(d: Seq<char>) -> bool {
    forall|i: int| 0 <= i < d.len() ==> '0' <= #[trigger] d[i] <= '9'
}

/// `u32::from_str`: an optional `+`, then at least one decimal digit, and a value that
/// fits.
pub open spec fn parse_u32(p: Seq<char>) -> Option<u32> {
    let d = without_plus(p);
    if d.len() == 0 || !all_decimal(d) {
        None
    } else if decimal_value(d) > u32::MAX {
        None
    } else {
        Some(decimal_value(d) as u32)
    }
}

/// Text with its spaces and line breaks removed.
pub open spec fn simplified_text(s: Seq<char>) -> Seq<char> {
    s.filter(|c: char| c != ' ' && c != '\n')
}

/// The version number of the dotted parts of `t` from index `start`, starting from `acc`;
/// `first` tells whether the part at `start` is the first one.
pub open spec fn version_from(t: Seq<char>, start: int, first: bool, acc: u32) -> Option<u32>
    decreases t.len() - start,
{
    if start < 0 || start > t.len() {
        None
    } else {
        let e = next_index_of(t, '.', start);
        let part = t.subrange(start, if e <= t.len() { e } else { t.len() as int });
        if !first && part.len() != 1 && part.len() != 2 {
            None
        } else {
            match parse_u32(part) {
                None => None,
                Some(n) => if acc * 100 + n > u32::MAX {
                    None
                } else if e < start || e >= t.len() {
                    Some((acc * 100 + n) as u32)
                } else {
                    version_from(t, e + 1, false, (acc * 100 + n) as u32)
                },
            }
        }
    }
}

/// A version such as `1.9.10` as the number `10910`: each part after the first has one
/// or two digits and adds two decimal places; spaces and line breaks are ignored.
pub open spec fn version_number(s: Seq<char>) -> Option<u32> {
    version_from(simplified_text(s), 0, true, 0)
}

/// The characters of a string.
pub(crate) fn chars_of(s: &str) -> (r: Vec<char>)
    ensures
        r@ == s@,
{
    let n = s.unicode_len();
    let mut out: Vec<char> = Vec::new();
    let mut i: usize = 0;
    while i < n
        invariant
            i <= n == s@.len(),
            out@ == s@.take(i as int),
        decreases n - i,
    {
        out.push(s.get_char(i));
        i = i + 1;
        assert(out@ =~= s@.take(i as int));
    }
    assert(out@ =~= s@);
    out
}

/// The index of the first `c` in `s` at or after `i`, or the length.
fn find_from(s: &Vec<char>, c: char, i: usize) -> (r: usize)
    requires
        i <= s@.len(),
    ensures
        r == next_index_of(s@, c, i as int),
        i <= r <= s@.len(),
{
    let mut j = i;
    while j < s.len() && s[j] != c
        invariant
            i <= j <= s@.len(),
            next_index_of(s@, c, i as int) == next_index_of(s@, c, j as int),
        decreases s@.len() - j,
    {
        j = j + 1;
    }
    j
}

/// `s[start..end]` as a new vector.
pub(crate) fn copy_range(s: &Vec<char>, start: usize, end: usize) -> (r: Vec<char>)
    requires
        start <= end <= s@.len(),
    ensures
        r@ == s@.subrange(start as int, end as int),
{
    let mut out: Vec<char> = Vec::new();
    let mut k = start;
    while k < end
        invariant
            start <= k <= end <= s@.len(),
            out@ == s@.subrange(start as int, k as int),
        decreases end - k,
    {
        out.push(s[k]);
        k = k + 1;
        assert(out@ =~= s@.subrange(start as int, k as int));
    }
    out
}

/// The lines of a text (see `lines_of`).
pub fn split_lines(text: &str) -> (r: Vec<Vec<char>>)
    ensures
        r@.map_values(|l: Vec<char>| l@) == lines_of(text@),
{
    let s = chars_of(text);
    let mut out: Vec<Vec<char>> = Vec::new();
    let mut start: usize = 0;
    while start < s.len()
        invariant
            start <= s@.len(),
            s@ == text@,
            out@.map_values(|l: Vec<char>| l@) + lines_from(s@, start as int) == lines_from(s@, 0),
        decreases s@.len() - start,
    {
        let e = find_from(&s, '\n', start);
        let mut line = copy_range(&s, start, e);
        if line.len() > 0 && line[line.len() - 1] == '\r' {
            line.pop();
        }
        assert(line@ == strip_cr(s@.subrange(start as int, e as int)));
        let ghost before = out@;
        out.push(line);
        assert(out@.map_values(|l: Vec<char>| l@) =~= before.map_values(|l: Vec<char>| l@).push(line@));
        if e < s.len() {
            assert(lines_from(s@, start as int) == seq![line@] + lines_from(s@, e + 1));
            assert(out@.map_values(|l: Vec<char>| l@) + lines_from(s@, e + 1)
                =~= before.map_values(|l: Vec<char>| l@) + lines_from(s@, start as int));
            start = e + 1;
        } else {
            assert(lines_from(s@, start as int) == seq![line@]);
            assert(lines_from(s@, s@.len() as int) == Seq::<Seq<char>>::empty());
            assert(out@.map_values(|l: Vec<char>| l@) + lines_from(s@, s@.len() as int)
                =~= before.map_values(|l: Vec<char>| l@) + lines_from(s@, start as int));
            start = s.len();
        }
    }
    assert(out@.map_values(|l: Vec<char>| l@) =~= out@.map_values(|l: Vec<char>| l@) + lines_from(s@, start as int));
    out
}

/// The value of a hexadecimal digit, or the error for the given place.
pub fn parse_hex_digit(digit: char, line: usize, column: usize) -> (r: Result<u32, ResourceError>)
    ensures
        match hex_digit(digit) {
            Some(v) => r == Ok::<u32, ResourceError>(v as u32),
            None => r == Err::<u32, ResourceError>(ResourceError::InvalidHexDigit { digit, line, column }),
        },
{
    if '0' <= digit && digit <= '9' {
        Ok(digit as u32 - '0' as u32)
    } else if 'a' <= digit && digit <= 'f' {
        Ok(digit as u32 - 'a' as u32 + 10)
    } else if 'A' <= digit && digit <= 'F' {
        Ok(digit as u32 - 'A' as u32 + 10)
    } else {
        Err(ResourceError::InvalidHexDigit { digit, line, column })
    }
}

/// `16` to the power `n`.
pub open spec fn pow16(n: nat) -> nat
    decreases n,
{
    if n == 0 {
        1
    } else {
        16 * pow16((n - 1) as nat)
    }
}

/// The value of `digits[start..end]` read as hexadecimal, or the error for its first
/// character that is no digit; `start_column` is the column of `digits[start]`.
fn parse_hex_group(digits: &Vec<char>, start: usize, end: usize, line: usize, start_column: usize) -> (r: Result<u32, ResourceError>)
    requires
        start <= end <= digits@.len(),
        end - start <= 4,
        end > start ==> start_column + (end - start) - 1 <= usize::MAX,
    ensures
        match first_non_hex(digits@.subrange(start as int, end as int), 0) {
            Some(k) => r == Err::<u32, ResourceError>(ResourceError::InvalidHexDigit {
                digit: digits@[start + k],
                line,
                column: (start_column + k) as usize,
            }),
            None => r == Ok::<u32, ResourceError>(hex_group_value(digits@.subrange(start as int, end as int)) as u32),
        },
{
    let ghost g = digits@.subrange(start as int, end as int);
    let mut value: u32 = 0;
    let mut k = start;
    while k < end
        invariant
            start <= k <= end <= digits@.len(),
            end - start <= 4,
            end > start ==> start_column + (end - start) - 1 <= usize::MAX,
            g == digits@.subrange(start as int, end as int),
            first_non_hex(g, 0) == first_non_hex(g, k - start),
            forall|i: int| 0 <= i < k - start ==> hex_digit(#[trigger] g[i]) is Some,
            value == hex_group_value(g.subrange(0, k - start)),
            value < pow16((k - start) as nat),
        decreases end - k,
    {
        let d = parse_hex_digit(digits[k], line, start_column + (k - start));
        match d {
            Err(e) => {
                assert(first_non_hex(g, k - start) == Some(k - start));
                return Err(e);
            },
            Ok(v) => {
                proof {
                    let h = g.subrange(0, k - start + 1);
                    assert(h.drop_last() =~= g.subrange(0, k - start));
                    assert(h.last() == digits@[k as int]);
                    assert(pow16((k - start + 1) as nat) == 16 * pow16((k - start) as nat));
                    reveal_with_fuel(pow16, 5);
                    assert(pow16((k - start + 1) as nat) <= 65536);
                    let p = pow16((k - start) as nat);
                    assert(value * 16 + v < p * 16) by (nonlinear_arith)
                        requires value < p, v < 16;
                }
                value = value * 16 + v;
                k = k + 1;
                proof {
                    assert forall|i: int| 0 <= i < k - start implies hex_digit(#[trigger] g[i]) is Some by {
                        if i == k - 1 - start {
                            assert(g[i] == digits@[k - 1]);
                        }
                    }
                }
            },
        }
    }
    assert(g.subrange(0, end - start) =~= g);
    Ok(value)
}

proof fn lemma_first_non_hex_sub(s: Seq<char>, a: int, b: int, j: int)
    requires
        0 <= a,
        0 <= j,
        a + j <= b <= s.len(),
    ensures
        first_non_hex(s.subrange(a, b), j) matches Some(k) ==> first_non_hex(s, a + j) == Some(a + k),
        first_non_hex(s.subrange(a, b), j) is None ==> first_non_hex(s, a + j) == first_non_hex(s, b),
    decreases b - a - j,
{
    if a + j < b {
        assert(s.subrange(a, b)[j] == s[a + j]);
        lemma_first_non_hex_sub(s, a, b, j + 1);
    }
}

/// A line of `group_width`-digit hexadecimal values (see `hex_values`); `line` is its number.
pub fn parse_hex_values(text: &Vec<char>, group_width: usize, line: usize) -> (r: Result<Vec<u32>, ResourceError>)
    requires
        1 <= group_width <= 4,
    ensures
        match hex_values(text@, group_width as int, line as int) {
            Ok(v) => r matches Ok(w) && w@ == v,
            Err(e) => r == Err::<Vec<u32>, ResourceError>(e),
        },
{
    if text.len() % group_width != 0 {
        return Err(ResourceError::InvalidValueWidth { line, group_width });
    }
    let n = text.len() / group_width;
    let mut out: Vec<u32> = Vec::new();
    let mut i: usize = 0;
    proof {
        assert(n * group_width == text@.len()) by (nonlinear_arith)
            requires n == (text@.len() as int) / (group_width as int), (text@.len() as int) % (group_width as int) == 0, group_width > 0;
    }
    while i < n
        invariant
            1 <= group_width <= 4,
            text@.len() <= usize::MAX,
            n * group_width == text@.len(),
            (text@.len() as int) % (group_width as int) == 0,
            n == (text@.len() as int) / (group_width as int),
            i <= n,
            out@.len() == i,
            first_non_hex(text@, 0) == first_non_hex(text@, i * group_width),
            forall|m: int| 0 <= m < i ==> #[trigger] out@[m] == hex_group_value(
                text@.subrange(m * group_width, m * group_width + group_width)) as u32,
        decreases n - i,
    {
        proof {
            assert(i * group_width + group_width <= n * group_width) by (nonlinear_arith)
                requires i < n, group_width > 0;
            assert((i + 1) * group_width == i * group_width + group_width) by (nonlinear_arith);
        }
        let start = i * group_width;
        let end = start + group_width;
        let g = parse_hex_group(text, start, end, line, start + 1);
        proof {
            lemma_first_non_hex_sub(text@, start as int, end as int, 0);
        }
        match g {
            Err(e) => {
                return Err(e);
            },
            Ok(v) => {
                out.push(v);
            },
        }
        i = i + 1;
    }
    proof {
        assert(first_non_hex(text@, text@.len() as int) is None);
        assert(out@ =~= Seq::new(((text@.len() as int) / (group_width as int)) as nat, |m: int|
            hex_group_value(text@.subrange(m * group_width, m * group_width + group_width)) as u32));
    }
    Ok(out)
}

/// Text without its spaces and line breaks.
fn simplify_text(s: &Vec<char>) -> (r: Vec<char>)
    ensures
        r@ == simplified_text(s@),
{
    let mut out: Vec<char> = Vec::new();
    let mut i: usize = 0;
    while i < s.len()
        invariant
            i <= s@.len(),
            out@ == simplified_text(s@.take(i as int)),
        decreases s@.len() - i,
    {
        proof {
            reveal_with_fuel(Seq::<_>::filter, 1);
            assert(s@.take(i + 1).drop_last() =~= s@.take(i as int));
        }
        if s[i] != ' ' && s[i] != '\n' {
            out.push(s[i]);
        }
        i = i + 1;
    }
    assert(s@.take(s@.len() as int) =~= s@);
    out
}

proof fn lemma_decimal_nonneg(d: Seq<char>)
    requires
        forall|m: int| 0 <= m < d.len() ==> '0' <= #[trigger] d[m] <= '9',
    ensures
        decimal_value(d) >= 0,
    decreases d.len(),
{
    if d.len() > 0 {
        assert forall|m: int| 0 <= m < d.drop_last().len() implies '0' <= #[trigger] d.drop_last()[m] <= '9' by {
            assert(d.drop_last()[m] == d[m]);
        }
        lemma_decimal_nonneg(d.drop_last());
    }
}

/// `u32::from_str` on `p[start..end]` (see `parse_u32`).
fn parse_u32_range(p: &Vec<char>, start: usize, end: usize) -> (r: Option<u32>)
    requires
        start <= end <= p@.len(),
    ensures
        r == parse_u32(p@.subrange(start as int, end as int)),
{
    let ghost whole = p@.subrange(start as int, end as int);
    let mut i = start;
    if i < end && p[i] == '+' {
        i = i + 1;
    }
    let ghost d = without_plus(whole);
    assert(d =~= p@.subrange(i as int, end as int));
    if i == end {
        return None;
    }
    let d_start = i;
    let mut value: u64 = 0;
    let mut too_big = false;
    while i < end
        invariant
            start <= d_start <= i <= end <= p@.len(),
            d == p@.subrange(d_start as int, end as int),
            whole == p@.subrange(start as int, end as int),
            d == without_plus(whole),
            d.len() > 0,
            forall|m: int| 0 <= m < i - d_start ==> '0' <= #[trigger] d[m] <= '9',
            !too_big ==> value == decimal_value(d.take(i - d_start)) && value <= u32::MAX,
            too_big ==> decimal_value(d.take(i - d_start)) > u32::MAX,
        decreases end - i,
    {
        let c = p[i];
        if !('0' <= c && c <= '9') {
            assert(d[i - d_start] == c);
            assert(!('0' <= d[i - d_start] <= '9'));
            assert(!all_decimal(d));
            return None;
        }
        proof {
            let k = i - d_start;
            assert(d.take(k + 1).drop_last() =~= d.take(k));
            assert(d.take(k + 1).last() == c);
            assert forall|m: int| 0 <= m < k + 1 implies '0' <= #[trigger] d.take(k + 1)[m] <= '9' by {
                assert(d.take(k + 1)[m] == d[m]);
            }
            lemma_decimal_nonneg(d.take(k));
            assert forall|m: int| 0 <= m < k implies '0' <= #[trigger] d.take(k)[m] <= '9' by {
                assert(d.take(k)[m] == d[m]);
            }
        }
        if !too_big {
            let next = value * 10 + (c as u64 - '0' as u64);
            if next > u32::MAX as u64 {
                too_big = true;
            } else {
                value = next;
            }
        }
        i = i + 1;
    }
    assert(d.take(d.len() as int) =~= d);
    if too_big {
        None
    } else {
        Some(value as u32)
    }
}

/// The number of a dotted version string (see `version_number`).
pub fn parse_version_string(string: &str) -> (r: Result<u32, ()>)
    ensures
        match version_number(string@) {
            Some(v) => r == Ok::<u32, ()>(v),
            None => r is Err,
        },
{
    let raw = chars_of(string);
    let t = simplify_text(&raw);
    let mut version: u32 = 0;
    let mut start: usize = 0;
    let mut first = true;
    loop
        invariant
            start <= t@.len(),
            t@ == simplified_text(string@),
            version_number(string@) == version_from(t@, start as int, first, version),
        decreases t@.len() - start,
    {
        let e = find_from(&t, '.', start);
        let len = e - start;
        if !first && len != 1 && len != 2 {
            return Err(());
        }
        let n = match parse_u32_range(&t, start, e) {
            None => {
                return Err(());
            },
            Some(n) => n,
        };
        if version as u64 * 100 + n as u64 > u32::MAX as u64 {
            return Err(());
        }
        version = version * 100 + n;
        if e >= t.len() {
            return Ok(version);
        }
        start = e + 1;
        first = false;
    }
}

/// Whether a line is the word `none`, which marks an unused entry.
pub open spec fn is_none_line(line: Seq<char>) -> bool {
    line == seq!['n', 'o', 'n', 'e']
}

fn none_line(line: &Vec<char>) -> (r: bool)
    ensures
        r == is_none_line(line@),
{
    let r = line.len() == 4 && line[0] == 'n' && line[1] == 'o' && line[2] == 'n' && line[3] == 'e';
    assert(r ==> line@ =~= seq!['n', 'o', 'n', 'e']);
    r
}

/// The channel sequences read from lines `i..` of old music data, each line the
/// two-digit sound indices of one channel.
pub open spec fn music_lines(lines: Seq<Seq<char>>, i: int, acc: Seq<Seq<u32>>) -> Result<Seq<Seq<u32>>, ResourceError>
    decreases lines.len() - i,
{
    if i < 0 || i >= lines.len() {
        Ok(acc)
    } else if i >= NUM_CHANNELS {
        Err(ResourceError::TooManyMusicChannels { got: lines.len() as usize, maximum: NUM_CHANNELS })
    } else if is_none_line(lines[i]) {
        music_lines(lines, i + 1, acc)
    } else {
        match hex_values(lines[i], 2, i + 1) {
            Err(e) => Err(e),
            Ok(v) => music_lines(lines, i + 1, acc.update(i, v)),
        }
    }
}

/// Old music data: every channel empty, then each line's indices on its channel.
pub open spec fn old_music(text: Seq<char>) -> Result<Seq<Seq<u32>>, ResourceError> {
    music_lines(lines_of(text), 0, Seq::new(NUM_CHANNELS as nat, |k: int| Seq::<u32>::empty()))
}

/// The vectors' contents.
pub open spec fn views_of(v: Seq<Vec<u32>>) -> Seq<Seq<u32>> {
    v.map_values(|x: Vec<u32>| x@)
}

impl Music {
    /// Reads old music data; on an error the music is left as it was.
    pub fn deserialize_old(&mut self, input: &str) -> (r: Result<(), ResourceError>)
        ensures
            match old_music(input@) {
                Ok(seqs) => r is Ok && views_of(final(self).seqs@) == seqs,
                Err(e) => r == Err::<(), ResourceError>(e) && final(self).seqs@ == old(self).seqs@,
            },
    {
        let lines = split_lines(input);
        let ghost ls = lines_of(input@);
        assert(lines@.map_values(|l: Vec<char>| l@) == ls);
        let mut seqs: Vec<Vec<u32>> = Vec::new();
        let mut k: u32 = 0;
        while k < NUM_CHANNELS
            invariant
                k <= NUM_CHANNELS,
                seqs@.len() == k,
                forall|m: int| 0 <= m < k ==> (#[trigger] seqs@[m])@ == Seq::<u32>::empty(),
            decreases NUM_CHANNELS - k,
        {
            seqs.push(Vec::new());
            k = k + 1;
        }
        assert(views_of(seqs@) =~= Seq::new(NUM_CHANNELS as nat, |k: int| Seq::<u32>::empty()));
        let mut i: usize = 0;
        while i < lines.len()
            invariant
                i <= lines@.len() == ls.len(),
                lines@.map_values(|l: Vec<char>| l@) == ls,
                seqs@.len() == NUM_CHANNELS,
                old_music(input@) == music_lines(ls, i as int, views_of(seqs@)),
                ls == lines_of(input@),
            decreases lines@.len() - i,
        {
            assert(lines@[i as int]@ == ls[i as int]);
            if i >= NUM_CHANNELS as usize {
                return Err(ResourceError::TooManyMusicChannels { got: lines.len(), maximum: NUM_CHANNELS });
            }
            if !none_line(&lines[i]) {
                match parse_hex_values(&lines[i], 2, i + 1) {
                    Err(e) => {
                        return Err(e);
                    },
                    Ok(v) => {
                        let ghost before = views_of(seqs@);
                        seqs.set(i, v);
                        assert(views_of(seqs@) =~= before.update(i as int, v@));
                    },
                }
            }
            i = i + 1;
        }
        self.seqs = seqs;
        Ok(())
    }
}

/// The sequences of a sound: notes (-1 for a rest), tones, volumes, effects, and the
/// speed in ticks per note.
pub struct SoundData {
    pub notes: Vec<i8>,
    pub tones: Vec<u16>,
    pub volumes: Vec<u8>,
    pub effects: Vec<u8>,
    pub speed: u32,
}

/// What `SoundData` holds.
#[verifier::ext_equal]
pub struct SoundDataView {
    pub notes: Seq<i8>,
    pub tones: Seq<u16>,
    pub volumes: Seq<u8>,
    pub effects: Seq<u8>,
    pub speed: u32,
}

impl View for SoundData {
    type V = SoundDataView;

    open spec fn view(&self) -> SoundDataView {
        SoundDataView {
            notes: self.notes@,
            tones: self.tones@,
            volumes: self.volumes@,
            effects: self.effects@,
            speed: self.speed,
        }
    }
}

/// The sound read from lines `i..` of old sound data: notes as two-digit values, then
/// tones, volumes and effects as one-digit values, then the speed in decimal.
pub open spec fn sound_lines(lines: Seq<Seq<char>>, i: int, acc: SoundDataView) -> Result<SoundDataView, ResourceError>
    decreases lines.len() - i,
{
    if i < 0 || i >= lines.len() {
        Ok(acc)
    } else if is_none_line(lines[i]) || i > 4 {
        sound_lines(lines, i + 1, acc)
    } else if i == 4 {
        match parse_u32(lines[i]) {
            None => Err(ResourceError::InvalidDecimal { line: (i + 1) as usize }),
            Some(speed) => sound_lines(lines, i + 1, SoundDataView { speed, ..acc }),
        }
    } else {
        match hex_values(lines[i], if i == 0 { 2 } else { 1 }, i + 1) {
            Err(e) => Err(e),
            Ok(v) => sound_lines(lines, i + 1, if i == 0 {
                SoundDataView { notes: acc.notes + v.map_values(|x: u32| x as i8), ..acc }
            } else if i == 1 {
                SoundDataView { tones: acc.tones + v.map_values(|x: u32| x as u16), ..acc }
            } else if i == 2 {
                SoundDataView { volumes: acc.volumes + v.map_values(|x: u32| x as u8), ..acc }
            } else {
                SoundDataView { effects: acc.effects + v.map_values(|x: u32| x as u8), ..acc }
            }),
        }
    }
}

/// Old sound data read into an empty sound of the default speed.
pub open spec fn old_sound(text: Seq<char>) -> Result<SoundDataView, ResourceError> {
    sound_lines(lines_of(text), 0, SoundDataView {
        notes: Seq::empty(),
        tones: Seq::empty(),
        volumes: Seq::empty(),
        effects: Seq::empty(),
        speed: DEFAULT_SOUND_SPEED,
    })
}

impl SoundData {
    /// A sound with no notes at the default speed.
    pub fn new() -> (r: SoundData)
        ensures
            r@ == (SoundDataView {
                notes: Seq::empty(),
                tones: Seq::empty(),
                volumes: Seq::empty(),
                effects: Seq::empty(),
                speed: DEFAULT_SOUND_SPEED,
            }),
    {
        SoundData { notes: Vec::new(), tones: Vec::new(), volumes: Vec::new(), effects: Vec::new(), speed: DEFAULT_SOUND_SPEED }
    }

    /// Reads old sound data into a fresh sound.
    pub fn deserialize_old(input: &str) -> (r: Result<SoundData, ResourceError>)
        ensures
            match old_sound(input@) {
                Ok(v) => r matches Ok(sound) && sound@ == v,
                Err(e) => r matches Err(e2) && e2 == e,
            },
    {
        let lines = split_lines(input);
        let ghost ls = lines_of(input@);
        let mut sound = SoundData::new();
        let mut i: usize = 0;
        while i < lines.len()
            invariant
                i <= lines@.len() == ls.len(),
                lines@.map_values(|l: Vec<char>| l@) == ls,
                old_sound(input@) == sound_lines(ls, i as int, sound@),
                ls == lines_of(input@),
            decreases lines@.len() - i,
        {
            assert(lines@[i as int]@ == ls[i as int]);
            if !none_line(&lines[i]) && i <= 4 {
                if i == 4 {
                    let n = lines[i].len();
                    assert(lines@[i as int]@.subrange(0, n as int) =~= ls[i as int]);
                    match parse_u32_range(&lines[i], 0, n) {
                        None => {
                            return Err(ResourceError::InvalidDecimal { line: i + 1 });
                        },
                        Some(speed) => {
                            assert(lines@[i as int]@.subrange(0, n as int) =~= ls[i as int]);
                            sound.speed = speed;
                        },
                    }
                    assert(lines@[i as int]@.subrange(0, n as int) =~= ls[i as int]);
                } else {
                    let width: usize = if i == 0 { 2 } else { 1 };
                    match parse_hex_values(&lines[i], width, i + 1) {
                        Err(e) => {
                            return Err(e);
                        },
                        Ok(v) => {
                            let mut k: usize = 0;
                            let ghost before = sound@;
                            while k < v.len()
                                invariant
                                    k <= v@.len(),
                                    i < 4,
                                    sound@.speed == before.speed,
                                    i != 0 ==> sound@.notes == before.notes,
                                    i != 1 ==> sound@.tones == before.tones,
                                    i != 2 ==> sound@.volumes == before.volumes,
                                    i != 3 ==> sound@.effects == before.effects,
                                    i == 0 ==> sound@.notes == before.notes + v@.take(k as int).map_values(|x: u32| x as i8),
                                    i == 1 ==> sound@.tones == before.tones + v@.take(k as int).map_values(|x: u32| x as u16),
                                    i == 2 ==> sound@.volumes == before.volumes + v@.take(k as int).map_values(|x: u32| x as u8),
                                    i == 3 ==> sound@.effects == before.effects + v@.take(k as int).map_values(|x: u32| x as u8),
                                decreases v@.len() - k,
                            {
                                let x = v[k];
                                if i == 0 {
                                    sound.notes.push(#[verifier::truncate] (x as i8));
                                } else if i == 1 {
                                    sound.tones.push(#[verifier::truncate] (x as u16));
                                } else if i == 2 {
                                    sound.volumes.push(#[verifier::truncate] (x as u8));
                                } else {
                                    sound.effects.push(#[verifier::truncate] (x as u8));
                                }
                                k = k + 1;
                                proof {
                                    assert(v@.take(k as int).map_values(|x: u32| x as i8) =~= v@.take(k - 1).map_values(|x: u32| x as i8).push(x as i8));
                                    assert(v@.take(k as int).map_values(|x: u32| x as u16) =~= v@.take(k - 1).map_values(|x: u32| x as u16).push(x as u16));
                                    assert(v@.take(k as int).map_values(|x: u32| x as u8) =~= v@.take(k - 1).map_values(|x: u32| x as u8).push(x as u8));
                                }
                            }
                            assert(v@.take(v@.len() as int) =~= v@);
                        },
                    }
                }
            }
            i = i + 1;
        }
        Ok(sound)
    }
}

/// Why an archive's version entry is refused.
#[derive(Debug, Clone, Copy, PartialEq, Eq)]
pub enum ArchiveVersionError {
    /// The entry is not a dotted version.
    Invalid,
    /// The archive was written by a newer version than `current`.
    Unsupported { version: u32, current: u32 },
}

/// The version of an archive whose version entry reads `contents`, checked against the
/// running version `current`: refused where it does not parse or is newer.
pub fn archive_version(contents: &str, current: u32) -> (r: Result<u32, ArchiveVersionError>)
    ensures
        match version_number(contents@) {
            None => r == Err::<u32, ArchiveVersionError>(ArchiveVersionError::Invalid),
            Some(v) => if v > current {
                r == Err::<u32, ArchiveVersionError>(ArchiveVersionError::Unsupported { version: v, current })
            } else {
                r == Ok::<u32, ArchiveVersionError>(v)
            },
        },
{
    match parse_version_string(contents) {
        Err(_) => Err(ArchiveVersionError::Invalid),
        Ok(version) => if version > current {
            Err(ArchiveVersionError::Unsupported { version, current })
        } else {
            Ok(version)
        },
    }
}

/// A tile: the column and row of its source cell in the image.
pub type Tile = (u8, u8);

/// A grid of tiles, row by row, and the index of the image the tiles come from.
#[derive(Clone, Debug)]
pub struct Tilemap {
    pub width: u32,
    pub height: u32,
    pub tiles: Vec<Tile>,
    pub imgsrc: u32,
}

/// A tile value of old data: 5 bits of column and the row above them before version
/// 1.5.0, a byte each after.
pub open spec fn tile_of(version: u32, v: int) -> Tile {
    if version < 10500 {
        ((v % 32) as u8, (v / 32) as u8)
    } else {
        ((v / 256 % 256) as u8, (v % 256) as u8)
    }
}

/// `tiles` with row `y` of a `w`-wide grid starting with `values` as tiles.
pub open spec fn write_tiles(tiles: Seq<Tile>, w: int, y: int, version: u32, values: Seq<u32>) -> Seq<Tile> {
    Seq::new(tiles.len(), |k: int| if k / w == y && k % w < values.len() {
        tile_of(version, values[k % w] as int)
    } else {
        tiles[k]
    })
}

/// The tiles and image index after reading lines `y..` of old tilemap data.
pub open spec fn tilemap_lines(lines: Seq<Seq<char>>, y: int, version: u32, w: int, tiles: Seq<Tile>, imgsrc: u32)
    -> Result<(Seq<Tile>, u32), ResourceError>
    decreases lines.len() - y,
{
    if y < 0 || y >= lines.len() {
        Ok((tiles, imgsrc))
    } else if y < TILEMAP_SIZE {
        let gw: int = if version < 10500 { 3 } else { 4 };
        let line = lines[y];
        if (line.len() as int) % gw != 0 {
            Err(ResourceError::InvalidTileWidth { line: (y + 1) as usize, group_width: gw as usize })
        } else if (line.len() as int) / gw > w {
            Err(ResourceError::TooManyTiles { line: (y + 1) as usize, got: ((line.len() as int) / gw) as usize, maximum: w as u32 })
        } else {
            match hex_values(line, gw, y + 1) {
                Err(e) => Err(e),
                Ok(v) => tilemap_lines(lines, y + 1, version, w, write_tiles(tiles, w, y, version, v), imgsrc),
            }
        }
    } else if y == TILEMAP_SIZE {
        match parse_u32(lines[y]) {
            None => Err(ResourceError::InvalidDecimal { line: (y + 1) as usize }),
            Some(index) => if index >= NUM_IMAGES {
                Err(ResourceError::ImageIndexOutOfRange { index, line: (y + 1) as usize })
            } else {
                tilemap_lines(lines, y + 1, version, w, tiles, index)
            },
        }
    } else {
        Err(ResourceError::TooManyTilemapLines { got: lines.len() as usize, maximum: (TILEMAP_SIZE + 1) as u32 })
    }
}

impl Tilemap {
    /// The tiles fill the grid, row by row.
    pub open spec fn grid_ok(&self) -> bool {
        &&& self.tiles@.len() == self.width * self.height
        &&& self.width * self.height <= usize::MAX
    }

    /// The grid is consistent with its size and has the rows that old data can fill.
    pub open spec fn wf(&self) -> bool {
        &&& self.grid_ok()
        &&& self.height >= TILEMAP_SIZE
    }

    /// Reads old tilemap data of archive `version` over the grid; on an error the tilemap
    /// is left as it was.
    pub fn deserialize_old(&mut self, version: u32, input: &str) -> (r: Result<(), ResourceError>)
        requires
            old(self).wf(),
        ensures
            final(self).width == old(self).width,
            final(self).height == old(self).height,
            match tilemap_lines(lines_of(input@), 0, version, old(self).width as int, old(self).tiles@, old(self).imgsrc) {
                Ok((t, i)) => r is Ok && final(self).tiles@ == t && final(self).imgsrc == i,
                Err(e) => r == Err::<(), ResourceError>(e) && final(self).tiles@ == old(self).tiles@
                    && final(self).imgsrc == old(self).imgsrc,
            },
    {
        let lines = split_lines(input);
        let ghost ls = lines_of(input@);
        let w = self.width as usize;
        let h = self.height as usize;
        let gw: usize = if version < 10500 { 3 } else { 4 };
        let mut tiles: Vec<Tile> = Vec::new();
        let mut i: usize = 0;
        while i < self.tiles.len()
            invariant
                i <= self.tiles@.len(),
                tiles@ == self.tiles@.take(i as int),
            decreases self.tiles@.len() - i,
        {
            tiles.push(self.tiles[i]);
            i = i + 1;
        }
        assert(tiles@ =~= self.tiles@);
        let mut imgsrc = self.imgsrc;
        let mut y: usize = 0;
        while y < lines.len()
            invariant
                self.wf(),
                self.tiles@ == old(self).tiles@,
                self.imgsrc == old(self).imgsrc,
                self.width == old(self).width,
                self.height == old(self).height,
                w == self.width,
                h == self.height,
                gw == (if version < 10500 { 3usize } else { 4usize }),
                y <= lines@.len() == ls.len(),
                lines@.map_values(|l: Vec<char>| l@) == ls,
                ls == lines_of(input@),
                tiles@.len() == w * h,
                tilemap_lines(ls, 0, version, w as int, old(self).tiles@, old(self).imgsrc)
                    == tilemap_lines(ls, y as int, version, w as int, tiles@, imgsrc),
            decreases lines@.len() - y,
        {
            let line = &lines[y];
            assert(line@ == ls[y as int]);
            if y < TILEMAP_SIZE as usize {
                if line.len() % gw != 0 {
                    return Err(ResourceError::InvalidTileWidth { line: y + 1, group_width: gw });
                }
                let count = line.len() / gw;
                if count > w {
                    return Err(ResourceError::TooManyTiles { line: y + 1, got: count, maximum: self.width });
                }
                let values = match parse_hex_values(line, gw, y + 1) {
                    Err(e) => {
                        return Err(e);
                    },
                    Ok(v) => v,
                };
                let ghost before = tiles@;
                let mut x: usize = 0;
                while x < values.len()
                    invariant
                        w == self.width,
                        h == self.height,
                        h >= TILEMAP_SIZE,
                        y < TILEMAP_SIZE,
                        values@.len() == count <= w,
                        x <= values@.len(),
                        tiles@.len() == before.len() == w * h,
                        w * h <= usize::MAX,
                        forall|k: int| 0 <= k < tiles@.len() ==> #[trigger] tiles@[k] == if k / (w as int) == y && k % (w as int) < x {
                            tile_of(version, values@[k % (w as int)] as int)
                        } else {
                            before[k]
                        },
                    decreases values@.len() - x,
                {
                    let v = values[x];
                    let t: Tile = if version < 10500 {
                        ((v % 32) as u8, (v / 32) as u8)
                    } else {
                        (((v >> 8) & 0xff) as u8, (v & 0xff) as u8)
                    };
                    proof {
                        assert((v >> 8) & 0xff == (v / 256) % 256) by (bit_vector);
                        assert(v & 0xff == v % 256) by (bit_vector);
                        assert(t == tile_of(version, v as int));
                        crate::old_resource_data::lemma_grid_index(x as int, y as int, w as int, h as int);
                    }
                    let k = y * w + x;
                    tiles.set(k, t);
                    x = x + 1;
                    proof {
                        assert forall|k2: int| 0 <= k2 < tiles@.len() implies #[trigger] tiles@[k2] == if k2 / (w as int) == y && k2 % (w as int) < x {
                            tile_of(version, values@[k2 % (w as int)] as int)
                        } else {
                            before[k2]
                        } by {
                            crate::old_resource_data::lemma_grid_split(k2, w as int, h as int);
                        }
                    }
                }
                assert(tiles@ =~= write_tiles(before, w as int, y as int, version, values@));
            } else if y == TILEMAP_SIZE as usize {
                let n = line.len();
                assert(line@.subrange(0, n as int) =~= line@);
                match parse_u32_range(line, 0, n) {
                    None => {
                        return Err(ResourceError::InvalidDecimal { line: y + 1 });
                    },
                    Some(index) => {
                        if index >= NUM_IMAGES {
                            return Err(ResourceError::ImageIndexOutOfRange { index, line: y + 1 });
                        }
                        imgsrc = index;
                    },
                }
            } else {
                return Err(ResourceError::TooManyTilemapLines { got: lines.len(), maximum: TILEMAP_SIZE + 1 });
            }
            y = y + 1;
        }
        self.tiles = tiles;
        self.imgsrc = imgsrc;
        Ok(())
    }
}

proof fn lemma_grid_index(px: int, py: int, w: int, h: int)
    requires
        0 <= px < w,
        0 <= py < h,
    ensures
        0 <= py * w + px < w * h,
        (py * w + px) % w == px,
        (py * w + px) / w == py,
{
    assert(0 <= py * w + px < w * h) by (nonlinear_arith)
        requires 0 <= px < w, 0 <= py < h;
    vstd::arithmetic::div_mod::lemma_fundamental_div_mod_converse(py * w + px, w, py, px);
}

proof fn lemma_grid_split(k: int, w: int, h: int)
    requires
        0 <= k < w * h,
        w >= 0,
        h >= 0,
    ensures
        w > 0,
        0 <= k % w < w,
        0 <= k / w < h,
        k == (k / w) * w + k % w,
{
    assert(w > 0) by (nonlinear_arith)
        requires 0 <= k < w * h, w >= 0, h >= 0;
    vstd::arithmetic::div_mod::lemma_fundamental_div_mod(k, w);
    assert((k / w) * w == w * (k / w)) by (nonlinear_arith);
    assert(0 <= k / w < h) by (nonlinear_arith)
        requires 0 <= k < w * h, w > 0, k == (k / w) * w + k % w, 0 <= k % w < w;
}

/// Each character of a line read as one hexadecimal digit.
pub open spec fn one_digit_values(line: Seq<char>) -> Seq<u8> {
    Seq::new(line.len(), |k: int| hex_digit(line[k])->0)
}

/// The one-digit values of line `idx`, none where it is missing or reads `none`, and none
/// where reading started after it (`from > idx`).
pub open spec fn values_of_line(lines: Seq<Seq<char>>, idx: int, from: int) -> Seq<u8> {
    if from <= idx && idx < lines.len() && !is_none_line(lines[idx]) {
        one_digit_values(lines[idx])
    } else {
        Seq::empty()
    }
}

proof fn lemma_one_digit_hex_values(s: Seq<char>, line: int)
    ensures
        hex_values(s, 1, line) matches Ok(v) ==> v.map_values(|x: u32| x as u8) == one_digit_values(s)
            && v.map_values(|x: u32| x as u16) == one_digit_values(s).map_values(|x: u8| x as u16),
{
    if let Ok(v) = hex_values(s, 1, line) {
        assert forall|k: int| 0 <= k < s.len() implies #[trigger] v[k] == hex_digit(s[k])->0 as u32 by {
            let g = s.subrange(k, k + 1);
            assert(g.drop_last() =~= Seq::<char>::empty());
            assert(g.last() == s[k]);
            assert(hex_group_value(g.drop_last()) == 0);
            assert(k * 1 == k);
            assert(s.subrange(k * 1, k * 1 + 1) == g);
        }
        assert(v.map_values(|x: u32| x as u8) =~= one_digit_values(s));
        assert(v.map_values(|x: u32| x as u16) =~= one_digit_values(s).map_values(|x: u8| x as u16));
    }
}

proof fn lemma_sound_lines_values(lines: Seq<Seq<char>>, i: int, acc: SoundDataView)
    requires
        0 <= i,
    ensures
        sound_lines(lines, i, acc) matches Ok(v) ==> {
            &&& v.tones == acc.tones + values_of_line(lines, 1, i).map_values(|x: u8| x as u16)
            &&& v.volumes == acc.volumes + values_of_line(lines, 2, i)
            &&& v.effects == acc.effects + values_of_line(lines, 3, i)
        },
    decreases lines.len() - i,
{
    if i >= lines.len() {
        assert(acc.tones + values_of_line(lines, 1, i).map_values(|x: u8| x as u16) =~= acc.tones);
        assert(acc.volumes + values_of_line(lines, 2, i) =~= acc.volumes);
        assert(acc.effects + values_of_line(lines, 3, i) =~= acc.effects);
    } else if is_none_line(lines[i]) || i > 4 {
        lemma_sound_lines_values(lines, i + 1, acc);
        assert(values_of_line(lines, 1, i) == values_of_line(lines, 1, i + 1));
        assert(values_of_line(lines, 2, i) == values_of_line(lines, 2, i + 1));
        assert(values_of_line(lines, 3, i) == values_of_line(lines, 3, i + 1));
    } else if i == 4 {
        if let Some(speed) = parse_u32(lines[i]) {
            lemma_sound_lines_values(lines, i + 1, SoundDataView { speed, ..acc });
        }
    } else {
        let gw: int = if i == 0 { 2 } else { 1 };
        lemma_one_digit_hex_values(lines[i], i + 1);
        if let Ok(v) = hex_values(lines[i], gw, i + 1) {
            let next = if i == 0 {
                SoundDataView { notes: acc.notes + v.map_values(|x: u32| x as i8), ..acc }
            } else if i == 1 {
                SoundDataView { tones: acc.tones + v.map_values(|x: u32| x as u16), ..acc }
            } else if i == 2 {
                SoundDataView { volumes: acc.volumes + v.map_values(|x: u32| x as u8), ..acc }
            } else {
                SoundDataView { effects: acc.effects + v.map_values(|x: u32| x as u8), ..acc }
            };
            lemma_sound_lines_values(lines, i + 1, next);
            if let Ok(w) = sound_lines(lines, i + 1, next) {
                if i == 1 {
                    assert(w.tones =~= acc.tones + values_of_line(lines, 1, i).map_values(|x: u8| x as u16));
                } else if i == 2 {
                    assert(w.volumes =~= acc.volumes + values_of_line(lines, 2, i));
                } else if i == 3 {
                    assert(w.effects =~= acc.effects + values_of_line(lines, 3, i));
                }
                assert(values_of_line(lines, 1, i + 1) == if i == 1 { Seq::<u8>::empty() } else { values_of_line(lines, 1, i) });
                assert(values_of_line(lines, 2, i + 1) == if i == 2 { Seq::<u8>::empty() } else { values_of_line(lines, 2, i) });
                assert(values_of_line(lines, 3, i + 1) == if i == 3 { Seq::<u8>::empty() } else { values_of_line(lines, 3, i) });
            }
        }
    }
}

/// Old sound data gives, from its second, third and fourth lines, one tone, volume and
/// effect per character, its hexadecimal digit; a missing line or one that reads `none`
/// gives none.
pub proof fn lemma_old_sound_digit_lines(text: Seq<char>)
    ensures
        old_sound(text) matches Ok(v) ==> {
            &&& v.tones == values_of_line(lines_of(text), 1, 0).map_values(|x: u8| x as u16)
            &&& v.volumes == values_of_line(lines_of(text), 2, 0)
            &&& v.effects == values_of_line(lines_of(text), 3, 0)
        },
{
    let acc = SoundDataView {
        notes: Seq::empty(),
        tones: Seq::empty(),
        volumes: Seq::empty(),
        effects: Seq::empty(),
        speed: DEFAULT_SOUND_SPEED,
    };
    lemma_sound_lines_values(lines_of(text), 0, acc);
    assert(acc.tones + values_of_line(lines_of(text), 1, 0).map_values(|x: u8| x as u16) =~= values_of_line(lines_of(text), 1, 0).map_values(|x: u8| x as u16));
    assert(acc.volumes + values_of_line(lines_of(text), 2, 0) =~= values_of_line(lines_of(text), 2, 0));
    assert(acc.effects + values_of_line(lines_of(text), 3, 0) =~= values_of_line(lines_of(text), 3, 0));
}

} // verus!
