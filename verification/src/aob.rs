//! Byte-pattern ("array of bytes" / AOB) scanning: a substring search over
//! memory, mechanically distinct from a fixed-width numeric compare. No
//! alignment requirement: a pattern can start at any address.
//!
//! The reads themselves are the caller's: [`AobRegionScan`] says which chunk
//! to read next and takes what came back, and [`next_scan_aob`] takes the
//! re-read bytes of every match.
use vstd::prelude::*;

use crate::hex::{
    hex_digit, hex_digit_char, hex_num, hex_val, hex_value, is_hex, is_hex_char, lemma_hex_digit,
    utf8_width,
};
use crate::regions::MemoryRegion;
use crate::scan::ScanOptions;
use crate::strings::{append_chars, chars_of, is_whitespace, is_ws, push_char, string_of};

verus! {

// ---- parsing a pattern -------------------------------------------------------

/// The characters of `s[..n]` that aren't whitespace.
pub open spec fn drop_ws(s: Seq<char>, n: int) -> Seq<char>
    decreases n,
{
    if n <= 0 {
        seq![]
    } else if is_ws(s[n - 1]) {
        drop_ws(s, n - 1)
    } else {
        drop_ws(s, n - 1).push(s[n - 1])
    }
}

/// `s` without its whitespace.
pub open spec fn cleaned(s: Seq<char>) -> Seq<char> {
    drop_ws(s, s.len() as int)
}

/// The number of bytes of the UTF-8 encoding of `s[..n]`.
pub open spec fn byte_len(s: Seq<char>, n: int) -> nat
    decreases n,
{
    if n <= 0 {
        0
    } else {
        byte_len(s, n - 1) + utf8_width(s[n - 1])
    }
}

/// Two characters read as one byte: both must be hex digits.
pub open spec fn hex_byte(c: char, d: char) -> Option<u8> {
    if is_hex(c) && is_hex(d) {
        Some((hex_val(c) * 16 + hex_val(d)) as u8)
    } else {
        None
    }
}

/// Reading a pattern two bytes at a time: the bytes, the text of the first
/// two-byte chunk that isn't a hex byte, or a chunk that would cut a
/// character in two.
pub enum HexScan {
    Bytes(Seq<u8>),
    Bad(Seq<char>),
    Split,
}

/// Reads the cleaned pattern from character `i` on, at an even byte
/// offset.
pub open spec fn hex_scan(cs: Seq<char>, i: int) -> HexScan
    decreases cs.len() - i,
{
    if i < 0 || i >= cs.len() {
        HexScan::Bytes(seq![])
    } else if (cs[i] as u32) < 0x80 {
        if i + 1 >= cs.len() || (cs[i + 1] as u32) >= 0x80 {
            HexScan::Split
        } else {
            match hex_byte(cs[i], cs[i + 1]) {
                Some(v) => match hex_scan(cs, i + 2) {
                    HexScan::Bytes(rest) => HexScan::Bytes(seq![v] + rest),
                    other => other,
                },
                None => HexScan::Bad(seq![cs[i], cs[i + 1]]),
            }
        }
    } else if (cs[i] as u32) < 0x800 {
        HexScan::Bad(seq![cs[i]])
    } else {
        HexScan::Split
    }
}

pub open spec fn empty_pattern_message() -> Seq<char> {
    "enter a byte pattern, e.g. 3F A2 01"@
}

pub open spec fn odd_pattern_message() -> Seq<char> {
    "byte pattern must have an even number of hex digits"@
}

pub open spec fn bad_byte_message(pair: Seq<char>) -> Seq<char> {
    "'"@ + pair + "' isn't a valid hex byte"@
}

/// Whether reading `text` as a pattern would cut a character in two, which
/// the pattern reader does not survive: a two-byte chunk of the cleaned text
/// is decoded as UTF-8 on its own.
pub open spec fn pattern_splits(text: Seq<char>) -> bool {
    let cs = cleaned(text);
    cs.len() > 0 && byte_len(cs, cs.len() as int) % 2 == 0 && hex_scan(cs, 0) is Split
}

/// What [`parse_hex_pattern`] gives for `text`.
pub open spec fn hex_pattern_result(text: Seq<char>) -> Result<Seq<u8>, Seq<char>> {
    let cs = cleaned(text);
    if cs.len() == 0 {
        Err(empty_pattern_message())
    } else if byte_len(cs, cs.len() as int) % 2 != 0 {
        Err(odd_pattern_message())
    } else {
        match hex_scan(cs, 0) {
            HexScan::Bytes(b) => Ok(b),
            HexScan::Bad(pair) => Err(bad_byte_message(pair)),
            HexScan::Split => Err(seq![]),
        }
    }
}

fn utf8_width_of(c: char) -> (r: usize)
    ensures
        r == utf8_width(c),
{
    let u = c as u32;
    if u < 0x80 {
        1
    } else if u < 0x800 {
        2
    } else if u < 0x10000 {
        3
    } else {
        4
    }
}

fn hex_byte_of(c: char, d: char) -> (r: Option<u8>)
    ensures
        r == hex_byte(c, d),
{
    if is_hex_char(c) && is_hex_char(d) {
        let hi = hex_value(c);
        let lo = hex_value(d);
        Some(hi * 16 + lo)
    } else {
        None
    }
}

/// The pattern without its whitespace, and whether its UTF-8 encoding has
/// an even number of bytes.
fn clean_pattern(text: &str) -> (r: (Vec<char>, bool))
    ensures
        r.0@ == cleaned(text@),
        r.1 == (byte_len(r.0@, r.0@.len() as int) % 2 == 0),
{
    let chars = chars_of(text);
    let mut cs: Vec<char> = Vec::new();
    let mut width: usize = 0;
    let mut i: usize = 0;
    while i < chars.len()
        invariant
            i <= chars.len(),
            chars@ == text@,
            cs@ == drop_ws(text@, i as int),
            width == byte_len(cs@, cs@.len() as int) % 2,
        decreases chars.len() - i,
    {
        let c = chars[i];
        if !is_whitespace(c) {
            let ghost before = cs@;
            cs.push(c);
            assert(cs@.drop_last() =~= before);
            proof {
                lemma_byte_len_prefix(cs@, before, before.len() as int);
            }
            width = (width + utf8_width_of(c)) % 2;
        }
        i = i + 1;
    }
    assert(chars@.len() == text@.len());
    (cs, width == 0)
}

/// Whether reading `text` as a byte pattern would cut a character in two:
/// the inputs [`parse_hex_pattern`] does not take.
pub fn pattern_would_split(text: &str) -> (r: bool)
    ensures
        r == pattern_splits(text@),
{
    let (cs, even) = clean_pattern(text);
    if cs.len() == 0 || !even {
        return false;
    }
    let mut k: usize = 0;
    while k < cs.len()
        invariant
            k <= cs.len(),
            cs@ == cleaned(text@),
            cs@.len() > 0,
            byte_len(cs@, cs@.len() as int) % 2 == 0,
            (hex_scan(cs@, 0) is Split) == (hex_scan(cs@, k as int) is Split),
        decreases cs.len() - k,
    {
        let c = cs[k];
        if (c as u32) < 0x80 {
            if k + 1 >= cs.len() || (cs[k + 1] as u32) >= 0x80 {
                return true;
            }
            if hex_byte_of(c, cs[k + 1]).is_none() {
                return false;
            }
            k = k + 2;
        } else if (c as u32) < 0x800 {
            return false;
        } else {
            return true;
        }
    }
    false
}

/// Parses a hex byte pattern like `"3F A2 01"` or `"3FA201"` (whitespace
/// optional, case-insensitive) into raw bytes.
pub fn parse_hex_pattern(text: &str) -> (r: Result<Vec<u8>, String>)
    requires
        !pattern_splits(text@),
    ensures
        match r {
            Ok(b) => hex_pattern_result(text@) == Ok::<Seq<u8>, Seq<char>>(b@),
            Err(m) => hex_pattern_result(text@) == Err::<Seq<u8>, Seq<char>>(m@),
        },
{
    let (cs, width) = clean_pattern(text);
    if cs.len() == 0 {
        return Err(string_of(&chars_of("enter a byte pattern, e.g. 3F A2 01")));
    }
    if !width {
        return Err(string_of(&chars_of("byte pattern must have an even number of hex digits")));
    }
    let mut bytes: Vec<u8> = Vec::new();
    let mut k: usize = 0;
    while k < cs.len()
        invariant
            k <= cs.len(),
            cs@ == cleaned(text@),
            !pattern_splits(text@),
            cs.len() > 0,
            byte_len(cs@, cs@.len() as int) % 2 == 0,
            hex_scan(cs@, 0) == (match hex_scan(cs@, k as int) {
                HexScan::Bytes(rest) => HexScan::Bytes(bytes@ + rest),
                other => other,
            }),
        decreases cs.len() - k,
    {
        let c = cs[k];
        if (c as u32) < 0x80 {
            if k + 1 >= cs.len() || (cs[k + 1] as u32) >= 0x80 {
                assert(hex_scan(cs@, k as int) is Split);
                assert(false);
                return Err(String::new());
            }
            let d = cs[k + 1];
            let v = match hex_byte_of(c, d) {
                Some(v) => v,
                None => {
                    return Err(bad_byte(c, Some(d)));
                },
            };
            let ghost before = bytes@;
            bytes.push(v);
            proof {
                assert(bytes@ =~= before + seq![v]);
                match hex_scan(cs@, k + 2) {
                    HexScan::Bytes(rest) => {
                        assert(before + (seq![v] + rest) =~= bytes@ + rest);
                    },
                    _ => {},
                }
            }
            k = k + 2;
        } else if (c as u32) < 0x800 {
            return Err(bad_byte(c, None));
        } else {
            assert(hex_scan(cs@, k as int) is Split);
            assert(false);
            return Err(String::new());
        }
    }
    assert(bytes@ + Seq::<u8>::empty() =~= bytes@);
    Ok(bytes)
}

proof fn lemma_byte_len_prefix(s: Seq<char>, p: Seq<char>, n: int)
    requires
        0 <= n <= p.len(),
        p.len() <= s.len(),
        forall|k: int| 0 <= k < p.len() ==> s[k] == p[k],
    ensures
        byte_len(s, n) == byte_len(p, n),
    decreases n,
{
    if n > 0 {
        lemma_byte_len_prefix(s, p, n - 1);
    }
}

/// The message for a chunk that isn't a hex byte.
fn bad_byte(c: char, d: Option<char>) -> (r: String)
    ensures
        r@ == bad_byte_message(
            match d {
                Some(d) => seq![c, d],
                None => seq![c],
            },
        ),
{
    let mut s = string_of(&chars_of("'"));
    push_char(&mut s, c);
    match d {
        Some(d) => push_char(&mut s, d),
        None => {},
    }
    append_chars(&mut s, &chars_of("' isn't a valid hex byte"));
    proof {
        match d {
            Some(d) => assert(s@ =~= bad_byte_message(seq![c, d])),
            None => assert(s@ =~= bad_byte_message(seq![c])),
        }
    }
    s
}

// ---- formatting a pattern ----------------------------------------------------

/// One byte as two uppercase hex digits, as `{:02X}` writes it.
pub open spec fn two_hex(b: u8) -> Seq<char> {
    seq![hex_digit((b / 16) as nat), hex_digit((b % 16) as nat)]
}

/// `bytes[..n]` as a pattern: each byte as two hex digits, separated by
/// single spaces.
pub open spec fn pattern_text(bytes: Seq<u8>, n: int) -> Seq<char>
    decreases n,
{
    if n <= 0 {
        seq![]
    } else if n == 1 {
        two_hex(bytes[0])
    } else {
        pattern_text(bytes, n - 1) + seq![' '] + two_hex(bytes[n - 1])
    }
}

/// Formats bytes back as a hex pattern string (`[0x3F, 0xA2]` -> `"3F A2"`),
/// the same format [`parse_hex_pattern`] accepts, so a result can be copied
/// back into the search box.
pub fn format_pattern(bytes: &[u8]) -> (r: String)
    ensures
        r@ == pattern_text(bytes@, bytes@.len() as int),
{
    let mut s = String::new();
    let mut i: usize = 0;
    while i < bytes.len()
        invariant
            i <= bytes.len(),
            s@ == pattern_text(bytes@, i as int),
        decreases bytes.len() - i,
    {
        if i > 0 {
            push_char(&mut s, ' ');
        }
        let b = bytes[i];
        push_char(&mut s, hex_digit_char(b / 16));
        push_char(&mut s, hex_digit_char(b % 16));
        i = i + 1;
        assert(s@ =~= pattern_text(bytes@, i as int));
    }
    s
}

// ---- formatting then parsing ------------------------------------------------------

/// `bytes[..n]` as hex digit pairs with nothing between them.
pub open spec fn hex_digits_of(bytes: Seq<u8>, n: int) -> Seq<char>
    decreases n,
{
    if n <= 0 {
        seq![]
    } else {
        hex_digits_of(bytes, n - 1) + two_hex(bytes[n - 1])
    }
}

proof fn lemma_drop_ws_prefix(s: Seq<char>, t: Seq<char>, n: int)
    requires
        0 <= n <= s.len(),
        n <= t.len(),
        s.take(n) == t.take(n),
    ensures
        drop_ws(s, n) == drop_ws(t, n),
    decreases n,
{
    if n > 0 {
        assert(s[n - 1] == s.take(n)[n - 1]);
        assert(t[n - 1] == t.take(n)[n - 1]);
        assert(s.take(n - 1) =~= s.take(n).take(n - 1));
        assert(t.take(n - 1) =~= t.take(n).take(n - 1));
        lemma_drop_ws_prefix(s, t, n - 1);
    }
}

proof fn lemma_drop_ws_concat(a: Seq<char>, b: Seq<char>, m: int)
    requires
        0 <= m <= b.len(),
    ensures
        drop_ws(a + b, a.len() + m) == drop_ws(a, a.len() as int) + drop_ws(b, m),
    decreases m,
{
    if m == 0 {
        assert((a + b).take(a.len() as int) =~= a.take(a.len() as int));
        lemma_drop_ws_prefix(a + b, a, a.len() as int);
        assert(drop_ws(a, a.len() as int) + drop_ws(b, 0) =~= drop_ws(a, a.len() as int));
    } else {
        lemma_drop_ws_concat(a, b, m - 1);
        assert((a + b)[a.len() + m - 1] == b[m - 1]);
        if is_ws(b[m - 1]) {
        } else {
            assert(drop_ws(a + b, a.len() + m) =~= drop_ws(a, a.len() as int) + drop_ws(b, m));
        }
    }
}

proof fn lemma_two_hex(b: u8)
    ensures
        two_hex(b).len() == 2,
        is_hex(two_hex(b)[0]) && is_hex(two_hex(b)[1]),
        (two_hex(b)[0] as u32) < 0x80 && (two_hex(b)[1] as u32) < 0x80,
        two_hex(b)[0] != '+',
        !is_ws(two_hex(b)[0]) && !is_ws(two_hex(b)[1]),
        hex_val(two_hex(b)[0]) * 16 + hex_val(two_hex(b)[1]) == b,
        drop_ws(two_hex(b), 2) == two_hex(b),
{
    lemma_hex_digit((b / 16) as nat);
    lemma_hex_digit((b % 16) as nat);
    reveal_with_fuel(drop_ws, 3);
    assert(drop_ws(two_hex(b), 2) =~= two_hex(b));
}

proof fn lemma_cleaned_pattern(bytes: Seq<u8>, n: int)
    requires
        1 <= n <= bytes.len(),
    ensures
        drop_ws(pattern_text(bytes, n), pattern_text(bytes, n).len() as int) == hex_digits_of(
            bytes,
            n,
        ),
    decreases n,
{
    lemma_two_hex(bytes[n - 1]);
    if n == 1 {
        assert(hex_digits_of(bytes, 0) =~= Seq::<char>::empty());
        assert(hex_digits_of(bytes, 1) =~= two_hex(bytes[0]));
    } else {
        lemma_cleaned_pattern(bytes, n - 1);
        let p = pattern_text(bytes, n - 1);
        let sp = p + seq![' '];
        lemma_drop_ws_concat(p, seq![' '], 1);
        assert(is_ws(' '));
        reveal_with_fuel(drop_ws, 2);
        assert(drop_ws(seq![' '], 1) =~= Seq::<char>::empty());
        lemma_drop_ws_concat(sp, two_hex(bytes[n - 1]), 2);
        assert(drop_ws(sp, sp.len() as int) =~= hex_digits_of(bytes, n - 1));
    }
}

proof fn lemma_hex_digits_shape(bytes: Seq<u8>, n: int)
    requires
        0 <= n <= bytes.len(),
    ensures
        hex_digits_of(bytes, n).len() == 2 * n,
        forall|k: int|
            0 <= k < n ==> #[trigger] hex_digits_of(bytes, n)[2 * k] == two_hex(bytes[k])[0]
                && hex_digits_of(bytes, n)[2 * k + 1] == two_hex(bytes[k])[1],
    decreases n,
{
    if n > 0 {
        lemma_hex_digits_shape(bytes, n - 1);
        lemma_two_hex(bytes[n - 1]);
        let d = hex_digits_of(bytes, n);
        let p = hex_digits_of(bytes, n - 1);
        assert forall|k: int| 0 <= k < n implies #[trigger] d[2 * k] == two_hex(bytes[k])[0] && d[2
            * k + 1] == two_hex(bytes[k])[1] by {
            if k < n - 1 {
                assert(d[2 * k] == p[2 * k]);
                assert(d[2 * k + 1] == p[2 * k + 1]);
            }
        }
    }
}

proof fn lemma_byte_len_ascii(s: Seq<char>, n: int)
    requires
        0 <= n <= s.len(),
        forall|k: int| 0 <= k < s.len() ==> (#[trigger] s[k] as u32) < 0x80,
    ensures
        byte_len(s, n) == n,
    decreases n,
{
    if n > 0 {
        lemma_byte_len_ascii(s, n - 1);
    }
}

proof fn lemma_scan_digits(bytes: Seq<u8>, k: int)
    requires
        0 <= k <= bytes.len(),
    ensures
        hex_scan(hex_digits_of(bytes, bytes.len() as int), 2 * k) == HexScan::Bytes(
            bytes.subrange(k, bytes.len() as int),
        ),
    decreases bytes.len() - k,
{
    let n = bytes.len() as int;
    let cs = hex_digits_of(bytes, n);
    lemma_hex_digits_shape(bytes, n);
    if k == n {
        assert(bytes.subrange(k, n) =~= Seq::<u8>::empty());
    } else {
        lemma_scan_digits(bytes, k + 1);
        lemma_two_hex(bytes[k]);
        assert(cs[2 * k] == two_hex(bytes[k])[0]);
        assert(cs[2 * k + 1] == two_hex(bytes[k])[1]);
        assert(hex_byte(cs[2 * k], cs[2 * k + 1]) == Some(bytes[k]));
        assert(seq![bytes[k]] + bytes.subrange(k + 1, n) =~= bytes.subrange(k, n));
    }
}

/// A formatted pattern parses back to the bytes it was made from, so a
/// result can be copied back into the search box. (An empty pattern
/// formats as empty text, which parsing refuses.)
pub proof fn formatted_pattern_parses_back(bytes: Seq<u8>)
    requires
        bytes.len() > 0,
    ensures
        !pattern_splits(pattern_text(bytes, bytes.len() as int)),
        hex_pattern_result(pattern_text(bytes, bytes.len() as int)) == Ok::<Seq<u8>, Seq<char>>(
            bytes,
        ),
{
    let n = bytes.len() as int;
    let t = pattern_text(bytes, n);
    lemma_cleaned_pattern(bytes, n);
    let cs = cleaned(t);
    assert(cs == hex_digits_of(bytes, n));
    lemma_hex_digits_shape(bytes, n);
    assert forall|k: int| 0 <= k < cs.len() implies (#[trigger] cs[k] as u32) < 0x80 by {
        let j = k / 2;
        assert(0 <= j < n);
        lemma_two_hex(bytes[j]);
        assert(hex_digits_of(bytes, n)[2 * j] == two_hex(bytes[j])[0]);
        assert(k == 2 * j || k == 2 * j + 1);
    }
    lemma_byte_len_ascii(cs, cs.len() as int);
    lemma_scan_digits(bytes, 0);
    assert(bytes.subrange(0, n) =~= bytes);
}

// ---- searching bytes ---------------------------------------------------------

/// One matched address from an AOB scan, with the bytes found there and the
/// ones it held before the most recent re-read.
#[derive(Debug, Clone, PartialEq)]
pub struct AobMatch {
    pub address: usize,
    pub bytes: Vec<u8>,
    /// What `bytes` were before the last [`next_scan_aob`]; equal to `bytes`
    /// on a first scan.
    pub previous: Vec<u8>,
}

/// An [`AobMatch`] as a mathematical value.
pub struct AobMatchModel {
    pub address: int,
    pub bytes: Seq<u8>,
    pub previous: Seq<u8>,
}

impl View for AobMatch {
    type V = AobMatchModel;

    open spec fn view(&self) -> AobMatchModel {
        AobMatchModel { address: self.address as int, bytes: self.bytes@, previous: self.previous@ }
    }
}

pub open spec fn match_views(v: Seq<AobMatch>) -> Seq<AobMatchModel> {
    v.map_values(|m: AobMatch| m@)
}

/// Result of an AOB first scan. `capped` is true when the result limit was
/// reached before every region was read.
#[derive(Debug, Clone, PartialEq)]
pub struct AobScanResult {
    pub matches: Vec<AobMatch>,
    pub capped: bool,
}

/// A next-scan filter for AOB matches. No Increased/Decreased: meaningless
/// for a byte pattern.
#[derive(Debug, Clone, Copy, PartialEq, Eq, Structural)]
pub enum AobFilter {
    Changed,
    Unchanged,
}

/// `pat` occurs in `bytes` at `start`.
pub open spec fn occurs_at(bytes: Seq<u8>, pat: Seq<u8>, start: int) -> bool {
    0 <= start && start + pat.len() <= bytes.len() && bytes.subrange(start, start + pat.len())
        == pat
}

/// The start offsets below `n` at which a non-empty `pat` occurs in `bytes`,
/// in increasing order.
pub open spec fn occurrences(bytes: Seq<u8>, pat: Seq<u8>, n: int) -> Seq<int>
    decreases n,
{
    if n <= 0 || pat.len() == 0 {
        seq![]
    } else if occurs_at(bytes, pat, n - 1) {
        occurrences(bytes, pat, n - 1).push(n - 1)
    } else {
        occurrences(bytes, pat, n - 1)
    }
}

/// Every occurrence of `pat` in `bytes` read from `base`, as first-scan
/// matches: overlapping occurrences included, in address order.
pub open spec fn pattern_matches(base: int, bytes: Seq<u8>, pat: Seq<u8>) -> Seq<AobMatchModel> {
    occurrences(bytes, pat, bytes.len() as int).map_values(
        |s: int| AobMatchModel { address: base + s, bytes: pat, previous: pat },
    )
}

/// Whether `a == b`, element by element.
pub fn bytes_equal(a: &[u8], b: &[u8]) -> (r: bool)
    ensures
        r == (a@ == b@),
{
    if a.len() != b.len() {
        return false;
    }
    let mut i: usize = 0;
    while i < a.len()
        invariant
            a.len() == b.len(),
            i <= a.len(),
            a@.take(i as int) == b@.take(i as int),
        decreases a.len() - i,
    {
        if a[i] != b[i] {
            assert(a@[i as int] != b@[i as int]);
            return false;
        }
        i = i + 1;
        assert(a@.take(i as int) =~= b@.take(i as int));
    }
    assert(a@ =~= a@.take(i as int));
    assert(b@ =~= b@.take(i as int));
    true
}

fn occurs_at_exec(bytes: &[u8], pat: &[u8], start: usize) -> (r: bool)
    requires
        start + pat.len() <= bytes.len(),
    ensures
        r == occurs_at(bytes@, pat@, start as int),
{
    let mut k: usize = 0;
    while k < pat.len()
        invariant
            start + pat.len() <= bytes.len(),
            k <= pat.len(),
            bytes@.subrange(start as int, start + k) == pat@.take(k as int),
        decreases pat.len() - k,
    {
        if bytes[start + k] != pat[k] {
            assert(bytes@.subrange(start as int, start + pat.len())[k as int] != pat@[k as int]);
            return false;
        }
        k = k + 1;
        assert(bytes@.subrange(start as int, start + k) =~= pat@.take(k as int));
    }
    assert(pat@.take(k as int) =~= pat@);
    true
}

/// A copy of `m`.
pub fn clone_match(m: &AobMatch) -> (r: AobMatch)
    ensures
        r@ == m@,
{
    AobMatch {
        address: m.address,
        bytes: copy_bytes(m.bytes.as_slice()),
        previous: copy_bytes(m.previous.as_slice()),
    }
}

pub fn copy_bytes(b: &[u8]) -> (r: Vec<u8>)
    ensures
        r@ == b@,
{
    let mut r: Vec<u8> = Vec::new();
    let mut i: usize = 0;
    while i < b.len()
        invariant
            i <= b.len(),
            r@ == b@.take(i as int),
        decreases b.len() - i,
    {
        r.push(b[i]);
        i = i + 1;
        assert(r@ =~= b@.take(i as int));
    }
    assert(b@.take(i as int) =~= b@);
    r
}

/// Substring-searches `bytes` (read from `base_address`) for every
/// occurrence of `pattern`. Pure and process-free.
pub fn scan_bytes_for_pattern(base_address: usize, bytes: &[u8], pattern: &[u8]) -> (r: Vec<
    AobMatch,
>)
    requires
        base_address + bytes.len() <= usize::MAX,
    ensures
        match_views(r@) == pattern_matches(base_address as int, bytes@, pattern@),
{
    let mut matches: Vec<AobMatch> = Vec::new();
    if pattern.len() == 0 || bytes.len() < pattern.len() {
        proof {
            lemma_no_occurrences(bytes@, pattern@, bytes.len() as int);
        }
        assert(match_views(matches@) =~= pattern_matches(base_address as int, bytes@, pattern@));
        return matches;
    }
    let last = bytes.len() - pattern.len();
    let mut start: usize = 0;
    while start <= last
        invariant
            pattern.len() > 0,
            last == bytes.len() - pattern.len(),
            base_address + bytes.len() <= usize::MAX,
            start <= last + 1,
            match_views(matches@) == occurrences(bytes@, pattern@, start as int).map_values(
                |s: int| AobMatchModel { address: base_address + s, bytes: pattern@, previous: pattern@ },
            ),
        decreases last + 1 - start,
    {
        let ghost before = matches@;
        if occurs_at_exec(bytes, pattern, start) {
            matches.push(
                AobMatch {
                    address: base_address + start,
                    bytes: copy_bytes(pattern),
                    previous: copy_bytes(pattern),
                },
            );
            assert(match_views(matches@) =~= match_views(before).push(matches@[matches.len() - 1]@));
        }
        start = start + 1;
        assert(match_views(matches@) =~= occurrences(bytes@, pattern@, start as int).map_values(
            |s: int| AobMatchModel { address: base_address + s, bytes: pattern@, previous: pattern@ },
        ));
    }
    proof {
        lemma_occurrences_tail(bytes@, pattern@, start as int, bytes.len() as int);
    }
    matches
}

proof fn lemma_no_occurrences(bytes: Seq<u8>, pat: Seq<u8>, n: int)
    requires
        pat.len() == 0 || bytes.len() < pat.len(),
    ensures
        occurrences(bytes, pat, n) == Seq::<int>::empty(),
    decreases n,
{
    if n > 0 && pat.len() > 0 {
        lemma_no_occurrences(bytes, pat, n - 1);
    }
}

/// No occurrence starts past `bytes.len() - pat.len()`.
proof fn lemma_occurrences_tail(bytes: Seq<u8>, pat: Seq<u8>, k: int, n: int)
    requires
        pat.len() > 0,
        k == bytes.len() - pat.len() + 1,
        k <= n,
    ensures
        occurrences(bytes, pat, n) == occurrences(bytes, pat, k),
    decreases n - k,
{
    if n > k {
        lemma_occurrences_tail(bytes, pat, k, n - 1);
    }
}

// ---- chunks cover the region ---------------------------------------------------

/// The first-scan matches of `pat` at the offsets `ps` of bytes read from
/// `base`.
pub open spec fn matches_at(base: int, pat: Seq<u8>, ps: Seq<int>) -> Seq<AobMatchModel> {
    ps.map_values(|s: int| AobMatchModel { address: base + s, bytes: pat, previous: pat })
}

/// The bytes of the chunk at offset `o` of a region's bytes `r`: `chunk`
/// bytes and `pat.len() - 1` more, cut at the region's end.
pub open spec fn pattern_chunk(r: Seq<u8>, chunk: int, pat: Seq<u8>, o: int) -> Seq<u8> {
    let want = o + chunk + pat.len() - 1;
    r.subrange(o, if want < r.len() { want } else { r.len() as int })
}

/// What scanning a region's bytes `r` for `pat` chunk by chunk from offset
/// `o` on finds, the chunks' matches one after another.
pub open spec fn chunked_pattern_matches(base: int, r: Seq<u8>, pat: Seq<u8>, chunk: int, o: int) -> Seq<
    AobMatchModel,
>
    decreases r.len() - o,
    when chunk > 0
{
    if o >= r.len() {
        seq![]
    } else {
        let here = pattern_matches(base + o, pattern_chunk(r, chunk, pat, o), pat);
        if o + chunk >= r.len() {
            here
        } else {
            here + chunked_pattern_matches(base, r, pat, chunk, o + chunk)
        }
    }
}

proof fn lemma_no_occurrences_between(bytes: Seq<u8>, pat: Seq<u8>, from: int, to: int)
    requires
        from <= to,
        forall|j: int| from <= j < to ==> !#[trigger] occurs_at(bytes, pat, j),
    ensures
        occurrences(bytes, pat, to) == occurrences(bytes, pat, from),
    decreases to - from,
{
    if from < to {
        lemma_no_occurrences_between(bytes, pat, from, to - 1);
    }
}

proof fn lemma_pattern_chunk_prefix(base: int, r: Seq<u8>, pat: Seq<u8>, chunk: int, o: int, n: int)
    requires
        pat.len() > 0,
        chunk > 0,
        0 <= o < r.len(),
        0 <= n <= chunk,
        n <= pattern_chunk(r, chunk, pat, o).len(),
    ensures
        matches_at(base, pat, occurrences(r, pat, o + n)) == matches_at(
            base,
            pat,
            occurrences(r, pat, o),
        ) + matches_at(base + o, pat, occurrences(pattern_chunk(r, chunk, pat, o), pat, n)),
    decreases n,
{
    let w = pattern_chunk(r, chunk, pat, o);
    if n == 0 {
        assert(matches_at(base + o, pat, occurrences(w, pat, 0)) =~= Seq::<AobMatchModel>::empty());
        assert(matches_at(base, pat, occurrences(r, pat, o)) + Seq::<AobMatchModel>::empty()
            =~= matches_at(base, pat, occurrences(r, pat, o)));
    } else {
        let k = n - 1;
        lemma_pattern_chunk_prefix(base, r, pat, chunk, o, k);
        if k + pat.len() <= w.len() {
            assert(w.subrange(k, k + pat.len()) =~= r.subrange(o + k, o + k + pat.len()));
        }
        assert(occurs_at(w, pat, k) == occurs_at(r, pat, o + k));
        let pre = matches_at(base, pat, occurrences(r, pat, o));
        let wm = occurrences(w, pat, k);
        let rm = occurrences(r, pat, o + k);
        if occurs_at(w, pat, k) {
            assert(matches_at(base + o, pat, wm.push(k)) =~= matches_at(base + o, pat, wm).push(
                AobMatchModel { address: base + o + k, bytes: pat, previous: pat },
            ));
            assert(matches_at(base, pat, rm.push(o + k)) =~= matches_at(base, pat, rm).push(
                AobMatchModel { address: base + (o + k), bytes: pat, previous: pat },
            ));
            assert(pre + matches_at(base + o, pat, wm).push(
                AobMatchModel { address: base + o + k, bytes: pat, previous: pat },
            ) =~= (pre + matches_at(base + o, pat, wm)).push(
                AobMatchModel { address: base + (o + k), bytes: pat, previous: pat },
            ));
        }
    }
}

/// Chunked scanning finds every occurrence scanning the whole region at
/// once would, each once: the chunks' overlap of `pat.len() - 1` bytes
/// loses no occurrence that straddles two chunks.
pub proof fn chunks_find_every_occurrence(base: int, r: Seq<u8>, pat: Seq<u8>, chunk: int)
    requires
        pat.len() > 0,
        chunk > 0,
    ensures
        chunked_pattern_matches(base, r, pat, chunk, 0) == pattern_matches(base, r, pat),
{
    lemma_pattern_chunks_from(base, r, pat, chunk, 0);
    assert(matches_at(base, pat, occurrences(r, pat, 0)) =~= Seq::<AobMatchModel>::empty());
    assert(Seq::<AobMatchModel>::empty() + chunked_pattern_matches(base, r, pat, chunk, 0)
        =~= chunked_pattern_matches(base, r, pat, chunk, 0));
}

proof fn lemma_pattern_chunks_from(base: int, r: Seq<u8>, pat: Seq<u8>, chunk: int, o: int)
    requires
        pat.len() > 0,
        chunk > 0,
        0 <= o,
    ensures
        o <= r.len() ==> matches_at(base, pat, occurrences(r, pat, o)) + chunked_pattern_matches(
            base,
            r,
            pat,
            chunk,
            o,
        ) == pattern_matches(base, r, pat),
    decreases r.len() - o,
{
    if o < r.len() {
        let w = pattern_chunk(r, chunk, pat, o);
        let wl = w.len() as int;
        let m = if chunk < wl { chunk } else { wl };
        lemma_pattern_chunk_prefix(base, r, pat, chunk, o, m);
        assert forall|j: int| m <= j < wl implies !#[trigger] occurs_at(w, pat, j) by {}
        lemma_no_occurrences_between(w, pat, m, wl);
        let next = if o + chunk < r.len() { o + chunk } else { r.len() as int };
        if o + m < next {
            assert forall|j: int| o + m <= j < next implies !#[trigger] occurs_at(r, pat, j) by {}
        }
        let a = matches_at(base, pat, occurrences(r, pat, o));
        let b = pattern_matches(base + o, w, pat);
        assert(b == matches_at(base + o, pat, occurrences(w, pat, wl)));
        if o + chunk < r.len() {
            lemma_pattern_chunks_from(base, r, pat, chunk, o + chunk);
            let c = chunked_pattern_matches(base, r, pat, chunk, o + chunk);
            assert(a + (b + c) =~= (a + b) + c);
        } else {
            lemma_no_occurrences_between(r, pat, o + m, r.len() as int);
        }
    } else if o == r.len() {
        let a = matches_at(base, pat, occurrences(r, pat, o));
        assert(chunked_pattern_matches(base, r, pat, chunk, o) =~= Seq::<AobMatchModel>::empty());
        assert(a + Seq::<AobMatchModel>::empty() =~= a);
    }
}

/// `all`, cut to at most `max` matches.
pub open spec fn capped_models(all: Seq<AobMatchModel>, max: nat) -> Seq<AobMatchModel> {
    if all.len() < max {
        all
    } else {
        all.take(max as int)
    }
}

/// The region's occurrences of `pat` below `n`, as matches.
pub open spec fn region_occurrences_below(base: int, r: Seq<u8>, pat: Seq<u8>, n: int) -> Seq<
    AobMatchModel,
> {
    matches_at(base, pat, occurrences(r, pat, n))
}

proof fn lemma_one_pattern_chunk(base: int, r: Seq<u8>, pat: Seq<u8>, chunk: int, o: int)
    requires
        pat.len() > 0,
        chunk > 0,
        0 <= o < r.len(),
    ensures
        region_occurrences_below(
            base,
            r,
            pat,
            if o + chunk < r.len() { o + chunk } else { r.len() as int },
        ) == region_occurrences_below(base, r, pat, o) + pattern_matches(
            base + o,
            pattern_chunk(r, chunk, pat, o),
            pat,
        ),
{
    let w = pattern_chunk(r, chunk, pat, o);
    let wl = w.len() as int;
    let m = if chunk < wl { chunk } else { wl };
    lemma_pattern_chunk_prefix(base, r, pat, chunk, o, m);
    assert forall|j: int| m <= j < wl implies !#[trigger] occurs_at(w, pat, j) by {}
    lemma_no_occurrences_between(w, pat, m, wl);
    let next = if o + chunk < r.len() { o + chunk } else { r.len() as int };
    assert forall|j: int| o + m <= j < next implies !#[trigger] occurs_at(r, pat, j) by {}
    lemma_no_occurrences_between(r, pat, o + m, next);
}

proof fn lemma_occurrences_prefix(base: int, r: Seq<u8>, pat: Seq<u8>, o: int, n: int)
    requires
        0 <= o <= n,
    ensures
        region_occurrences_below(base, r, pat, o).len() <= region_occurrences_below(base, r, pat, n).len(),
        region_occurrences_below(base, r, pat, n).take(
            region_occurrences_below(base, r, pat, o).len() as int,
        ) == region_occurrences_below(base, r, pat, o),
    decreases n - o,
{
    let a = region_occurrences_below(base, r, pat, o);
    if n == o {
        assert(a.take(a.len() as int) =~= a);
    } else {
        lemma_occurrences_prefix(base, r, pat, o, n - 1);
        let b = region_occurrences_below(base, r, pat, n - 1);
        let c = region_occurrences_below(base, r, pat, n);
        if pat.len() > 0 && occurs_at(r, pat, n - 1) {
            assert(c =~= b.push(AobMatchModel { address: base + (n - 1), bytes: pat, previous: pat }));
            assert(c.take(a.len() as int) =~= b.take(a.len() as int));
        } else {
            assert(c == b);
        }
    }
}

/// One chunk of a pattern scan keeps the scan's matches equal to the
/// region's occurrences so far, cut to the limit: if they were the
/// region's occurrences below the chunk's offset, then adding what the
/// chunk finds (as [`AobRegionScan::accept`] does) gives the region's
/// occurrences below the next chunk's offset.
pub proof fn a_pattern_scan_step_keeps_the_region_occurrences(
    before: Seq<AobMatchModel>,
    base: int,
    r: Seq<u8>,
    pat: Seq<u8>,
    chunk: int,
    o: int,
    max: nat,
)
    requires
        pat.len() > 0,
        chunk > 0,
        0 <= o < r.len(),
        before == capped_models(region_occurrences_below(base, r, pat, o), max),
    ensures
        capped_models(before + pattern_matches(base + o, pattern_chunk(r, chunk, pat, o), pat), max)
            == capped_models(
            region_occurrences_below(
                base,
                r,
                pat,
                if o + chunk < r.len() { o + chunk } else { r.len() as int },
            ),
            max,
        ),
{
    lemma_one_pattern_chunk(base, r, pat, chunk, o);
    let a = region_occurrences_below(base, r, pat, o);
    let b = pattern_matches(base + o, pattern_chunk(r, chunk, pat, o), pat);
    if a.len() >= max {
        assert((a.take(max as int) + b).take(max as int) =~= (a + b).take(max as int));
    }
}

/// A pattern scan that stops, having read the whole region or reached its
/// limit, with the region's occurrences so far cut to the limit, holds the
/// first `max` occurrences in the whole region.
pub proof fn a_finished_pattern_scan_holds_the_region_occurrences(
    ms: Seq<AobMatchModel>,
    base: int,
    r: Seq<u8>,
    pat: Seq<u8>,
    o: int,
    max: nat,
)
    requires
        0 <= o <= r.len(),
        ms == capped_models(region_occurrences_below(base, r, pat, o), max),
        o == r.len() || ms.len() >= max,
    ensures
        ms == capped_models(pattern_matches(base, r, pat), max),
{
    let len = r.len() as int;
    assert(region_occurrences_below(base, r, pat, len) == pattern_matches(base, r, pat));
    if o < len {
        lemma_occurrences_prefix(base, r, pat, o, len);
        let a = region_occurrences_below(base, r, pat, o);
        let w = region_occurrences_below(base, r, pat, len);
        assert(w.take(max as int) =~= a.take(max as int)) by {
            assert forall|i: int| 0 <= i < max implies w[i] == a[i] by {
                assert(w.take(a.len() as int)[i] == w[i]);
            }
        }
    }
}

// ---- a region, chunk by chunk --------------------------------------------------

/// Scanning one region for a pattern, a chunk at a time: chunks start every
/// `chunk_size` bytes and are read `pattern.len() - 1` bytes past their
/// nominal end, so an occurrence straddling two chunks is still read whole.
/// Stops once `max_matches` matches are found.
pub struct AobRegionScan {
    pub region: MemoryRegion,
    pub pattern: Vec<u8>,
    pub chunk_size: usize,
    pub max_matches: usize,
    pub offset: usize,
    pub matches: Vec<AobMatch>,
}

impl AobRegionScan {
    /// The scan has nothing left to read.
    pub open spec fn finished(&self) -> bool {
        ||| self.pattern@.len() == 0
        ||| self.offset >= self.region.size
        ||| self.matches@.len() >= self.max_matches
    }

    /// The chunk still to be read: where, and how many bytes.
    pub open spec fn chunk(&self) -> (int, int) {
        let remaining = self.region.size - self.offset;
        let want = self.chunk_size + self.pattern@.len() - 1;
        (
            self.region.base_address + self.offset,
            if remaining < want {
                remaining
            } else {
                want
            },
        )
    }

    /// The region fits in the address space and its chunks can be stepped
    /// through without overflow.
    pub open spec fn well_formed(&self) -> bool {
        &&& self.region.base_address + self.region.size <= usize::MAX
        &&& self.region.size + self.chunk_size <= usize::MAX
        &&& self.chunk_size + self.pattern@.len() <= usize::MAX
        &&& self.matches@.len() <= self.max_matches
    }

    /// Starts scanning `region` for `pattern`.
    pub fn new(region: MemoryRegion, pattern: &[u8], options: ScanOptions, max_matches: usize) -> (s:
        Self)
        requires
            region.base_address + region.size <= usize::MAX,
            region.size + options.chunk_size <= usize::MAX,
            options.chunk_size + pattern@.len() <= usize::MAX,
        ensures
            s.well_formed(),
            s.region == region,
            s.pattern@ == pattern@,
            s.chunk_size == options.chunk_size,
            s.max_matches == max_matches,
            s.offset == 0,
            s.matches@.len() == 0,
    {
        AobRegionScan {
            region,
            pattern: copy_bytes(pattern),
            chunk_size: options.chunk_size,
            max_matches,
            offset: 0,
            matches: Vec::new(),
        }
    }

    /// The next chunk to read, as `(address, length)`, or `None` once the
    /// scan is over.
    pub fn next_read(&self) -> (r: Option<(usize, usize)>)
        requires
            self.well_formed(),
        ensures
            match r {
                Some((a, l)) => !self.finished() && (a as int, l as int) == self.chunk(),
                None => self.finished(),
            },
    {
        if self.pattern.len() == 0 || self.offset >= self.region.size || self.matches.len()
            >= self.max_matches {
            return None;
        }
        let remaining = self.region.size - self.offset;
        let want = self.chunk_size + (self.pattern.len() - 1);
        let len = if remaining < want {
            remaining
        } else {
            want
        };
        Some((self.region.base_address + self.offset, len))
    }

    /// Takes the bytes read for the chunk [`Self::next_read`] named, or
    /// `None` if the read failed (the chunk is skipped, not the region), and
    /// moves on to the next chunk.
    pub fn accept(&mut self, bytes: Option<&[u8]>)
        requires
            old(self).well_formed(),
            !old(self).finished(),
            match bytes {
                Some(b) => b@.len() == old(self).chunk().1,
                None => true,
            },
        ensures
            final(self).region == old(self).region,
            final(self).pattern@ == old(self).pattern@,
            final(self).chunk_size == old(self).chunk_size,
            final(self).max_matches == old(self).max_matches,
            final(self).offset == old(self).offset + old(self).chunk_size,
            ({
                let found = match bytes {
                    Some(b) => pattern_matches(old(self).chunk().0, b@, old(self).pattern@),
                    None => Seq::<AobMatchModel>::empty(),
                };
                match_views(final(self).matches@) == capped_models(
                    match_views(old(self).matches@) + found,
                    old(self).max_matches as nat,
                )
            }),
            final(self).well_formed(),
    {
        let chunk_address = self.region.base_address + self.offset;
        let ghost old_matches = match_views(self.matches@);
        match bytes {
            Some(b) => {
                let found = scan_bytes_for_pattern(chunk_address, b, &self.pattern);
                let ghost fv = match_views(found@);
                let mut k: usize = 0;
                while k < found.len() && self.matches.len() < self.max_matches
                    invariant
                        k <= found.len(),
                        fv == match_views(found@),
                        self.max_matches == old(self).max_matches,
                        self.region == old(self).region,
                        self.offset == old(self).offset,
                        self.chunk_size == old(self).chunk_size,
                        self.pattern@ == old(self).pattern@,
                        self.matches@.len() <= self.max_matches,
                        self.matches@.len() == old_matches.len() + k,
                        match_views(self.matches@) == old_matches + fv.take(k as int),
                    decreases found.len() - k,
                {
                    let ghost before = self.matches@;
                    self.matches.push(clone_match(&found[k]));
                    k = k + 1;
                    assert(match_views(self.matches@) =~= old_matches + fv.take(k as int)) by {
                        assert(match_views(self.matches@) =~= match_views(before).push(
                            fv[k - 1],
                        ));
                        assert(fv.take(k as int) =~= fv.take(k - 1).push(fv[k - 1]));
                    }
                }
                proof {
                    let all = old_matches + fv;
                    let keep = if all.len() < self.max_matches {
                        all.len() as int
                    } else {
                        self.max_matches as int
                    };
                    assert(old_matches + fv.take(k as int) =~= all.take(keep));
                }
            },
            None => {
                assert(old_matches + Seq::<AobMatchModel>::empty() =~= old_matches);
            },
        }
        self.offset = self.offset + self.chunk_size;
    }
}

// ---- a whole first scan ---------------------------------------------------------

/// A first scan across every writable region, one region at a time, each
/// region given what is left of the result limit.
pub struct AobFirstScan {
    pub pattern: Vec<u8>,
    pub options: ScanOptions,
    pub matches: Vec<AobMatch>,
}

impl AobFirstScan {
    pub fn new(pattern: &[u8], options: ScanOptions) -> (s: Self)
        ensures
            s.pattern@ == pattern@,
            s.options == options,
            s.matches@.len() == 0,
    {
        AobFirstScan { pattern: copy_bytes(pattern), options, matches: Vec::new() }
    }

    /// The scan of the next region, with what is left of the result limit
    /// as its own limit, or `None` once the limit is reached and no further
    /// region should be read.
    pub fn region_scan(&self, region: MemoryRegion) -> (r: Option<AobRegionScan>)
        requires
            self.matches@.len() <= self.options.max_results,
            region.base_address + region.size <= usize::MAX,
            region.size + self.options.chunk_size <= usize::MAX,
            self.options.chunk_size + self.pattern@.len() <= usize::MAX,
        ensures
            match r {
                None => self.matches@.len() == self.options.max_results,
                Some(s) => {
                    &&& self.matches@.len() < self.options.max_results
                    &&& s.well_formed()
                    &&& s.region == region
                    &&& s.pattern@ == self.pattern@
                    &&& s.chunk_size == self.options.chunk_size
                    &&& s.max_matches == self.options.max_results - self.matches@.len()
                    &&& s.offset == 0
                    &&& s.matches@.len() == 0
                },
            },
    {
        let budget = self.options.max_results - self.matches.len();
        if budget == 0 {
            return None;
        }
        Some(AobRegionScan::new(region, self.pattern.as_slice(), self.options, budget))
    }

    /// Adds the matches a region scan found.
    pub fn absorb(&mut self, scan: AobRegionScan)
        requires
            old(self).matches@.len() + scan.matches@.len() <= old(self).options.max_results,
        ensures
            final(self).pattern@ == old(self).pattern@,
            final(self).options == old(self).options,
            match_views(final(self).matches@) == match_views(old(self).matches@) + match_views(
                scan.matches@,
            ),
            final(self).matches@.len() <= final(self).options.max_results,
    {
        let mut scan = scan;
        let ghost before = match_views(self.matches@);
        let ghost added = match_views(scan.matches@);
        self.matches.append(&mut scan.matches);
        assert(match_views(self.matches@) =~= before + added);
    }

    /// The result: every match found, and whether the limit was reached.
    pub fn result(self) -> (r: AobScanResult)
        ensures
            match_views(r.matches@) == match_views(self.matches@),
            r.capped == (self.matches@.len() >= self.options.max_results),
    {
        let capped = self.matches.len() >= self.options.max_results;
        AobScanResult { matches: self.matches, capped }
    }
}

// ---- next scan -------------------------------------------------------------------

/// What a next scan keeps of one match, given what re-reading its bytes
/// gave (`None` when the read failed): a match that can't be re-read is
/// dropped; one that passes the filter keeps its address, takes the new
/// bytes, and remembers the ones it was compared against.
pub open spec fn rescan(m: AobMatchModel, reread: Option<Seq<u8>>, filter: AobFilter) -> Option<
    AobMatchModel,
> {
    match reread {
        None => None,
        Some(b) => {
            let changed = b != m.bytes;
            let passes = match filter {
                AobFilter::Changed => changed,
                AobFilter::Unchanged => !changed,
            };
            if passes {
                Some(AobMatchModel { address: m.address, bytes: b, previous: m.bytes })
            } else {
                None
            }
        },
    }
}

pub open spec fn reread_views(v: Seq<Option<Vec<u8>>>) -> Seq<Option<Seq<u8>>> {
    v.map_values(
        |o: Option<Vec<u8>>|
            match o {
                Some(b) => Some(b@),
                None => None,
            },
    )
}

/// The survivors among the first `n` matches, in order.
pub open spec fn survivors(
    ms: Seq<AobMatchModel>,
    rereads: Seq<Option<Seq<u8>>>,
    filter: AobFilter,
    n: int,
) -> Seq<AobMatchModel>
    decreases n,
{
    if n <= 0 {
        seq![]
    } else {
        let rest = survivors(ms, rereads, filter, n - 1);
        match rescan(ms[n - 1], rereads[n - 1], filter) {
            Some(m) => rest.push(m),
            None => rest,
        }
    }
}

/// Re-checks previously matched addresses against `filter`. `rereads[i]`
/// is what re-reading `matches[i].bytes.len()` bytes at
/// `matches[i].address` gave. Surviving matches take the bytes found now,
/// and the bytes they were compared against become `previous`, so a second
/// `Changed` scan compares against what the first one found.
pub fn next_scan_aob(matches: &[AobMatch], rereads: &[Option<Vec<u8>>], filter: AobFilter) -> (r:
    Vec<AobMatch>)
    requires
        rereads@.len() == matches@.len(),
    ensures
        match_views(r@) == survivors(
            match_views(matches@),
            reread_views(rereads@),
            filter,
            matches@.len() as int,
        ),
{
    let ghost ms = match_views(matches@);
    let ghost rs = reread_views(rereads@);
    let mut out: Vec<AobMatch> = Vec::new();
    let mut i: usize = 0;
    while i < matches.len()
        invariant
            i <= matches.len(),
            rereads@.len() == matches@.len(),
            ms == match_views(matches@),
            rs == reread_views(rereads@),
            match_views(out@) == survivors(ms, rs, filter, i as int),
        decreases matches.len() - i,
    {
        let m = &matches[i];
        assert(ms[i as int] == m@);
        let ghost before = match_views(out@);
        match &rereads[i] {
            None => {},
            Some(bytes) => {
                assert(rs[i as int] == Some(bytes@));
                let changed = !bytes_equal(bytes.as_slice(), m.bytes.as_slice());
                let passes = match filter {
                    AobFilter::Changed => changed,
                    AobFilter::Unchanged => !changed,
                };
                if passes {
                    out.push(
                        AobMatch {
                            address: m.address,
                            bytes: copy_bytes(bytes.as_slice()),
                            previous: copy_bytes(m.bytes.as_slice()),
                        },
                    );
                    assert(match_views(out@) =~= before.push(out@[out.len() - 1]@));
                }
            },
        }
        i = i + 1;
    }
    out
}

/// Everything a next scan keeps passed the filter against the bytes
/// recorded at its address, keeps that address, and remembers those bytes
/// as its previous ones.
pub proof fn aob_survivors_passed_against_the_recorded_bytes(
    ms: Seq<AobMatchModel>,
    rereads: Seq<Option<Seq<u8>>>,
    filter: AobFilter,
    n: int,
    j: int,
)
    requires
        0 <= n <= ms.len(),
        n <= rereads.len(),
        0 <= j < survivors(ms, rereads, filter, n).len(),
    ensures
        ({
            let s = survivors(ms, rereads, filter, n)[j];
            exists|i: int|
                0 <= i < n && s.address == (#[trigger] ms[i]).address && s.previous == ms[i].bytes
                    && (match filter {
                    AobFilter::Changed => s.bytes != ms[i].bytes,
                    AobFilter::Unchanged => s.bytes == ms[i].bytes,
                })
        }),
    decreases n,
{
    let rest = survivors(ms, rereads, filter, n - 1);
    if j < rest.len() {
        aob_survivors_passed_against_the_recorded_bytes(ms, rereads, filter, n - 1, j);
        let s = rest[j];
        let i = choose|i: int|
            0 <= i < n - 1 && s.address == (#[trigger] ms[i]).address && s.previous == ms[i].bytes
                && (match filter {
                AobFilter::Changed => s.bytes != ms[i].bytes,
                AobFilter::Unchanged => s.bytes == ms[i].bytes,
            });
        assert(survivors(ms, rereads, filter, n)[j] == rest[j]);
        assert(0 <= i < n);
    } else {
        assert(survivors(ms, rereads, filter, n)[j] == rescan(ms[n - 1], rereads[n - 1], filter)->0);
        assert(0 <= n - 1 < n);
    }
}

/// How many of the first `n` re-reads succeeded.
pub open spec fn readable_count(rereads: Seq<Option<Seq<u8>>>, n: int) -> nat
    decreases n,
{
    if n <= 0 {
        0
    } else {
        readable_count(rereads, n - 1) + if rereads[n - 1] is Some {
            1nat
        } else {
            0nat
        }
    }
}

/// A `Changed` and an `Unchanged` scan over the same re-reads split the
/// matches that could be re-read between them, each kept by exactly one,
/// and both drop the ones that could not.
pub proof fn changed_and_unchanged_split_the_readable_matches(
    ms: Seq<AobMatchModel>,
    rereads: Seq<Option<Seq<u8>>>,
    n: int,
)
    requires
        0 <= n <= ms.len(),
        n <= rereads.len(),
    ensures
        survivors(ms, rereads, AobFilter::Changed, n).len() + survivors(
            ms,
            rereads,
            AobFilter::Unchanged,
            n,
        ).len() == readable_count(rereads, n),
    decreases n,
{
    if n > 0 {
        changed_and_unchanged_split_the_readable_matches(ms, rereads, n - 1);
    }
}

proof fn lemma_upper_drop_ws(s: Seq<char>, n: int)
    requires
        0 <= n <= s.len(),
    ensures
        drop_ws(crate::strings::upper(s), n) == crate::strings::upper(drop_ws(s, n)),
    decreases n,
{
    if n > 0 {
        lemma_upper_drop_ws(s, n - 1);
        let c = s[n - 1];
        assert(crate::strings::upper(s)[n - 1] == crate::strings::upper_char(c));
        assert(is_ws(crate::strings::upper_char(c)) == is_ws(c));
        let d = drop_ws(s, n - 1);
        assert(crate::strings::upper(d.push(c)) =~= crate::strings::upper(d).push(
            crate::strings::upper_char(c),
        ));
    } else {
        assert(crate::strings::upper(Seq::<char>::empty()) =~= Seq::<char>::empty());
    }
}

proof fn lemma_upper_byte_len(s: Seq<char>, n: int)
    requires
        0 <= n <= s.len(),
    ensures
        byte_len(crate::strings::upper(s), n) == byte_len(s, n),
    decreases n,
{
    if n > 0 {
        lemma_upper_byte_len(s, n - 1);
        assert(crate::strings::upper(s)[n - 1] == crate::strings::upper_char(s[n - 1]));
    }
}

proof fn lemma_upper_hex_scan(cs: Seq<char>, i: int)
    requires
        0 <= i,
    ensures
        ({
            let u = crate::strings::upper(cs);
            &&& (hex_scan(cs, i) matches HexScan::Bytes(b) ==> hex_scan(u, i) == HexScan::Bytes(b))
            &&& (hex_scan(u, i) matches HexScan::Bytes(b) ==> hex_scan(cs, i) == HexScan::Bytes(b))
            &&& (hex_scan(cs, i) is Split <==> hex_scan(u, i) is Split)
        }),
    decreases cs.len() - i,
{
    let u = crate::strings::upper(cs);
    if i < cs.len() {
        assert(u[i] == crate::strings::upper_char(cs[i]));
        if i + 1 < cs.len() {
            assert(u[i + 1] == crate::strings::upper_char(cs[i + 1]));
            crate::hex::hex_digits_are_read_in_either_case(cs[i]);
            crate::hex::hex_digits_are_read_in_either_case(cs[i + 1]);
            assert(hex_byte(u[i], u[i + 1]) == hex_byte(cs[i], cs[i + 1]));
            lemma_upper_hex_scan(cs, i + 2);
        }
    }
}

/// Hex digits are read whatever their case: a pattern parses to bytes
/// exactly when its uppercase form does, and to the same bytes.
pub proof fn a_pattern_parses_the_same_in_either_case(text: Seq<char>)
    ensures
        hex_pattern_result(text) matches Ok(b) ==> hex_pattern_result(crate::strings::upper(text))
            == Ok::<Seq<u8>, Seq<char>>(b),
        hex_pattern_result(crate::strings::upper(text)) matches Ok(b) ==> hex_pattern_result(text)
            == Ok::<Seq<u8>, Seq<char>>(b),
        pattern_splits(text) <==> pattern_splits(crate::strings::upper(text)),
{
    let u = crate::strings::upper(text);
    lemma_upper_drop_ws(text, text.len() as int);
    let cs = cleaned(text);
    assert(cleaned(u) == crate::strings::upper(cs));
    lemma_upper_byte_len(cs, cs.len() as int);
    lemma_upper_hex_scan(cs, 0);
}

} // verus!
