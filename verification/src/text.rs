//! Text and bytes for string-typed entries. A string entry's buffer length
//! is fixed when the entry is created or imported; `zero_terminated` only
//! affects display, truncating the decoded text at the first NUL inside that
//! fixed buffer.
use vstd::prelude::*;

use crate::strings::{append_chars, chars_of, push_char};

verus! {

/// The two string encodings Ferrite supports, matching the two Cheat Engine
/// exposes.
#[derive(Debug, Clone, Copy, PartialEq, Eq, Structural)]
pub enum TextEncoding {
    /// One byte per character, byte value == code point: Cheat Engine's
    /// plain `String`. Bytes 0x80-0xFF decode to U+0080-U+00FF, which makes
    /// encode/decode a true round trip.
    Latin1,
    /// UTF-16, little-endian: Cheat Engine's `Unicode String`.
    Utf16Le,
}

impl TextEncoding {
    /// Bytes per character in this encoding: the multiplier that turns a
    /// `.CT` `<Length>` (a character count) into a buffer size.
    pub fn bytes_per_char(self) -> (r: usize)
        ensures
            r == (match self {
                TextEncoding::Latin1 => 1usize,
                TextEncoding::Utf16Le => 2usize,
            }),
    {
        match self {
            TextEncoding::Latin1 => 1,
            TextEncoding::Utf16Le => 2,
        }
    }
}

/// What `{:?}` writes for a character.
pub uninterp spec fn debug_char(c: char) -> Seq<char>;

/// `c` as `{:?}` writes it, quotes and escapes included.
#[verifier::external_body]
fn char_debug_text(c: char) -> (r: String)
    ensures
        r@ == debug_char(c),
{
    format!("{c:?}")
}

/// The character whose scalar value is `u`, through `char::from_u32`.
#[verifier::external_body]
fn char_from_u32(u: u32) -> (r: Option<char>)
    ensures
        r is Some <==> is_scalar_value(u),
        r matches Some(c) ==> c as u32 == u,
{
    char::from_u32(u)
}

/// A Unicode scalar value: not above U+10FFFF and not a surrogate.
pub open spec fn is_scalar_value(u: u32) -> bool {
    u <= 0x10FFFF && !(0xD800 <= u <= 0xDFFF)
}

/// The UTF-16 code units of `c`.
pub open spec fn utf16_units(c: char) -> Seq<u16> {
    let u = c as u32;
    if u < 0x10000 {
        seq![u as u16]
    } else {
        let v = (u - 0x10000) as nat;
        seq![(0xD800 + v / 1024) as u16, (0xDC00 + v % 1024) as u16]
    }
}

/// A code unit as two little-endian bytes.
pub open spec fn le16(w: u16) -> Seq<u8> {
    seq![(w % 256) as u8, (w / 256) as u8]
}

pub open spec fn utf16le_char(c: char) -> Seq<u8> {
    let units = utf16_units(c);
    if units.len() == 1 {
        le16(units[0])
    } else {
        le16(units[0]) + le16(units[1])
    }
}

/// `s[..n]` in UTF-16LE.
pub open spec fn utf16le(s: Seq<char>, n: int) -> Seq<u8>
    decreases n,
{
    if n <= 0 {
        seq![]
    } else {
        utf16le(s, n - 1) + utf16le_char(s[n - 1])
    }
}

/// `s[..n]` in Latin-1, when every character of it fits in a byte.
pub open spec fn latin1(s: Seq<char>, n: int) -> Seq<u8>
    decreases n,
{
    if n <= 0 {
        seq![]
    } else {
        latin1(s, n - 1).push((s[n - 1] as u32) as u8)
    }
}

/// The first character of `s` that Latin-1 can't hold.
pub open spec fn first_wide(s: Seq<char>, from: int) -> Option<int>
    decreases s.len() - from,
{
    if from < 0 || from >= s.len() {
        None
    } else if (s[from] as u32) > 255 {
        Some(from)
    } else {
        first_wide(s, from + 1)
    }
}

pub open spec fn not_latin1_message(c: char) -> Seq<char> {
    debug_char(c) + " can't be encoded as a single byte - use Unicode String instead"@
}

/// What [`encode_text`] gives for `text`.
pub open spec fn encoded(text: Seq<char>, encoding: TextEncoding) -> Result<Seq<u8>, Seq<char>> {
    match encoding {
        TextEncoding::Latin1 => match first_wide(text, 0) {
            Some(k) => Err(not_latin1_message(text[k])),
            None => Ok(latin1(text, text.len() as int)),
        },
        TextEncoding::Utf16Le => Ok(utf16le(text, text.len() as int)),
    }
}

proof fn lemma_first_wide_skip(s: Seq<char>, i: int)
    requires
        0 <= i <= s.len(),
        forall|k: int| 0 <= k < i ==> (#[trigger] s[k] as u32) <= 255,
    ensures
        first_wide(s, 0) == first_wide(s, i),
    decreases i,
{
    if i > 0 {
        lemma_first_wide_skip_from(s, 0, i);
    }
}

proof fn lemma_first_wide_skip_from(s: Seq<char>, from: int, i: int)
    requires
        0 <= from <= i <= s.len(),
        forall|k: int| from <= k < i ==> (#[trigger] s[k] as u32) <= 255,
    ensures
        first_wide(s, from) == first_wide(s, i),
    decreases i - from,
{
    if from < i {
        lemma_first_wide_skip_from(s, from + 1, i);
    }
}

/// Encodes `text` for a scan or a write. Fails only for Latin-1 text with a
/// character above U+00FF, which has no single-byte form: reported rather
/// than silently replaced, so a search that could never match is never
/// issued.
pub fn encode_text(text: &str, encoding: TextEncoding) -> (r: Result<Vec<u8>, String>)
    ensures
        match r {
            Ok(b) => encoded(text@, encoding) == Ok::<Seq<u8>, Seq<char>>(b@),
            Err(m) => encoded(text@, encoding) == Err::<Seq<u8>, Seq<char>>(m@),
        },
{
    let chars = chars_of(text);
    let mut out: Vec<u8> = Vec::new();
    let mut i: usize = 0;
    match encoding {
        TextEncoding::Latin1 => {
            while i < chars.len()
                invariant
                    i <= chars.len(),
                    chars@ == text@,
                    encoding == TextEncoding::Latin1,
                    out@ == latin1(text@, i as int),
                    forall|k: int| 0 <= k < i ==> (#[trigger] text@[k] as u32) <= 255,
                decreases chars.len() - i,
            {
                let c = chars[i];
                if (c as u32) > 255 {
                    proof {
                        lemma_first_wide_skip(text@, i as int);
                        assert(first_wide(text@, i as int) == Some(i as int));
                    }
                    let mut m = char_debug_text(c);
                    append_chars(
                        &mut m,
                        &chars_of(" can't be encoded as a single byte - use Unicode String instead"),
                    );
                    assert(m@ =~= not_latin1_message(text@[i as int]));
                    assert(encoded(text@, encoding) == Err::<Seq<u8>, Seq<char>>(
                        not_latin1_message(text@[i as int]),
                    ));
                    return Err(m);
                }
                out.push((c as u32) as u8);
                i = i + 1;
            }
            proof {
                lemma_first_wide_skip(text@, i as int);
            }
            Ok(out)
        },
        TextEncoding::Utf16Le => {
            while i < chars.len()
                invariant
                    i <= chars.len(),
                    chars@ == text@,
                    out@ == utf16le(text@, i as int),
                decreases chars.len() - i,
            {
                let u = chars[i] as u32;
                let ghost before = out@;
                if u < 0x10000 {
                    let w = u as u16;
                    out.push((w % 256) as u8);
                    out.push((w / 256) as u8);
                } else {
                    let v = u - 0x10000;
                    let hi = (0xD800 + v / 1024) as u16;
                    let lo = (0xDC00 + v % 1024) as u16;
                    out.push((hi % 256) as u8);
                    out.push((hi / 256) as u8);
                    out.push((lo % 256) as u8);
                    out.push((lo / 256) as u8);
                }
                i = i + 1;
                assert(out@ =~= utf16le(text@, i as int));
            }
            Ok(out)
        },
    }
}

// ---- decoding ----------------------------------------------------------------------

/// The first position below `n` where `v` holds zero, or `n`.
pub open spec fn zero_cut<T>(v: Seq<T>, zero: T) -> int
    decreases v.len(),
{
    if v.len() == 0 {
        0
    } else if zero_cut(v.drop_last(), zero) < v.len() - 1 {
        zero_cut(v.drop_last(), zero)
    } else if v.last() == zero {
        v.len() - 1
    } else {
        v.len() as int
    }
}

/// The 16-bit units of `bytes`, little-endian, a trailing odd byte dropped.
pub open spec fn units_of(bytes: Seq<u8>) -> Seq<u16> {
    Seq::new(
        (bytes.len() / 2) as nat,
        |k: int| (bytes[2 * k] as int + 256 * bytes[2 * k + 1] as int) as u16,
    )
}

pub open spec fn is_high(w: u16) -> bool {
    0xD800 <= w <= 0xDBFF
}

pub open spec fn is_low(w: u16) -> bool {
    0xDC00 <= w <= 0xDFFF
}

/// `units[i..]` decoded as `String::from_utf16_lossy` does: a surrogate
/// pair becomes one character, and an unpaired surrogate becomes U+FFFD.
pub open spec fn utf16_lossy(units: Seq<u16>, i: int) -> Seq<char>
    decreases units.len() - i,
{
    if i < 0 || i >= units.len() {
        seq![]
    } else {
        let w = units[i];
        if !is_high(w) && !is_low(w) {
            seq![(w as u32) as char] + utf16_lossy(units, i + 1)
        } else if is_high(w) && i + 1 < units.len() && is_low(units[i + 1]) {
            let c = (0x10000 + (w - 0xD800) * 1024 + (units[i + 1] - 0xDC00)) as u32;
            seq![c as char] + utf16_lossy(units, i + 2)
        } else {
            seq!['\u{FFFD}'] + utf16_lossy(units, i + 1)
        }
    }
}

/// What [`decode_text`] shows for `bytes`.
pub open spec fn decoded(bytes: Seq<u8>, encoding: TextEncoding, zero_terminated: bool) -> Seq<
    char,
> {
    match encoding {
        TextEncoding::Latin1 => {
            let b = if zero_terminated {
                bytes.take(zero_cut(bytes, 0u8))
            } else {
                bytes
            };
            b.map_values(|x: u8| (x as u32) as char)
        },
        TextEncoding::Utf16Le => {
            let u = units_of(bytes);
            let u = if zero_terminated {
                u.take(zero_cut(u, 0u16))
            } else {
                u
            };
            utf16_lossy(u, 0)
        },
    }
}

proof fn lemma_zero_cut_is<T>(v: Seq<T>, zero: T, j: int)
    requires
        0 <= j <= v.len(),
        forall|k: int| 0 <= k < j ==> v[k] != zero,
        j < v.len() ==> v[j] == zero,
    ensures
        zero_cut(v, zero) == j,
    decreases v.len(),
{
    if v.len() > 0 {
        if j < v.len() {
            if j < v.len() - 1 {
                lemma_zero_cut_is(v.drop_last(), zero, j);
            } else {
                lemma_zero_cut_is(v.drop_last(), zero, j);
            }
        } else {
            lemma_zero_cut_is(v.drop_last(), zero, j - 1);
        }
    }
}

/// Decodes a fixed-length buffer read from the target process for display.
/// `zero_terminated` truncates at the first NUL character: for UTF-16LE the
/// first zero 16-bit unit, not the first zero byte. Never fails: unpaired
/// surrogates become U+FFFD, and a trailing odd byte is dropped.
pub fn decode_text(bytes: &[u8], encoding: TextEncoding, zero_terminated: bool) -> (r: String)
    ensures
        r@ == decoded(bytes@, encoding, zero_terminated),
{
    let mut s = String::new();
    assert(s@ =~= Seq::<char>::empty());
    match encoding {
        TextEncoding::Latin1 => {
            let mut end = bytes.len();
            if zero_terminated {
                let mut j: usize = 0;
                while j < bytes.len() && bytes[j] != 0
                    invariant
                        j <= bytes.len(),
                        forall|k: int| 0 <= k < j ==> bytes@[k] != 0u8,
                    decreases bytes.len() - j,
                {
                    j = j + 1;
                }
                proof {
                    lemma_zero_cut_is(bytes@, 0u8, j as int);
                }
                end = j;
            }
            let ghost b = if zero_terminated {
                bytes@.take(zero_cut(bytes@, 0u8))
            } else {
                bytes@
            };
            assert(b =~= bytes@.take(end as int));
            let mut i: usize = 0;
            while i < end
                invariant
                    i <= end <= bytes.len(),
                    b == bytes@.take(end as int),
                    s@ == b.take(i as int).map_values(|x: u8| (x as u32) as char),
                decreases end - i,
            {
                push_char(&mut s, bytes[i] as char);
                i = i + 1;
                assert(s@ =~= b.take(i as int).map_values(|x: u8| (x as u32) as char));
            }
            assert(b.take(i as int) =~= b);
            s
        },
        TextEncoding::Utf16Le => {
            let mut units: Vec<u16> = Vec::new();
            let n = bytes.len() / 2;
            let mut k: usize = 0;
            while k < n
                invariant
                    k <= n,
                    n == bytes.len() / 2,
                    units@ == units_of(bytes@).take(k as int),
                decreases n - k,
            {
                let w = (bytes[2 * k] as u16) + 256 * (bytes[2 * k + 1] as u16);
                units.push(w);
                k = k + 1;
                assert(units@ =~= units_of(bytes@).take(k as int));
            }
            assert(units@ =~= units_of(bytes@));
            let mut end = units.len();
            if zero_terminated {
                let mut j: usize = 0;
                while j < units.len() && units[j] != 0
                    invariant
                        j <= units.len(),
                        forall|m: int| 0 <= m < j ==> units@[m] != 0u16,
                    decreases units.len() - j,
                {
                    j = j + 1;
                }
                proof {
                    lemma_zero_cut_is(units@, 0u16, j as int);
                }
                end = j;
            }
            let ghost u = if zero_terminated {
                units@.take(zero_cut(units@, 0u16))
            } else {
                units@
            };
            assert(u =~= units@.take(end as int));
            let mut i: usize = 0;
            while i < end
                invariant
                    i <= end <= units.len(),
                    u == units@.take(end as int),
                    utf16_lossy(u, 0) == s@ + utf16_lossy(u, i as int),
                decreases end - i,
            {
                let w = units[i];
                let ghost s0 = s@;
                let ghost i0 = i as int;
                assert(u[i0] == w);
                if !(0xD800 <= w && w <= 0xDFFF) {
                    match char_from_u32(w as u32) {
                        Some(c) => {
                            push_char(&mut s, c);
                            proof {
                                vstd::utf8::char_u32_cast(c, w as u32);
                            }
                        },
                        None => {
                            assert(false);
                        },
                    }
                    i = i + 1;
                } else if w <= 0xDBFF && i + 1 < end && 0xDC00 <= units[i + 1] && units[i + 1]
                    <= 0xDFFF {
                    let lo = units[i + 1];
                    assert(u[i0 + 1] == lo);
                    let code = 0x10000u32 + ((w - 0xD800) as u32) * 1024 + ((lo - 0xDC00) as u32);
                    match char_from_u32(code) {
                        Some(c) => {
                            push_char(&mut s, c);
                            proof {
                                vstd::utf8::char_u32_cast(c, code);
                            }
                        },
                        None => {
                            assert(false);
                        },
                    }
                    i = i + 2;
                } else {
                    push_char(&mut s, '\u{FFFD}');
                    i = i + 1;
                }
                assert(s@ + utf16_lossy(u, i as int) =~= s0 + utf16_lossy(u, i0));
            }
            s
        },
    }
}

// ---- round trips ---------------------------------------------------------------------

/// Every character of `s` fits in one Latin-1 byte.
pub open spec fn fits_latin1(s: Seq<char>) -> bool {
    forall|k: int| 0 <= k < s.len() ==> (#[trigger] s[k] as u32) <= 255
}

proof fn lemma_latin1_bytes(s: Seq<char>, n: int)
    requires
        0 <= n <= s.len(),
    ensures
        latin1(s, n).len() == n,
        forall|k: int| 0 <= k < n ==> #[trigger] latin1(s, n)[k] == ((s[k] as u32) as u8),
    decreases n,
{
    if n > 0 {
        lemma_latin1_bytes(s, n - 1);
    }
}

proof fn lemma_first_wide_none(s: Seq<char>, from: int)
    requires
        0 <= from,
        forall|k: int| from <= k < s.len() ==> (#[trigger] s[k] as u32) <= 255,
    ensures
        first_wide(s, from) is None,
    decreases s.len() - from,
{
    if from < s.len() {
        lemma_first_wide_none(s, from + 1);
    }
}

/// Latin-1 text encodes, and decoding the bytes (without truncation at a
/// NUL) gives the text back: a byte's value is its character's code point.
pub proof fn latin1_round_trip(text: Seq<char>)
    requires
        fits_latin1(text),
    ensures
        encoded(text, TextEncoding::Latin1) matches Ok(b) && decoded(b, TextEncoding::Latin1, false)
            == text,
{
    lemma_first_wide_none(text, 0);
    let b = latin1(text, text.len() as int);
    lemma_latin1_bytes(text, text.len() as int);
    let d = decoded(b, TextEncoding::Latin1, false);
    assert forall|k: int| 0 <= k < text.len() implies d[k] == text[k] by {
        let c = text[k];
        let u = c as u32;
        assert(u <= 255);
        assert(b[k] == (u as u8));
        assert(((u as u8) as u32) == u);
        vstd::utf8::char_u32_cast(c, u);
    }
    assert(d =~= text);
}

/// The UTF-16 code units of `s[..n]`.
pub open spec fn units_upto(s: Seq<char>, n: int) -> Seq<u16>
    decreases n,
{
    if n <= 0 {
        seq![]
    } else {
        units_upto(s, n - 1) + utf16_units(s[n - 1])
    }
}

proof fn lemma_units_prefix(s: Seq<char>, n: int, m: int)
    requires
        0 <= n <= m <= s.len(),
    ensures
        units_upto(s, n).len() <= units_upto(s, m).len(),
        units_upto(s, m).subrange(0, units_upto(s, n).len() as int) == units_upto(s, n),
    decreases m,
{
    if n < m {
        lemma_units_prefix(s, n, m - 1);
        let a = units_upto(s, n);
        let b = units_upto(s, m - 1);
        let c = units_upto(s, m);
        assert(c.subrange(0, b.len() as int) =~= b);
        assert(c.subrange(0, a.len() as int) =~= b.subrange(0, a.len() as int));
    } else {
        assert(units_upto(s, m).subrange(0, units_upto(s, n).len() as int) =~= units_upto(s, n));
    }
}

proof fn lemma_bytes_to_units(s: Seq<char>, n: int)
    requires
        0 <= n <= s.len(),
    ensures
        utf16le(s, n).len() == 2 * units_upto(s, n).len(),
        units_of(utf16le(s, n)) == units_upto(s, n),
    decreases n,
{
    if n > 0 {
        lemma_bytes_to_units(s, n - 1);
        let prev = utf16le(s, n - 1);
        let b = utf16le(s, n);
        let u = units_upto(s, n);
        let c = s[n - 1];
        let cu = utf16_units(c);
        assert(b.len() == 2 * u.len());
        assert forall|k: int| 0 <= k < u.len() implies (b[2 * k] as int + 256 * b[2 * k + 1] as int)
            as u16 == #[trigger] u[k] by {
            let pl = units_upto(s, n - 1).len() as int;
            if k < pl {
                assert(b[2 * k] == prev[2 * k]);
                assert(b[2 * k + 1] == prev[2 * k + 1]);
                assert(u[k] == units_upto(s, n - 1)[k]);
                assert(units_of(prev)[k] == units_upto(s, n - 1)[k]);
            } else {
                let j = k - pl;
                let w = cu[j];
                assert(u[k] == w);
                assert(b[2 * k] == (w % 256) as u8);
                assert(b[2 * k + 1] == (w / 256) as u8);
            }
        }
        assert(units_of(b) =~= u);
    } else {
        assert(units_of(utf16le(s, n)) =~= units_upto(s, n));
    }
}

proof fn lemma_lossy_from(s: Seq<char>, k: int)
    requires
        0 <= k <= s.len(),
    ensures
        utf16_lossy(units_upto(s, s.len() as int), units_upto(s, k).len() as int) == s.skip(k),
    decreases s.len() - k,
{
    let all = units_upto(s, s.len() as int);
    let i = units_upto(s, k).len() as int;
    lemma_units_prefix(s, k, s.len() as int);
    if k == s.len() {
        assert(s.skip(k) =~= Seq::<char>::empty());
    } else {
        lemma_units_prefix(s, k + 1, s.len() as int);
        lemma_lossy_from(s, k + 1);
        let c = s[k];
        let cu = utf16_units(c);
        let next = units_upto(s, k + 1);
        assert(next == units_upto(s, k) + cu);
        assert(all.subrange(0, next.len() as int) == next);
        let u = c as u32;
        vstd::utf8::char_is_scalar(c);
        if u < 0x10000 {
            let w = u as u16;
            assert(all[i] == next[i]);
            assert(next[i] == w);
            assert(!is_high(w) && !is_low(w));
            assert((w as u32) == u);
            vstd::utf8::char_u32_cast(c, u);
            assert(s.skip(k) =~= seq![c] + s.skip(k + 1));
        } else {
            let v = (u - 0x10000) as nat;
            assert(v < 0x10_0000);
            vstd::arithmetic::div_mod::lemma_fundamental_div_mod(v as int, 1024);
            let hi = (0xD800 + v / 1024) as u16;
            let lo = (0xDC00 + v % 1024) as u16;
            assert(all[i] == next[i] && next[i] == hi);
            assert(all[i + 1] == next[i + 1] && next[i + 1] == lo);
            assert(is_high(hi) && is_low(lo));
            let back = (0x10000 + (hi - 0xD800) * 1024 + (lo - 0xDC00)) as u32;
            assert(back == u);
            vstd::utf8::char_u32_cast(c, u);
            assert(s.skip(k) =~= seq![c] + s.skip(k + 1));
        }
    }
}

/// Any text encodes to UTF-16LE, and decoding the bytes (without
/// truncation at a NUL) gives the text back.
pub proof fn utf16_round_trip(text: Seq<char>)
    ensures
        encoded(text, TextEncoding::Utf16Le) matches Ok(b) && decoded(
            b,
            TextEncoding::Utf16Le,
            false,
        ) == text,
{
    let b = utf16le(text, text.len() as int);
    lemma_bytes_to_units(text, text.len() as int);
    lemma_lossy_from(text, 0);
    assert(text.skip(0) =~= text);
}

proof fn lemma_zero_cut_range<T>(v: Seq<T>, zero: T)
    ensures
        0 <= zero_cut(v, zero) <= v.len(),
    decreases v.len(),
{
    if v.len() > 0 {
        lemma_zero_cut_range(v.drop_last(), zero);
    }
}

/// Decoding zero-terminated is decoding the bytes before the first NUL
/// character (a zero byte for Latin-1, a zero code unit for UTF-16LE)
/// without termination; a buffer with no NUL decodes the same either way.
pub proof fn zero_termination_only_cuts_at_the_first_nul(bytes: Seq<u8>, encoding: TextEncoding)
    ensures
        encoding == TextEncoding::Latin1 ==> decoded(bytes, encoding, true) == decoded(
            bytes.take(zero_cut(bytes, 0u8)),
            encoding,
            false,
        ),
        encoding == TextEncoding::Utf16Le ==> decoded(bytes, encoding, true) == decoded(
            bytes.take(2 * zero_cut(units_of(bytes), 0u16)),
            encoding,
            false,
        ),
        (encoding == TextEncoding::Latin1 && forall|k: int| 0 <= k < bytes.len() ==> bytes[k] != 0u8)
            ==> decoded(bytes, encoding, true) == decoded(bytes, encoding, false),
        (encoding == TextEncoding::Utf16Le && forall|k: int|
            0 <= k < units_of(bytes).len() ==> units_of(bytes)[k] != 0u16) ==> decoded(
            bytes,
            encoding,
            true,
        ) == decoded(bytes, encoding, false),
{
    lemma_zero_cut_range(bytes, 0u8);
    let u = units_of(bytes);
    lemma_zero_cut_range(u, 0u16);
    let c = zero_cut(u, 0u16);
    assert(units_of(bytes.take(2 * c)) =~= u.take(c));
    if forall|k: int| 0 <= k < bytes.len() ==> bytes[k] != 0u8 {
        lemma_zero_cut_is(bytes, 0u8, bytes.len() as int);
        assert(bytes.take(bytes.len() as int) =~= bytes);
    }
    if forall|k: int| 0 <= k < u.len() ==> u[k] != 0u16 {
        lemma_zero_cut_is(u, 0u16, u.len() as int);
        assert(u.take(u.len() as int) =~= u);
    }
}

proof fn lemma_zero_cut_props<T>(v: Seq<T>, zero: T)
    ensures
        0 <= zero_cut(v, zero) <= v.len(),
        forall|k: int| 0 <= k < zero_cut(v, zero) ==> v[k] != zero,
        zero_cut(v, zero) < v.len() ==> v[zero_cut(v, zero)] == zero,
    decreases v.len(),
{
    if v.len() > 0 {
        let p = v.drop_last();
        lemma_zero_cut_props(p, zero);
        assert forall|k: int| 0 <= k < zero_cut(v, zero) implies v[k] != zero by {
            if k < p.len() {
                assert(p[k] == v[k]);
            }
        }
        if zero_cut(v, zero) < v.len() - 1 {
            assert(p[zero_cut(v, zero)] == v[zero_cut(v, zero)]);
        }
    }
}

/// Latin-1 decoding gives one character per byte, and decoding
/// zero-terminated cuts that text at its first NUL character.
pub proof fn latin1_zero_termination_cuts_the_text(bytes: Seq<u8>)
    ensures
        decoded(bytes, TextEncoding::Latin1, false).len() == bytes.len(),
        decoded(bytes, TextEncoding::Latin1, true) == decoded(bytes, TextEncoding::Latin1, false).take(
            zero_cut(decoded(bytes, TextEncoding::Latin1, false), '\0'),
        ),
{
    let d = decoded(bytes, TextEncoding::Latin1, false);
    let c = zero_cut(bytes, 0u8);
    lemma_zero_cut_props(bytes, 0u8);
    assert forall|k: int| 0 <= k < c implies d[k] != '\0' by {
        assert(d[k] == (bytes[k] as u32) as char);
        assert(bytes[k] != 0u8);
    }
    if c < bytes.len() {
        assert(d[c] == (bytes[c] as u32) as char);
    }
    lemma_zero_cut_is(d, '\0', c);
    assert(decoded(bytes, TextEncoding::Latin1, true) =~= d.take(c));
}

proof fn lemma_lossy_before_first_zero(u: Seq<u16>, c: int, i: int)
    requires
        0 <= i <= c <= u.len(),
        forall|k: int| 0 <= k < c ==> u[k] != 0u16,
        c < u.len() ==> u[c] == 0u16,
    ensures
        utf16_lossy(u, i) == utf16_lossy(u.take(c), i) + (if c < u.len() {
            seq!['\0'] + utf16_lossy(u, c + 1)
        } else {
            Seq::<char>::empty()
        }),
        forall|k: int|
            0 <= k < utf16_lossy(u.take(c), i).len() ==> utf16_lossy(u.take(c), i)[k] != '\0',
    decreases c - i,
{
    let t = u.take(c);
    if i == c {
        if c < u.len() {
            assert(utf16_lossy(u, c) =~= seq![(u[c] as u32) as char] + utf16_lossy(u, c + 1));
            assert((0u16 as u32) as char == '\0');
        } else {
            assert(t =~= u);
        }
        assert(utf16_lossy(t, i) =~= Seq::<char>::empty());
    } else {
        let w = u[i];
        assert(t[i] == w);
        if !is_high(w) && !is_low(w) {
            lemma_lossy_before_first_zero(u, c, i + 1);
            assert(((w as u32) as char) != '\0');
        } else if is_high(w) && i + 1 < u.len() && is_low(u[i + 1]) {
            assert(i + 1 < c) by {
                if i + 1 == c {
                    assert(u[c] == 0u16);
                }
            }
            assert(t[i + 1] == u[i + 1]);
            if i + 2 <= c {
                lemma_lossy_before_first_zero(u, c, i + 2);
            }
        } else {
            if i + 1 < c {
                assert(t[i + 1] == u[i + 1]);
            }
            lemma_lossy_before_first_zero(u, c, i + 1);
        }
        let a = utf16_lossy(t, i);
        let rest_t = utf16_lossy(t, i + 1);
        assert(a.len() >= 1);
        assert forall|k: int| 0 <= k < a.len() implies a[k] != '\0' by {
            if k > 0 {
                if is_high(w) && i + 1 < u.len() && is_low(u[i + 1]) {
                    assert(a[k] == utf16_lossy(t, i + 2)[k - 1]);
                } else {
                    assert(a[k] == rest_t[k - 1]);
                }
            }
        }
        if c < u.len() {
            if is_high(w) && i + 1 < u.len() && is_low(u[i + 1]) {
                assert(utf16_lossy(u, i) =~= a + (seq!['\0'] + utf16_lossy(u, c + 1)));
            } else {
                assert(utf16_lossy(u, i) =~= a + (seq!['\0'] + utf16_lossy(u, c + 1)));
            }
        } else {
            assert(utf16_lossy(u, i) =~= a + Seq::<char>::empty());
        }
    }
}

/// UTF-16 decoding zero-terminated cuts the text decoded without
/// termination at its first NUL character: no character before a zero
/// unit decodes to NUL, and the zero unit itself does.
pub proof fn utf16_zero_termination_cuts_the_text(bytes: Seq<u8>)
    ensures
        decoded(bytes, TextEncoding::Utf16Le, true) == decoded(bytes, TextEncoding::Utf16Le, false).take(
            zero_cut(decoded(bytes, TextEncoding::Utf16Le, false), '\0'),
        ),
{
    let u = units_of(bytes);
    let c = zero_cut(u, 0u16);
    lemma_zero_cut_props(u, 0u16);
    lemma_lossy_before_first_zero(u, c, 0);
    let a = utf16_lossy(u.take(c), 0);
    let d = utf16_lossy(u, 0);
    assert forall|k: int| 0 <= k < a.len() implies d[k] != '\0' by {
        assert(d[k] == a[k]);
    }
    if c < u.len() {
        assert(d[a.len() as int] == '\0');
    }
    lemma_zero_cut_is(d, '\0', a.len() as int);
    assert(d.take(a.len() as int) =~= a);
}

} // verus!
