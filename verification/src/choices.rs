//! What the scan panel and the saved list decide: the value types a user
//! picks from, how typed text becomes something to search for or write,
//! how values and addresses are shown, and how a manually added entry is
//! put together.
use vstd::prelude::*;

use crate::aob::{
    format_pattern, hex_pattern_result, parse_hex_pattern, pattern_splits, pattern_text, AobFilter,
};
use crate::bytes::le_bytes;
use crate::hex::{dec_num, hex_upper, hex_upper_string, is_dec};
use crate::modules::ModuleError;
use crate::scan_value::{ScanFilter, ScanValue};
use crate::strings::{
    append_chars, chars_of, debug_str, str_debug_text, string_of, string_of_range, trim,
    trim_bounds,
};
use crate::table::{
    address_expr_of, parse_address_expr, parse_pointer_offsets, pointer_offsets_of, AddressModel,
    CheatEntry, CheatEntryModel, EntryValue, EntryValueModel,
};
use crate::text::{decode_text, decoded, encode_text, encoded, TextEncoding};

verus! {

/// The value types the scan panel offers.
#[derive(Debug, Clone, Copy, PartialEq, Eq, Structural)]
pub enum ValueTypeChoice {
    I8,
    I16,
    I32,
    I64,
    F32,
    F64,
    Aob,
    Text,
    UnicodeText,
}

pub open spec fn label_text(c: ValueTypeChoice) -> Seq<char> {
    match c {
        ValueTypeChoice::I8 => "i8"@,
        ValueTypeChoice::I16 => "i16"@,
        ValueTypeChoice::I32 => "i32"@,
        ValueTypeChoice::I64 => "i64"@,
        ValueTypeChoice::F32 => "f32"@,
        ValueTypeChoice::F64 => "f64"@,
        ValueTypeChoice::Aob => "AOB (bytes)"@,
        ValueTypeChoice::Text => "String"@,
        ValueTypeChoice::UnicodeText => "Unicode String"@,
    }
}

pub open spec fn encoding_of(c: ValueTypeChoice) -> Option<TextEncoding> {
    match c {
        ValueTypeChoice::Text => Some(TextEncoding::Latin1),
        ValueTypeChoice::UnicodeText => Some(TextEncoding::Utf16Le),
        _ => None,
    }
}

pub open spec fn is_integer_choice(c: ValueTypeChoice) -> bool {
    c is I8 || c is I16 || c is I32 || c is I64
}

impl ValueTypeChoice {
    /// The name shown for the type: Cheat Engine's own for the two string
    /// types.
    pub fn label(self) -> (r: &'static str)
        ensures
            r@ == label_text(self),
    {
        match self {
            ValueTypeChoice::I8 => "i8",
            ValueTypeChoice::I16 => "i16",
            ValueTypeChoice::I32 => "i32",
            ValueTypeChoice::I64 => "i64",
            ValueTypeChoice::F32 => "f32",
            ValueTypeChoice::F64 => "f64",
            ValueTypeChoice::Aob => "AOB (bytes)",
            ValueTypeChoice::Text => "String",
            ValueTypeChoice::UnicodeText => "Unicode String",
        }
    }

    /// The encoding this type scans and displays in, for the text types.
    pub fn text_encoding(self) -> (r: Option<TextEncoding>)
        ensures
            r == encoding_of(self),
    {
        match self {
            ValueTypeChoice::Text => Some(TextEncoding::Latin1),
            ValueTypeChoice::UnicodeText => Some(TextEncoding::Utf16Le),
            _ => None,
        }
    }

    /// Whether this type searches for a run of bytes rather than a
    /// fixed-width number: a byte pattern, or encoded text.
    pub fn scans_as_bytes(self) -> (r: bool)
        ensures
            r == (self == ValueTypeChoice::Aob || encoding_of(self) is Some),
    {
        self == ValueTypeChoice::Aob || self.text_encoding().is_some()
    }

    /// The search box's text as the bytes to look for: the encoded text for
    /// a text type, the hex pattern otherwise.
    pub fn parse_pattern(self, text: &str) -> (r: Result<Vec<u8>, String>)
        requires
            encoding_of(self) is None ==> !pattern_splits(text@),
        ensures
            match (r, encoding_of(self)) {
                (Ok(b), Some(e)) => encoded(text@, e) == Ok::<Seq<u8>, Seq<char>>(b@),
                (Err(m), Some(e)) => encoded(text@, e) == Err::<Seq<u8>, Seq<char>>(m@),
                (Ok(b), None) => hex_pattern_result(text@) == Ok::<Seq<u8>, Seq<char>>(b@),
                (Err(m), None) => hex_pattern_result(text@) == Err::<Seq<u8>, Seq<char>>(m@),
            },
    {
        match self.text_encoding() {
            Some(encoding) => encode_text(text, encoding),
            None => parse_hex_pattern(text),
        }
    }

    /// Matched bytes as the results table shows them: quoted text for a
    /// text type (a match is exactly as long as what was searched for, so
    /// nothing is truncated), a hex pattern otherwise.
    pub fn format_bytes(self, bytes: &[u8]) -> (r: String)
        ensures
            r@ == (match encoding_of(self) {
                Some(e) => debug_str(decoded(bytes@, e, false)),
                None => pattern_text(bytes@, bytes@.len() as int),
            }),
    {
        match self.text_encoding() {
            Some(encoding) => {
                let text = decode_text(bytes, encoding, false);
                str_debug_text(text.as_str())
            },
            None => format_pattern(bytes),
        }
    }

    /// The saved-list value a byte result of this type becomes. A promoted
    /// string's buffer is the match itself, so it is not zero-terminated.
    pub fn entry_value_from_bytes(self, bytes: Vec<u8>) -> (r: EntryValue)
        ensures
            r@ == (match encoding_of(self) {
                Some(e) => EntryValueModel::Text { bytes: bytes@, encoding: e, zero_terminated: false },
                None => EntryValueModel::Bytes(bytes@),
            }),
    {
        match self.text_encoding() {
            Some(encoding) => EntryValue::Text { bytes, encoding, zero_terminated: false },
            None => EntryValue::Bytes(bytes),
        }
    }

    /// The helper line under the value field: what this type accepts.
    pub fn hint(self) -> (r: &'static str)
        ensures
            r@ == (match self {
                ValueTypeChoice::I8 => "Decimal. Signed 8-bit."@,
                ValueTypeChoice::I16 => "Decimal. Signed 16-bit."@,
                ValueTypeChoice::I32 => "Decimal. Signed 32-bit."@,
                ValueTypeChoice::I64 => "Decimal. Signed 64-bit."@,
                ValueTypeChoice::F32 => "Decimal, with a fractional part. 32-bit float."@,
                ValueTypeChoice::F64 => "Decimal, with a fractional part. 64-bit float."@,
                ValueTypeChoice::Aob => "Hex bytes, whitespace optional."@,
                ValueTypeChoice::Text => "Text, one byte per character."@,
                ValueTypeChoice::UnicodeText => "Text, two bytes per character (UTF-16)."@,
            }),
    {
        match self {
            ValueTypeChoice::I8 => "Decimal. Signed 8-bit.",
            ValueTypeChoice::I16 => "Decimal. Signed 16-bit.",
            ValueTypeChoice::I32 => "Decimal. Signed 32-bit.",
            ValueTypeChoice::I64 => "Decimal. Signed 64-bit.",
            ValueTypeChoice::F32 => "Decimal, with a fractional part. 32-bit float.",
            ValueTypeChoice::F64 => "Decimal, with a fractional part. 64-bit float.",
            ValueTypeChoice::Aob => "Hex bytes, whitespace optional.",
            ValueTypeChoice::Text => "Text, one byte per character.",
            ValueTypeChoice::UnicodeText => "Text, two bytes per character (UTF-16).",
        }
    }
}

// ---- whole numbers as typed ---------------------------------------------------------

pub open spec fn all_digits(s: Seq<char>) -> bool {
    forall|k: int| 0 <= k < s.len() ==> is_dec(#[trigger] s[k])
}

/// What `str::parse` reads as a signed whole number: an optional `+` or
/// `-`, then at least one decimal digit.
pub open spec fn signed_number(t: Seq<char>) -> Option<int> {
    if t.len() > 0 && (t[0] == '-' || t[0] == '+') {
        let rest = t.skip(1);
        if rest.len() > 0 && all_digits(rest) {
            Some(if t[0] == '-' {
                -(dec_num(rest) as int)
            } else {
                dec_num(rest) as int
            })
        } else {
            None
        }
    } else if t.len() > 0 && all_digits(t) {
        Some(dec_num(t) as int)
    } else {
        None
    }
}

/// The range of an integer type.
pub open spec fn fits_choice(c: ValueTypeChoice, v: int) -> bool {
    match c {
        ValueTypeChoice::I8 => i8::MIN <= v <= i8::MAX,
        ValueTypeChoice::I16 => i16::MIN <= v <= i16::MAX,
        ValueTypeChoice::I32 => i32::MIN <= v <= i32::MAX,
        _ => i64::MIN <= v <= i64::MAX,
    }
}

pub open spec fn value_of_choice(c: ValueTypeChoice, v: int) -> ScanValue {
    match c {
        ValueTypeChoice::I8 => ScanValue::I8(v as i8),
        ValueTypeChoice::I16 => ScanValue::I16(v as i16),
        ValueTypeChoice::I32 => ScanValue::I32(v as i32),
        _ => ScanValue::I64(v as i64),
    }
}

pub open spec fn not_a_value_message(t: Seq<char>, c: ValueTypeChoice) -> Seq<char> {
    "'"@ + t + "' isn't a valid "@ + label_text(c)
}

/// What [`parse_integer`] gives for `text` and an integer type: the
/// trimmed text read as a signed whole number of that type, or the error.
pub open spec fn integer_parsed(c: ValueTypeChoice, text: Seq<char>) -> Result<ScanValue, Seq<char>> {
    let t = trim(text);
    match signed_number(t) {
        Some(v) => if fits_choice(c, v) {
            Ok(value_of_choice(c, v))
        } else {
            Err(not_a_value_message(t, c))
        },
        None => Err(not_a_value_message(t, c)),
    }
}

proof fn lemma_dec_num_step(s: Seq<char>, k: int)
    requires
        0 <= k < s.len(),
        is_dec(s[k]),
    ensures
        dec_num(s.take(k + 1)) == dec_num(s.take(k)) * 10 + ((s[k] as u32) - 48),
{
    assert(s.take(k + 1).drop_last() =~= s.take(k));
    assert(s.take(k + 1).last() == s[k]);
}

/// The magnitude of the digits `s[from..to]`, if they are all digits, at
/// least one, and below `2^64`.
fn magnitude(s: &Vec<char>, from: usize, to: usize) -> (r: Option<u64>)
    requires
        from <= to <= s.len(),
    ensures
        ({
            let d = s@.subrange(from as int, to as int);
            match r {
                Some(m) => d.len() > 0 && all_digits(d) && m == dec_num(d),
                None => !(d.len() > 0 && all_digits(d)) || dec_num(d) > u64::MAX,
            }
        }),
{
    let ghost d = s@.subrange(from as int, to as int);
    if from == to {
        return None;
    }
    let mut value: u64 = 0;
    let mut overflow = false;
    let mut i = from;
    while i < to
        invariant
            from <= i <= to <= s.len(),
            d == s@.subrange(from as int, to as int),
            all_digits(d.take(i - from)),
            !overflow ==> value == dec_num(d.take(i - from)),
            overflow ==> dec_num(d.take(i - from)) > u64::MAX,
        decreases to - i,
    {
        let c = s[i];
        assert(d[i - from] == c);
        if !('0' <= c && c <= '9') {
            assert(!is_dec(d[i - from]));
            return None;
        }
        proof {
            lemma_dec_num_step(d, i - from);
        }
        let digit = ((c as u32) - 48) as u64;
        if !overflow {
            if value > (u64::MAX - digit) / 10 {
                overflow = true;
                assert(dec_num(d.take(i - from + 1)) > u64::MAX) by (nonlinear_arith)
                    requires
                        dec_num(d.take(i - from + 1)) == value * 10 + digit,
                        value > (u64::MAX - digit) / 10,
                        digit < 10,
                ;
            } else {
                assert(value * 10 + digit <= u64::MAX) by (nonlinear_arith)
                    requires
                        value <= (u64::MAX - digit) / 10,
                        digit < 10,
                ;
                value = value * 10 + digit;
            }
        } else {
            assert(dec_num(d.take(i - from + 1)) > u64::MAX) by (nonlinear_arith)
                requires
                    dec_num(d.take(i - from + 1)) == dec_num(d.take(i - from)) * 10 + ((c as u32)
                        - 48),
                    dec_num(d.take(i - from)) > u64::MAX,
            ;
        }
        i = i + 1;
        assert(all_digits(d.take(i - from))) by {
            assert forall|k: int| 0 <= k < d.take(i - from).len() implies is_dec(
                #[trigger] d.take(i - from)[k],
            ) by {
                if k < i - from - 1 {
                    assert(d.take(i - from)[k] == d.take(i - from - 1)[k]);
                }
            }
        }
    }
    assert(d.take(i - from) =~= d);
    if overflow {
        None
    } else {
        Some(value)
    }
}

/// Reads the text typed for an integer type.
pub fn parse_integer(choice: ValueTypeChoice, text: &str) -> (r: Result<ScanValue, String>)
    requires
        is_integer_choice(choice),
    ensures
        match r {
            Ok(v) => integer_parsed(choice, text@) == Ok::<ScanValue, Seq<char>>(v),
            Err(m) => integer_parsed(choice, text@) == Err::<ScanValue, Seq<char>>(m@),
        },
{
    let all = chars_of(text);
    let (a, b) = trim_bounds(&all, 0, all.len());
    assert(all@.subrange(0, all@.len() as int) =~= text@);
    let ghost t = trim(text@);
    assert(all@.subrange(a as int, b as int) == t);
    let negative = a < b && all[a] == '-';
    let signed = a < b && (all[a] == '-' || all[a] == '+');
    let start = if signed {
        a + 1
    } else {
        a
    };
    proof {
        if signed {
            assert(t.skip(1) =~= all@.subrange(start as int, b as int));
        } else {
            assert(t =~= all@.subrange(start as int, b as int));
        }
    }
    let fail = {
        let mut m = string_of(&chars_of("'"));
        append_chars(&mut m, &chars_of(string_of_range(&all, a, b).as_str()));
        append_chars(&mut m, &chars_of("' isn't a valid "));
        append_chars(&mut m, &chars_of(choice.label()));
        m
    };
    let m = match magnitude(&all, start, b) {
        Some(m) => m,
        None => {
            return Err(fail);
        },
    };
    let (low, high): (u64, u64) = match choice {
        ValueTypeChoice::I8 => (0x80, 0x7F),
        ValueTypeChoice::I16 => (0x8000, 0x7FFF),
        ValueTypeChoice::I32 => (0x8000_0000, 0x7FFF_FFFF),
        _ => (0x8000_0000_0000_0000, 0x7FFF_FFFF_FFFF_FFFF),
    };
    if negative {
        if m > low {
            return Err(fail);
        }
        let v: i64 = if m == 0x8000_0000_0000_0000 {
            i64::MIN
        } else {
            -(m as i64)
        };
        match choice {
            ValueTypeChoice::I8 => Ok(ScanValue::I8(v as i8)),
            ValueTypeChoice::I16 => Ok(ScanValue::I16(v as i16)),
            ValueTypeChoice::I32 => Ok(ScanValue::I32(v as i32)),
            _ => Ok(ScanValue::I64(v)),
        }
    } else {
        if m > high {
            return Err(fail);
        }
        let v = m as i64;
        match choice {
            ValueTypeChoice::I8 => Ok(ScanValue::I8(v as i8)),
            ValueTypeChoice::I16 => Ok(ScanValue::I16(v as i16)),
            ValueTypeChoice::I32 => Ok(ScanValue::I32(v as i32)),
            _ => Ok(ScanValue::I64(v)),
        }
    }
}

// ---- values on screen -----------------------------------------------------------------

/// Freshly read `bytes` in the shape `previous` had: the same numeric type,
/// or the same kind of buffer, with the text settings of the entry kept.
pub fn reinterpret_entry_value(previous: &EntryValue, bytes: &[u8]) -> (r: EntryValue)
    requires
        previous matches EntryValue::Scalar(v) ==> bytes@.len() == v.spec_size(),
    ensures
        r@ == (match previous@ {
            EntryValueModel::Scalar(v) => EntryValueModel::Scalar(
                v.with_bits(crate::bytes::le_value(bytes@)),
            ),
            EntryValueModel::Bytes(_) => EntryValueModel::Bytes(bytes@),
            EntryValueModel::Text { encoding, zero_terminated, .. } => EntryValueModel::Text {
                bytes: bytes@,
                encoding,
                zero_terminated,
            },
        }),
{
    match previous {
        EntryValue::Scalar(v) => EntryValue::Scalar(v.from_le_bytes_like(bytes)),
        EntryValue::Bytes(_) => EntryValue::Bytes(crate::aob::copy_bytes(bytes)),
        EntryValue::Text { encoding, zero_terminated, .. } => EntryValue::Text {
            bytes: crate::aob::copy_bytes(bytes),
            encoding: *encoding,
            zero_terminated: *zero_terminated,
        },
    }
}

/// A number's raw bits as hex, as `{:#X}` writes them: floats show their
/// bit pattern, as Cheat Engine shows a hex-displayed value.
pub fn format_scalar_hex(value: ScanValue) -> (r: String)
    ensures
        r@ == "0x"@ + hex_upper(value.bits()),
{
    let bytes = value.to_le_bytes();
    proof {
        crate::bytes::lemma_le_bytes_len(value.bits(), value.spec_size());
    }
    let bits = crate::bytes::le_u64(bytes.as_slice());
    proof {
        crate::bytes::lemma_le_value_of_bytes(value.bits(), value.spec_size());
        crate::bytes::lemma_pow256_values();
        assert(value.bits() < crate::bytes::pow256(value.spec_size()));
        vstd::arithmetic::div_mod::lemma_small_mod(
            value.bits(),
            crate::bytes::pow256(value.spec_size()),
        );
    }
    let mut s = string_of(&chars_of("0x"));
    append_chars(&mut s, &hex_upper_string(bits));
    s
}

/// The label shown for a next-scan filter.
pub fn filter_label(filter: ScanFilter) -> (r: &'static str)
    ensures
        r@ == (match filter {
            ScanFilter::Changed => "Changed"@,
            ScanFilter::Unchanged => "Unchanged"@,
            ScanFilter::Increased => "Increased"@,
            ScanFilter::Decreased => "Decreased"@,
        }),
{
    match filter {
        ScanFilter::Changed => "Changed",
        ScanFilter::Unchanged => "Unchanged",
        ScanFilter::Increased => "Increased",
        ScanFilter::Decreased => "Decreased",
    }
}

/// The label shown for a byte-pattern next-scan filter.
pub fn aob_filter_label(filter: AobFilter) -> (r: &'static str)
    ensures
        r@ == (match filter {
            AobFilter::Changed => "Changed"@,
            AobFilter::Unchanged => "Unchanged"@,
        }),
{
    match filter {
        AobFilter::Changed => "Changed",
        AobFilter::Unchanged => "Unchanged",
    }
}

/// A saved entry's live resolution state, shown on its row.
#[derive(Debug, Clone, PartialEq, Eq)]
pub enum RowStatus {
    NotAttached,
    Resolved,
    ModuleNotFound(String),
    Unreadable,
}

impl RowStatus {
    pub fn label(&self) -> (r: String)
        ensures
            r@ == (match self {
                RowStatus::NotAttached => "not attached"@,
                RowStatus::Resolved => "resolved"@,
                RowStatus::ModuleNotFound(m) => "module "@ + debug_str(m@) + " not found"@,
                RowStatus::Unreadable => "unreadable \u{b7} page freed or protected"@,
            }),
    {
        match self {
            RowStatus::NotAttached => string_of(&chars_of("not attached")),
            RowStatus::Resolved => string_of(&chars_of("resolved")),
            RowStatus::ModuleNotFound(module) => {
                let mut m = string_of(&chars_of("module "));
                append_chars(&mut m, &chars_of(str_debug_text(module.as_str()).as_str()));
                append_chars(&mut m, &chars_of(" not found"));
                m
            },
            RowStatus::Unreadable => string_of(&chars_of("unreadable \u{b7} page freed or protected")),
        }
    }

    pub fn is_resolved(&self) -> (r: bool)
        ensures
            r == (self is Resolved),
    {
        match self {
            RowStatus::Resolved => true,
            _ => false,
        }
    }
}

/// `16^n`.
pub open spec fn pow16(n: nat) -> nat
    decreases n,
{
    if n == 0 {
        1
    } else {
        16 * pow16((n - 1) as nat)
    }
}

proof fn lemma_hex_upper_digits(n: nat, digits: nat)
    requires
        digits >= 1,
        n < pow16(digits),
    ensures
        1 <= hex_upper(n).len() <= digits,
        n > 0 ==> hex_upper(n)[0] != '0',
    decreases n,
{
    crate::hex::lemma_hex_digit(n % 16);
    crate::hex::lemma_hex_digit(0);
    if n >= 16 {
        assert(digits >= 2) by {
            if digits == 1 {
                reveal_with_fuel(pow16, 2);
            }
        }
        assert(n / 16 < pow16((digits - 1) as nat));
        lemma_hex_upper_digits(n / 16, (digits - 1) as nat);
    } else if n > 0 {
        crate::hex::lemma_hex_digit(n);
        assert(hex_upper(n)[0] == crate::hex::hex_digit(n));
    }
}

/// `n` as 16 uppercase hex digits, zero-padded on the left, as `{:016X}`
/// writes it.
pub open spec fn padded_hex(n: nat) -> Seq<char> {
    let h = hex_upper(n);
    Seq::new((16 - h.len()) as nat, |i: int| '0') + h
}

/// An address as 16 hex digits, and where its significant digits start:
/// after the leading zeros, keeping at least one digit significant, so a
/// column of addresses lines up with the padding shown dimmed.
pub fn address_digits(address: usize) -> (r: (String, usize))
    ensures
        r.0@ == padded_hex(address as nat),
        r.0@.len() == 16,
        r.1 < 16,
        forall|k: int| 0 <= k < r.1 ==> r.0@[k] == '0',
        address != 0 ==> r.0@[r.1 as int] != '0',
        address == 0 ==> r.1 == 15,
{
    proof {
        assert(pow16(16) == 0x1_0000_0000_0000_0000) by {
            reveal_with_fuel(pow16, 17);
        }
        lemma_hex_upper_digits(address as nat, 16);
    }
    let h = hex_upper_string(address as u64);
    let pad = 16 - h.len();
    let mut text = String::new();
    let mut i: usize = 0;
    while i < pad
        invariant
            i <= pad,
            text@ == Seq::new(i as nat, |k: int| '0'),
        decreases pad - i,
    {
        crate::strings::push_char(&mut text, '0');
        i = i + 1;
        assert(text@ =~= Seq::new(i as nat, |k: int| '0'));
    }
    append_chars(&mut text, &h);
    let split = if address == 0 {
        15
    } else {
        pad
    };
    proof {
        if address == 0 {
            assert(hex_upper(0) == seq![crate::hex::hex_digit(0)]);
            crate::hex::lemma_hex_digit(0);
            assert(crate::hex::hex_digit(0) == '0');
        }
    }
    (text, split)
}

/// What [`manual_entry`] gives: the address expression, then the pointer
/// chain, then the value, each refused with its own message; the
/// description trimmed, or the trimmed address when left blank.
pub open spec fn manual_entry_of(
    description: Seq<char>,
    address_text: Seq<char>,
    offsets_text: Seq<char>,
    value: Result<EntryValueModel, Seq<char>>,
) -> Result<CheatEntryModel, Seq<char>> {
    match address_expr_of(address_text) {
        Err(e) => Err(e),
        Ok(base) => match pointer_offsets_of(offsets_text) {
            Err(e) => Err(e),
            Ok(po) => match value {
                Err(e) => Err(e),
                Ok(v) => Ok(
                    CheatEntryModel {
                        description: if trim(description).len() == 0 {
                            trim(address_text)
                        } else {
                            trim(description)
                        },
                        base,
                        pointer_offsets: po,
                        value: v,
                        frozen: false,
                        show_as_hex: false,
                    },
                ),
            },
        },
    }
}

fn trimmed(text: &str) -> (r: String)
    ensures
        r@ == trim(text@),
{
    let c = chars_of(text);
    let (a, b) = trim_bounds(&c, 0, c.len());
    assert(c@.subrange(0, c@.len() as int) =~= text@);
    string_of_range(&c, a, b)
}

/// An entry added by hand from the form's fields; `value` is the value
/// field already read as the chosen type.
pub fn manual_entry(
    description: &str,
    address_text: &str,
    offsets_text: &str,
    value: Result<EntryValue, String>,
) -> (r: Result<CheatEntry, String>)
    ensures
        match r {
            Ok(e) => manual_entry_of(
                description@,
                address_text@,
                offsets_text@,
                match value {
                    Ok(v) => Ok(v@),
                    Err(m) => Err(m@),
                },
            ) == Ok::<CheatEntryModel, Seq<char>>(e@),
            Err(m) => manual_entry_of(
                description@,
                address_text@,
                offsets_text@,
                match value {
                    Ok(v) => Ok(v@),
                    Err(m) => Err(m@),
                },
            ) == Err::<CheatEntryModel, Seq<char>>(m@),
        },
{
    let base = match parse_address_expr(address_text) {
        Ok(b) => b,
        Err(e) => {
            return Err(e);
        },
    };
    let pointer_offsets = match parse_pointer_offsets(offsets_text) {
        Ok(p) => p,
        Err(e) => {
            return Err(e);
        },
    };
    let value = match value {
        Ok(v) => v,
        Err(e) => {
            return Err(e);
        },
    };
    let d = trimmed(description);
    let description = if chars_of(d.as_str()).len() == 0 {
        trimmed(address_text)
    } else {
        d
    };
    Ok(CheatEntry { description, base, pointer_offsets, value, frozen: false, show_as_hex: false })
}

} // verus!
