//! Importing a Cheat Engine `.CT` table into [`CheatEntry`] values. The
//! XML is read into the plain structures below elsewhere; everything here
//! decides what each entry becomes.
//!
//! Entries this can't represent (scripts, structure dissect, bit-field and
//! custom types, codepage strings, over-deep pointer chains, unrecognized
//! types, symbol and pointer-expression addresses) go into a visible report
//! with a reason, never silently dropped or mis-imported.
use vstd::prelude::*;

use crate::hex::{decimal, decimal_string, parse_decimal, usize_from_decimal};
use crate::pointer::MAX_POINTER_CHAIN_DEPTH;
use crate::scan_value::ScanValue;
use crate::script::{parse_script, parsed, reason_text, script_kind, ScriptError, ScriptKind};
use crate::strings::{
    append_chars, chars_of, debug_str, lower, lower_range, same_chars, str_debug_text, string_of,
    string_of_range, trim, trim_bounds, upper_char, upper_char_exec,
};
use crate::table::{
    address_expr_of, hex_usize_of, parse_address_expr, parse_hex_usize, AddressModel, CheatEntry,
    CheatEntryModel, EntryValue, EntryValueModel,
};
use crate::text::TextEncoding;

verus! {

/// A `<CheatTable>` document.
#[derive(Debug)]
pub struct CheatTableXml {
    pub cheat_entries: Option<CheatEntriesXml>,
}

/// A `<CheatEntries>` list.
#[derive(Debug)]
pub struct CheatEntriesXml {
    pub entry: Vec<CheatEntryXml>,
}

/// One `<CheatEntry>`: every child element this importer reads, `None`
/// where the element is absent.
#[derive(Debug)]
pub struct CheatEntryXml {
    pub description: Option<String>,
    pub variable_type: Option<String>,
    pub address: Option<String>,
    pub offsets: Option<OffsetsXml>,
    pub length: Option<String>,
    pub unicode: Option<String>,
    pub zero_terminate: Option<String>,
    pub code_page: Option<String>,
    /// The script of an `Auto Assembler Script` entry: read, never run, so
    /// the person deciding whether to trust a table can read it.
    pub assembler_script: Option<String>,
    pub byte_length: Option<String>,
    pub show_as_hex: Option<String>,
    pub last_state: Option<LastStateXml>,
    /// A group entry's own nested list.
    pub nested: Option<CheatEntriesXml>,
}

/// An `<Offsets>` list, in document order.
#[derive(Debug)]
pub struct OffsetsXml {
    pub offset: Vec<String>,
}

/// `<LastState Activated="1"/>`: the attribute, not a child element.
#[derive(Debug)]
pub struct LastStateXml {
    pub activated: Option<String>,
}

/// One entry that couldn't be imported, with a readable reason.
#[derive(Debug, Clone, PartialEq, Eq)]
pub struct SkippedEntry {
    pub description: String,
    pub reason: String,
    /// The raw script of an `Auto Assembler Script` entry, for reading
    /// only.
    pub script_text: Option<String>,
    /// What kind of script it is, where there is one that parses.
    pub script_kind: Option<ScriptKind>,
}

pub struct SkippedModel {
    pub description: Seq<char>,
    pub reason: Seq<char>,
    pub script_text: Option<Seq<char>>,
    pub script_kind: Option<ScriptKind>,
}

pub open spec fn opt_view(o: Option<String>) -> Option<Seq<char>> {
    match o {
        Some(s) => Some(s@),
        None => None,
    }
}

impl View for SkippedEntry {
    type V = SkippedModel;

    open spec fn view(&self) -> SkippedModel {
        SkippedModel {
            description: self.description@,
            reason: self.reason@,
            script_text: opt_view(self.script_text),
            script_kind: self.script_kind,
        }
    }
}

/// The result of importing a table. Entries that were frozen in the source
/// (`Activated="1"`) are imported unfrozen regardless, since the file never
/// carries the value they were frozen at: their descriptions are listed in
/// `was_active_in_source` for the caller to show.
#[derive(Debug)]
pub struct ImportReport {
    pub imported: Vec<CheatEntry>,
    pub skipped: Vec<SkippedEntry>,
    pub was_active_in_source: Vec<String>,
}

#[verifier::ext_equal]
pub struct ReportModel {
    pub imported: Seq<CheatEntryModel>,
    pub skipped: Seq<SkippedModel>,
    pub was_active: Seq<Seq<char>>,
}

impl View for ImportReport {
    type V = ReportModel;

    open spec fn view(&self) -> ReportModel {
        ReportModel {
            imported: self.imported@.map_values(|e: CheatEntry| e@),
            skipped: self.skipped@.map_values(|e: SkippedEntry| e@),
            was_active: self.was_active_in_source@.map_values(|s: String| s@),
        }
    }
}

/// A report with nothing in it.
pub open spec fn empty_report() -> ReportModel {
    ReportModel { imported: seq![], skipped: seq![], was_active: seq![] }
}

impl Default for ImportReport {
    fn default() -> (r: Self)
        ensures
            r@ == empty_report(),
    {
        let r = ImportReport { imported: Vec::new(), skipped: Vec::new(), was_active_in_source: Vec::new() };
        assert(r@ =~= empty_report());
        r
    }
}

/// The longest buffer imported from a declared length: `<Length>` in
/// characters for a string, `<ByteLength>` in bytes for an array of byte.
pub const MAX_BUFFER_LENGTH: usize = 4096;

// ---- small readers ----------------------------------------------------------------

/// `s` trimmed, without one pair of surrounding `"` if it has one:
/// Cheat Engine stores a description with its quotes as part of the value.
pub open spec fn unquoted(s: Seq<char>) -> Seq<char> {
    let t = trim(s);
    if t.len() >= 2 && t[0] == '"' && t.last() == '"' {
        t.subrange(1, t.len() - 1)
    } else {
        t
    }
}

/// Strips one leading and trailing `"` pair (exactly one, not every quote)
/// from a trimmed description.
pub fn strip_one_quote_pair(s: &str) -> (r: String)
    ensures
        r@ == unquoted(s@),
{
    let c = chars_of(s);
    let (a, b) = trim_bounds(&c, 0, c.len());
    assert(c@.subrange(0, c@.len() as int) =~= s@);
    let ghost t = trim(s@);
    if b - a >= 2 && c[a] == '"' && c[b - 1] == '"' {
        assert(t.subrange(1, t.len() - 1) =~= c@.subrange(a + 1, b - 1));
        string_of_range(&c, a + 1, b - 1)
    } else {
        string_of_range(&c, a, b)
    }
}

/// One of Cheat Engine's `"1"`/`"0"` flag elements: `None` when absent,
/// and otherwise true only for exactly `"1"` (trimmed).
pub open spec fn flag_of(value: Option<Seq<char>>) -> Option<bool> {
    match value {
        Some(v) => Some(trim(v) == "1"@),
        None => None,
    }
}

fn is_exactly(s: &str, lit: &str) -> (r: bool)
    ensures
        r == (s@ == lit@),
{
    same_chars(&chars_of(s), &chars_of(lit))
}

pub fn element_flag(value: &Option<String>) -> (r: Option<bool>)
    ensures
        r == flag_of(opt_view(*value)),
{
    match value {
        Some(v) => {
            let c = chars_of(v.as_str());
            let (a, b) = trim_bounds(&c, 0, c.len());
            assert(c@.subrange(0, c@.len() as int) =~= v@);
            let t = string_of_range(&c, a, b);
            Some(is_exactly(t.as_str(), "1"))
        },
        None => None,
    }
}

/// A group entry has a nested list with entries in it, or the type
/// `Grouped`.
pub open spec fn group(e: CheatEntryXml) -> bool {
    (e.nested matches Some(n) && n.entry@.len() > 0) || opt_view(e.variable_type) == Some(
        "Grouped"@,
    )
}

pub fn is_group(entry: &CheatEntryXml) -> (r: bool)
    ensures
        r == group(*entry),
{
    let nested = match &entry.nested {
        Some(n) => n.entry.len() > 0,
        None => false,
    };
    nested || match &entry.variable_type {
        Some(t) => is_exactly(t.as_str(), "Grouped"),
        None => false,
    }
}

/// The entry was frozen in the source table: `Activated` is exactly `"1"`.
pub open spec fn activated(e: CheatEntryXml) -> bool {
    e.last_state matches Some(ls) && opt_view(ls.activated) == Some("1"@)
}

pub fn was_activated(entry: &CheatEntryXml) -> (r: bool)
    ensures
        r == activated(*entry),
{
    match &entry.last_state {
        Some(ls) => match &ls.activated {
            Some(a) => is_exactly(a.as_str(), "1"),
            None => false,
        },
        None => false,
    }
}

/// The lowercase, trimmed type name an entry's type is matched by, as
/// Cheat Engine's own `StringToVariableType` matches it.
pub open spec fn type_key(t: Seq<char>) -> Seq<char> {
    lower(trim(t))
}

fn type_key_of(t: &str) -> (r: Vec<char>)
    ensures
        r@ == type_key(t@),
{
    let c = chars_of(t);
    let (a, b) = trim_bounds(&c, 0, c.len());
    assert(c@.subrange(0, c@.len() as int) =~= t@);
    lower_range(&c, a, b)
}

/// The raw script of an `Auto Assembler Script` entry (type matched
/// ignoring case), trimmed, if it has a non-blank one.
pub open spec fn script_text(e: CheatEntryXml) -> Option<Seq<char>> {
    match opt_view(e.variable_type) {
        Some(t) if type_key(t) == "auto assembler script"@ => match opt_view(e.assembler_script) {
            Some(s) if trim(s).len() > 0 => Some(trim(s)),
            _ => None,
        },
        _ => None,
    }
}

pub fn script_text_of(entry: &CheatEntryXml) -> (r: Option<String>)
    ensures
        opt_view(r) == script_text(*entry),
{
    let is_script = match &entry.variable_type {
        Some(t) => same_chars(&type_key_of(t.as_str()), &chars_of("auto assembler script")),
        None => false,
    };
    if !is_script {
        return None;
    }
    match &entry.assembler_script {
        Some(s) => {
            let c = chars_of(s.as_str());
            let (a, b) = trim_bounds(&c, 0, c.len());
            assert(c@.subrange(0, c@.len() as int) =~= s@);
            if a == b {
                None
            } else {
                Some(string_of_range(&c, a, b))
            }
        },
        None => None,
    }
}

// ---- values ----------------------------------------------------------------------

/// `n` zero bytes.
pub fn zeroes(n: usize) -> (r: Vec<u8>)
    ensures
        r@ == Seq::new(n as nat, |i: int| 0u8),
{
    let mut v: Vec<u8> = Vec::new();
    let mut i: usize = 0;
    while i < n
        invariant
            i <= n,
            v@ == Seq::new(i as nat, |k: int| 0u8),
        decreases n - i,
    {
        v.push(0);
        i = i + 1;
        assert(v@ =~= Seq::new(i as nat, |k: int| 0u8));
    }
    v
}

/// What a `<VariableType>` (by its key) imports as: a zero value of the
/// matching shape, or why not. `original` is what the file said, quoted in
/// messages so a user can search for it.
pub open spec fn mapped_type(key: Seq<char>, original: Seq<char>) -> Result<EntryValueModel, Seq<char>> {
    if key == "byte"@ {
        Ok(EntryValueModel::Scalar(ScanValue::I8(0)))
    } else if key == "2 bytes"@ {
        Ok(EntryValueModel::Scalar(ScanValue::I16(0)))
    } else if key == "4 bytes"@ {
        Ok(EntryValueModel::Scalar(ScanValue::I32(0)))
    } else if key == "8 bytes"@ {
        Ok(EntryValueModel::Scalar(ScanValue::I64(0)))
    } else if key == "float"@ {
        Ok(EntryValueModel::Scalar(ScanValue::F32(0)))
    } else if key == "double"@ {
        Ok(EntryValueModel::Scalar(ScanValue::F64(0)))
    } else if key == "pointer"@ {
        Ok(EntryValueModel::Scalar(ScanValue::I64(0)))
    } else if key == "string"@ || key == "unicode string"@ || key == "array of byte"@ {
        Err("internal: "@ + original + " entries are handled by import_leaf_entry, not map_variable_type"@)
    } else if key == "auto assembler script"@ {
        Err("Auto Assembler Script (Lua) entries aren't supported"@)
    } else if key == "custom"@ {
        Err("Custom-type entries aren't supported (require Lua conversion functions)"@)
    } else if key == "binary"@ {
        Err("Binary (bit-field) entries aren't supported"@)
    } else if key == "all"@ || key == "grouped"@ {
        Err("unexpected VariableType "@ + debug_str(original) + " on a leaf entry"@)
    } else {
        Err("unrecognized VariableType "@ + debug_str(original))
    }
}

fn key_is(key: &Vec<char>, lit: &str) -> (r: bool)
    ensures
        r == (key@ == lit@),
{
    same_chars(key, &chars_of(lit))
}

fn text2(a: &str, b: &str) -> (r: String)
    ensures
        r@ == a@ + b@,
{
    let mut m = string_of(&chars_of(a));
    append_chars(&mut m, &chars_of(b));
    m
}

fn text3(a: &str, b: &str, c: &str) -> (r: String)
    ensures
        r@ == a@ + b@ + c@,
{
    let mut m = string_of(&chars_of(a));
    append_chars(&mut m, &chars_of(b));
    append_chars(&mut m, &chars_of(c));
    m
}

/// Maps a `<VariableType>`, by its trimmed lowercase `key`, to a
/// zero-valued entry value of the matching shape; the real value arrives
/// on the first live read.
pub fn map_variable_type(key: &Vec<char>, original: &str) -> (r: Result<EntryValue, String>)
    ensures
        match r {
            Ok(v) => mapped_type(key@, original@) == Ok::<EntryValueModel, Seq<char>>(v@),
            Err(m) => mapped_type(key@, original@) == Err::<EntryValueModel, Seq<char>>(m@),
        },
{
    if key_is(key, "byte") {
        Ok(EntryValue::Scalar(ScanValue::I8(0)))
    } else if key_is(key, "2 bytes") {
        Ok(EntryValue::Scalar(ScanValue::I16(0)))
    } else if key_is(key, "4 bytes") {
        Ok(EntryValue::Scalar(ScanValue::I32(0)))
    } else if key_is(key, "8 bytes") {
        Ok(EntryValue::Scalar(ScanValue::I64(0)))
    } else if key_is(key, "float") {
        Ok(EntryValue::Scalar(ScanValue::F32(0)))
    } else if key_is(key, "double") {
        Ok(EntryValue::Scalar(ScanValue::F64(0)))
    } else if key_is(key, "pointer") {
        Ok(EntryValue::Scalar(ScanValue::I64(0)))
    } else if key_is(key, "string") || key_is(key, "unicode string") || key_is(key, "array of byte") {
        Err(
            text3(
                "internal: ",
                original,
                " entries are handled by import_leaf_entry, not map_variable_type",
            ),
        )
    } else if key_is(key, "auto assembler script") {
        Err(string_of(&chars_of("Auto Assembler Script (Lua) entries aren't supported")))
    } else if key_is(key, "custom") {
        Err(
            string_of(
                &chars_of("Custom-type entries aren't supported (require Lua conversion functions)"),
            ),
        )
    } else if key_is(key, "binary") {
        Err(string_of(&chars_of("Binary (bit-field) entries aren't supported")))
    } else if key_is(key, "all") || key_is(key, "grouped") {
        Err(text3("unexpected VariableType ", str_debug_text(original).as_str(), " on a leaf entry"))
    } else {
        Err(text2("unrecognized VariableType ", str_debug_text(original).as_str()))
    }
}

/// A declared length, as `str::parse::<usize>` reads it after trimming.
pub open spec fn declared_length(text: Seq<char>) -> Option<usize> {
    match parse_decimal(trim(text)) {
        Some(v) => if v <= usize::MAX {
            Some(v as usize)
        } else {
            None
        },
        None => None,
    }
}

fn declared_length_of(text: &str) -> (r: Option<usize>)
    ensures
        r == declared_length(text@),
{
    let c = chars_of(text);
    let (a, b) = trim_bounds(&c, 0, c.len());
    assert(c@.subrange(0, c@.len() as int) =~= text@);
    usize_from_decimal(&c, a, b)
}

pub open spec fn zero_bytes(n: nat) -> Seq<u8> {
    Seq::new(n, |i: int| 0u8)
}

/// What a string entry imports as: a zero-filled buffer of the declared
/// width, with Cheat Engine's defaults (zero-terminated unless
/// `<ZeroTerminate>` says otherwise; UTF-16 for the `Unicode String` type,
/// its name matched trimmed and ignoring case, unless `<Unicode>` says
/// otherwise), or why not.
pub open spec fn string_value(e: CheatEntryXml, variable_type: Seq<char>) -> Result<EntryValueModel, Seq<char>> {
    if flag_of(opt_view(e.code_page)) == Some(true) {
        Err("String entries with <CodePage>1</CodePage> aren't supported (only Latin-1 and UTF-16)"@)
    } else {
        let encoding = match flag_of(opt_view(e.unicode)) {
            Some(true) => TextEncoding::Utf16Le,
            Some(false) => TextEncoding::Latin1,
            None => if type_key(variable_type) == "unicode string"@ {
                TextEncoding::Utf16Le
            } else {
                TextEncoding::Latin1
            },
        };
        let zero_terminated = match flag_of(opt_view(e.zero_terminate)) {
            Some(z) => z,
            None => true,
        };
        match opt_view(e.length) {
            None => Err(variable_type + " entry has no <Length>"@),
            Some(lt) => match declared_length(lt) {
                None => Err("invalid <Length> "@ + debug_str(lt)),
                Some(n) => if n == 0 {
                    Err(variable_type + " entry declares <Length>0</Length>"@)
                } else if n > MAX_BUFFER_LENGTH {
                    Err(variable_type + " entry declares <Length>"@ + decimal(n as nat)
                        + "</Length>, over the 4096-character limit"@)
                } else {
                    Ok(
                        EntryValueModel::Text {
                            bytes: zero_bytes(
                                n as nat * (if encoding == TextEncoding::Utf16Le {
                                    2nat
                                } else {
                                    1nat
                                }),
                            ),
                            encoding,
                            zero_terminated,
                        },
                    )
                },
            },
        }
    }
}

pub fn import_string_value(entry: &CheatEntryXml, variable_type: &str) -> (r: Result<EntryValue, String>)
    ensures
        match r {
            Ok(v) => string_value(*entry, variable_type@) == Ok::<EntryValueModel, Seq<char>>(v@),
            Err(m) => string_value(*entry, variable_type@) == Err::<EntryValueModel, Seq<char>>(m@),
        },
{
    if element_flag(&entry.code_page) == Some(true) {
        return Err(
            string_of(
                &chars_of(
                    "String entries with <CodePage>1</CodePage> aren't supported (only Latin-1 and UTF-16)",
                ),
            ),
        );
    }
    let encoding = match element_flag(&entry.unicode) {
        Some(true) => TextEncoding::Utf16Le,
        Some(false) => TextEncoding::Latin1,
        None => if same_chars(&type_key_of(variable_type), &chars_of("unicode string")) {
            TextEncoding::Utf16Le
        } else {
            TextEncoding::Latin1
        },
    };
    let zero_terminated = match element_flag(&entry.zero_terminate) {
        Some(z) => z,
        None => true,
    };
    let length_text = match &entry.length {
        Some(t) => t,
        None => {
            return Err(text2(variable_type, " entry has no <Length>"));
        },
    };
    let length = match declared_length_of(length_text.as_str()) {
        Some(n) => n,
        None => {
            return Err(text2("invalid <Length> ", str_debug_text(length_text.as_str()).as_str()));
        },
    };
    if length == 0 {
        return Err(text2(variable_type, " entry declares <Length>0</Length>"));
    }
    if length > MAX_BUFFER_LENGTH {
        let mut m = text2(variable_type, " entry declares <Length>");
        append_chars(&mut m, &decimal_string(length));
        append_chars(&mut m, &chars_of("</Length>, over the 4096-character limit"));
        return Err(m);
    }
    let bytes = zeroes(length * encoding.bytes_per_char());
    Ok(EntryValue::Text { bytes, encoding, zero_terminated })
}

/// What an `Array of byte` entry imports as: a zero-filled buffer of its
/// declared `<ByteLength>`, or why not.
pub open spec fn byte_array_value(e: CheatEntryXml) -> Result<EntryValueModel, Seq<char>> {
    match opt_view(e.byte_length) {
        None => Err("Array of byte entry has no <ByteLength>"@),
        Some(t) => match declared_length(t) {
            None => Err("invalid <ByteLength> "@ + debug_str(t)),
            Some(n) => if n == 0 {
                Err("Array of byte entry declares <ByteLength>0</ByteLength>"@)
            } else if n > MAX_BUFFER_LENGTH {
                Err("Array of byte entry declares <ByteLength>"@ + decimal(n as nat)
                    + "</ByteLength>, over the 4096-byte limit"@)
            } else {
                Ok(EntryValueModel::Bytes(zero_bytes(n as nat)))
            },
        },
    }
}

pub fn import_byte_array_value(entry: &CheatEntryXml) -> (r: Result<EntryValue, String>)
    ensures
        match r {
            Ok(v) => byte_array_value(*entry) == Ok::<EntryValueModel, Seq<char>>(v@),
            Err(m) => byte_array_value(*entry) == Err::<EntryValueModel, Seq<char>>(m@),
        },
{
    let text = match &entry.byte_length {
        Some(t) => t,
        None => {
            return Err(string_of(&chars_of("Array of byte entry has no <ByteLength>")));
        },
    };
    let length = match declared_length_of(text.as_str()) {
        Some(n) => n,
        None => {
            return Err(text2("invalid <ByteLength> ", str_debug_text(text.as_str()).as_str()));
        },
    };
    if length == 0 {
        return Err(string_of(&chars_of("Array of byte entry declares <ByteLength>0</ByteLength>")));
    }
    if length > MAX_BUFFER_LENGTH {
        let mut m = string_of(&chars_of("Array of byte entry declares <ByteLength>"));
        append_chars(&mut m, &decimal_string(length));
        append_chars(&mut m, &chars_of("</ByteLength>, over the 4096-byte limit"));
        return Err(m);
    }
    Ok(EntryValue::Bytes(zeroes(length)))
}

// ---- one leaf entry --------------------------------------------------------------

/// The first of `ts` that isn't a hex offset, or all of them read.
pub open spec fn hex_offsets(ts: Seq<Seq<char>>) -> Result<Seq<usize>, Seq<char>>
    decreases ts.len(),
{
    if ts.len() == 0 {
        Ok(seq![])
    } else {
        match hex_offsets(ts.drop_last()) {
            Err(t) => Err(t),
            Ok(vs) => match hex_usize_of(ts.last()) {
                Some(v) => Ok(vs.push(v)),
                None => Err(ts.last()),
            },
        }
    }
}

proof fn lemma_hex_offsets_error_stays(a: Seq<Seq<char>>, b: Seq<Seq<char>>)
    requires
        hex_offsets(a) is Err,
    ensures
        hex_offsets(a + b) == hex_offsets(a),
    decreases b.len(),
{
    if b.len() == 0 {
        assert(a + b =~= a);
    } else {
        lemma_hex_offsets_error_stays(a, b.drop_last());
        assert((a + b).drop_last() =~= a + b.drop_last());
    }
}

pub open spec fn offset_texts(e: CheatEntryXml) -> Seq<Seq<char>> {
    match e.offsets {
        Some(o) => o.offset@.map_values(|t: String| t@),
        None => seq![],
    }
}

/// What a leaf entry imports as, its description left empty, or why it
/// can't be: its value by type, its hex display (forced on for a pointer),
/// its address (bracketed symbol expressions refused) and its pointer
/// chain, kept in document order and at most [`MAX_POINTER_CHAIN_DEPTH`]
/// long. Never frozen.
pub open spec fn leaf_entry(e: CheatEntryXml) -> Result<CheatEntryModel, Seq<char>> {
    match opt_view(e.variable_type) {
        None => Err("no VariableType"@),
        Some(vt) => {
            let key = type_key(vt);
            let value = if key == "string"@ || key == "unicode string"@ {
                string_value(e, vt)
            } else if key == "array of byte"@ {
                byte_array_value(e)
            } else {
                mapped_type(key, vt)
            };
            match value {
                Err(m) => Err(m),
                Ok(v) => {
                    let show_as_hex = key == "pointer"@ || flag_of(opt_view(e.show_as_hex)) == Some(
                        true,
                    );
                    match opt_view(e.address) {
                        None => Err("no Address"@),
                        Some(at) => if at.contains('[') || at.contains(']') {
                            Err("unsupported address expression "@ + debug_str(at)
                                + " (symbol/pointer-expression addressing isn't supported)"@)
                        } else {
                            match address_expr_of(at) {
                                Err(err) => Err("unsupported address "@ + debug_str(at) + ": "@
                                    + err),
                                Ok(base) => {
                                    let ts = offset_texts(e);
                                    if ts.len() > MAX_POINTER_CHAIN_DEPTH {
                                        Err("pointer chain of "@ + decimal(ts.len())
                                            + " offsets is over the 16-level limit"@)
                                    } else {
                                        match hex_offsets(ts) {
                                            Err(t) => Err("invalid offset "@ + debug_str(t)),
                                            Ok(po) => Ok(
                                                CheatEntryModel {
                                                    description: seq![],
                                                    base,
                                                    pointer_offsets: po,
                                                    value: v,
                                                    frozen: false,
                                                    show_as_hex,
                                                },
                                            ),
                                        }
                                    }
                                },
                            }
                        },
                    }
                },
            }
        },
    }
}

/// Whether `c` occurs in `s`.
fn has_char(s: &Vec<char>, c: char) -> (r: bool)
    ensures
        r == s@.contains(c),
{
    let mut i: usize = 0;
    while i < s.len()
        invariant
            i <= s.len(),
            forall|k: int| 0 <= k < i ==> s@[k] != c,
        decreases s.len() - i,
    {
        if s[i] == c {
            assert(s@[i as int] == c);
            return true;
        }
        i = i + 1;
    }
    false
}

fn read_offsets_of(entry: &CheatEntryXml) -> (r: Result<Vec<usize>, String>)
    ensures
        match r {
            Ok(v) => hex_offsets(offset_texts(*entry)) == Ok::<Seq<usize>, Seq<char>>(v@),
            Err(m) => hex_offsets(offset_texts(*entry)) matches Err(t) && m@ == "invalid offset "@
                + debug_str(t),
        },
{
    let mut out: Vec<usize> = Vec::new();
    match &entry.offsets {
        None => {
            assert(offset_texts(*entry) =~= Seq::<Seq<char>>::empty());
            Ok(out)
        },
        Some(o) => {
            let ghost ts = o.offset@.map_values(|t: String| t@);
            assert(offset_texts(*entry) =~= ts);
            let mut i: usize = 0;
            while i < o.offset.len()
                invariant
                    i <= o.offset@.len(),
                    ts == o.offset@.map_values(|t: String| t@),
                    offset_texts(*entry) == ts,
                    hex_offsets(ts.take(i as int)) == Ok::<Seq<usize>, Seq<char>>(out@),
                decreases o.offset@.len() - i,
            {
                let t = &o.offset[i];
                assert(ts[i as int] == t@);
                assert(ts.take(i + 1).drop_last() =~= ts.take(i as int));
                match parse_hex_usize(t.as_str()) {
                    Some(v) => {
                        out.push(v);
                    },
                    None => {
                        proof {
                            assert(ts.take(i + 1).last() == t@);
                            assert(hex_offsets(ts.take(i + 1)) == Err::<Seq<usize>, Seq<char>>(t@));
                            assert(ts =~= ts.take(i + 1) + ts.skip(i + 1));
                            lemma_hex_offsets_error_stays(ts.take(i + 1), ts.skip(i + 1));
                            assert(hex_offsets(offset_texts(*entry)) == Err::<Seq<usize>, Seq<char>>(
                                t@,
                            ));
                        }
                        let d = str_debug_text(t.as_str());
                        let m = text2("invalid offset ", d.as_str());
                        assert(m@ == "invalid offset "@ + debug_str(t@));
                        return Err(m);
                    },
                }
                i = i + 1;
            }
            assert(ts.take(i as int) =~= ts);
            Ok(out)
        },
    }
}

/// Imports one leaf entry, or explains why it can't be. The description is
/// left empty for the caller to fill in.
pub fn import_leaf_entry(entry: &CheatEntryXml) -> (r: Result<CheatEntry, String>)
    ensures
        match r {
            Ok(e) => leaf_entry(*entry) == Ok::<CheatEntryModel, Seq<char>>(e@),
            Err(m) => leaf_entry(*entry) == Err::<CheatEntryModel, Seq<char>>(m@),
        },
{
    let variable_type = match &entry.variable_type {
        Some(t) => t,
        None => {
            return Err(string_of(&chars_of("no VariableType")));
        },
    };
    let key = type_key_of(variable_type.as_str());
    let value = if key_is(&key, "string") || key_is(&key, "unicode string") {
        import_string_value(entry, variable_type.as_str())
    } else if key_is(&key, "array of byte") {
        import_byte_array_value(entry)
    } else {
        map_variable_type(&key, variable_type.as_str())
    };
    let value = match value {
        Ok(v) => v,
        Err(m) => {
            return Err(m);
        },
    };
    let show_as_hex = key_is(&key, "pointer") || element_flag(&entry.show_as_hex) == Some(true);
    let address_text = match &entry.address {
        Some(a) => a,
        None => {
            return Err(string_of(&chars_of("no Address")));
        },
    };
    let at = chars_of(address_text.as_str());
    if has_char(&at, '[') || has_char(&at, ']') {
        return Err(
            text3(
                "unsupported address expression ",
                str_debug_text(address_text.as_str()).as_str(),
                " (symbol/pointer-expression addressing isn't supported)",
            ),
        );
    }
    let base = match parse_address_expr(address_text.as_str()) {
        Ok(b) => b,
        Err(err) => {
            let mut m = text3(
                "unsupported address ",
                str_debug_text(address_text.as_str()).as_str(),
                ": ",
            );
            append_chars(&mut m, &chars_of(err.as_str()));
            return Err(m);
        },
    };
    let count = match &entry.offsets {
        Some(o) => o.offset.len(),
        None => 0,
    };
    assert(count == offset_texts(*entry).len());
    if count > MAX_POINTER_CHAIN_DEPTH {
        let mut m = string_of(&chars_of("pointer chain of "));
        append_chars(&mut m, &decimal_string(count));
        append_chars(&mut m, &chars_of(" offsets is over the 16-level limit"));
        return Err(m);
    }
    let pointer_offsets = match read_offsets_of(entry) {
        Ok(v) => v,
        Err(m) => {
            return Err(m);
        },
    };
    let e = CheatEntry {
        description: String::new(),
        base,
        pointer_offsets,
        value,
        frozen: false,
        show_as_hex,
    };
    assert(e@.description =~= Seq::<char>::empty());
    Ok(e)
}

// ---- the whole table --------------------------------------------------------------

/// An entry's description as imported: unquoted, after the enclosing
/// groups' descriptions (`"Addresses / Ammo"`), so flattening the groups
/// keeps what they said.
pub open spec fn full_description(e: CheatEntryXml, path: Seq<char>) -> Seq<char> {
    let d = unquoted(
        match opt_view(e.description) {
            Some(d) => d,
            None => seq![],
        },
    );
    if path.len() == 0 {
        d
    } else {
        path + " / "@ + d
    }
}

/// `s` with its first character uppercased.
pub open spec fn capitalized(s: Seq<char>) -> Seq<char> {
    if s.len() == 0 {
        s
    } else {
        seq![upper_char(s[0])] + s.drop_first()
    }
}

pub open spec fn script_error_text(err: ScriptError) -> Seq<char> {
    "more than one "@ + (match err {
        ScriptError::DuplicateSection(crate::script::Section::Enable) => "[ENABLE]"@,
        ScriptError::DuplicateSection(crate::script::Section::Disable) => "[DISABLE]"@,
    }) + " section"@
}

/// Why a leaf entry was skipped, and what kind of script it carries: where
/// it carries a script, its classification is the reason; where the script
/// doesn't parse, that is.
pub open spec fn skip_reason(e: CheatEntryXml, leaf_reason: Seq<char>) -> (Seq<char>, Option<ScriptKind>) {
    match script_text(e) {
        None => (leaf_reason, None),
        Some(t) => match parsed(t) {
            Ok(h) => {
                let k = script_kind(h.0, h.1);
                (capitalized(reason_text(k)), Some(k))
            },
            Err(err) => ("The script couldn't be read \u{2014} "@ + script_error_text(err) + "."@, None),
        },
    }
}

/// Importing `es` (in document order) under the group path `path`, on top
/// of the report `r`: groups are walked into, leaves imported with their
/// full description or skipped with a reason, and entries frozen in the
/// source listed.
pub open spec fn import_all(es: Seq<CheatEntryXml>, path: Seq<char>, r: ReportModel) -> ReportModel
    decreases es,
{
    if es.len() == 0 {
        r
    } else {
        let r1 = import_all(es.drop_last(), path, r);
        let e = es.last();
        let full = full_description(e, path);
        if group(e) {
            match e.nested {
                Some(n) => {
                    proof {
                        assert(decreases_to!(es => es[es.len() - 1]));
                    }
                    import_all(n.entry@, full, r1)
                },
                None => r1,
            }
        } else {
            match leaf_entry(e) {
                Ok(ce) => ReportModel {
                    imported: r1.imported.push(CheatEntryModel { description: full, ..ce }),
                    skipped: r1.skipped,
                    was_active: if activated(e) {
                        r1.was_active.push(full)
                    } else {
                        r1.was_active
                    },
                },
                Err(reason) => {
                    let (why, kind) = skip_reason(e, reason);
                    ReportModel {
                        imported: r1.imported,
                        skipped: r1.skipped.push(
                            SkippedModel {
                                description: full,
                                reason: why,
                                script_text: script_text(e),
                                script_kind: kind,
                            },
                        ),
                        was_active: r1.was_active,
                    }
                },
            }
        }
    }
}

fn capitalize(s: &str) -> (r: String)
    ensures
        r@ == capitalized(s@),
{
    let c = chars_of(s);
    if c.len() == 0 {
        return string_of(&c);
    }
    let mut out = String::new();
    crate::strings::push_char(&mut out, upper_char_exec(c[0]));
    let rest = string_of_range(&c, 1, c.len());
    append_chars(&mut out, &chars_of(rest.as_str()));
    assert(out@ =~= capitalized(s@));
    out
}

fn skip_reason_of(entry: &CheatEntryXml, leaf_reason: String, script_text: &Option<String>) -> (r: (
    String,
    Option<ScriptKind>,
))
    requires
        opt_view(*script_text) == crate::ct_import::script_text(*entry),
    ensures
        (r.0@, r.1) == skip_reason(*entry, leaf_reason@),
{
    match script_text {
        None => (leaf_reason, None),
        Some(text) => match parse_script(text.as_str()) {
            Ok(script) => {
                let kind = script.kind();
                (capitalize(kind.reason()), Some(kind))
            },
            Err(err) => {
                let mut m = string_of(&chars_of("The script couldn't be read \u{2014} "));
                append_chars(&mut m, &chars_of(err.message().as_str()));
                append_chars(&mut m, &chars_of("."));
                (m, None)
            },
        },
    }
}

fn joined_description(entry: &CheatEntryXml, group_path: &str) -> (r: String)
    ensures
        r@ == full_description(*entry, group_path@),
{
    let d = match &entry.description {
        Some(d) => strip_one_quote_pair(d.as_str()),
        None => strip_one_quote_pair(""),
    };
    proof {
        if entry.description is None {
            reveal_strlit("");
        }
    }
    let path = chars_of(group_path);
    if path.len() == 0 {
        d
    } else {
        let mut m = string_of(&path);
        append_chars(&mut m, &chars_of(" / "));
        append_chars(&mut m, &chars_of(d.as_str()));
        m
    }
}

/// Walks a `<CheatEntries>` list, recursing into group entries and
/// importing, or reporting, every leaf.
pub fn import_entries(entries: &Vec<CheatEntryXml>, group_path: &str, report: &mut ImportReport)
    ensures
        final(report)@ == import_all(entries@, group_path@, old(report)@),
    decreases entries@,
{
    let ghost r0 = report@;
    let mut i: usize = 0;
    while i < entries.len()
        invariant
            i <= entries@.len(),
            report@ == import_all(entries@.take(i as int), group_path@, r0),
        decreases entries@.len() - i,
    {
        let entry = &entries[i];
        let ghost before = report@;
        assert(entries@.take(i + 1).drop_last() =~= entries@.take(i as int));
        assert(entries@.take(i + 1).last() == *entry);
        let full = joined_description(entry, group_path);
        if is_group(entry) {
            match &entry.nested {
                Some(nested) => {
                    assert(decreases_to!(entries@ => entries@[i as int]));
                    import_entries(&nested.entry, full.as_str(), report);
                },
                None => {},
            }
        } else {
            match import_leaf_entry(entry) {
                Ok(cheat_entry) => {
                    if was_activated(entry) {
                        let copy = string_of(&chars_of(full.as_str()));
                        report.was_active_in_source.push(copy);
                    }
                    let e = CheatEntry { description: full, ..cheat_entry };
                    report.imported.push(e);
                },
                Err(reason) => {
                    let script_text = script_text_of(entry);
                    let (why, kind) = skip_reason_of(entry, reason, &script_text);
                    report.skipped.push(
                        SkippedEntry { description: full, reason: why, script_text, script_kind: kind },
                    );
                },
            }
        }
        assert(report@ =~= import_all(entries@.take(i + 1), group_path@, r0));
        i = i + 1;
    }
    assert(entries@.take(i as int) =~= entries@);
}

/// Imports an already-read `.CT` table.
pub fn import_table(table: &CheatTableXml) -> (r: ImportReport)
    ensures
        r@ == (match table.cheat_entries {
            Some(es) => import_all(es.entry@, seq![], empty_report()),
            None => empty_report(),
        }),
{
    let mut report = ImportReport::default();
    let ghost r0 = report@;
    match &table.cheat_entries {
        Some(entries) => {
            import_entries(&entries.entry, "", &mut report);
            proof {
                reveal_strlit("");
                assert(""@ =~= Seq::<char>::empty());
            }
        },
        None => {},
    }
    report
}

/// An import never freezes anything: every entry it adds is unfrozen,
/// whatever the source table's `Activated` said.
pub proof fn imported_entries_are_never_frozen(es: Seq<CheatEntryXml>, path: Seq<char>, r: ReportModel)
    requires
        forall|i: int| 0 <= i < r.imported.len() ==> !(#[trigger] r.imported[i]).frozen,
    ensures
        forall|i: int|
            0 <= i < import_all(es, path, r).imported.len() ==> !(#[trigger] import_all(
                es,
                path,
                r,
            ).imported[i]).frozen,
    decreases es,
{
    if es.len() > 0 {
        imported_entries_are_never_frozen(es.drop_last(), path, r);
        let r1 = import_all(es.drop_last(), path, r);
        let e = es.last();
        let full = full_description(e, path);
        if group(e) {
            match e.nested {
                Some(n) => {
                    assert(decreases_to!(es => es[es.len() - 1]));
                    imported_entries_are_never_frozen(n.entry@, full, r1);
                },
                None => {},
            }
        } else {
            match leaf_entry(e) {
                Ok(ce) => {
                    let out = import_all(es, path, r);
                    assert forall|i: int| 0 <= i < out.imported.len() implies !(
                    #[trigger] out.imported[i]).frozen by {
                        if i < r1.imported.len() {
                            assert(out.imported[i] == r1.imported[i]);
                        }
                    }
                },
                Err(_) => {},
            }
        }
    }
}

/// How many leaf entries `es` holds, counting those inside groups.
pub open spec fn leaf_count(es: Seq<CheatEntryXml>) -> nat
    decreases es,
{
    if es.len() == 0 {
        0
    } else {
        let e = es.last();
        leaf_count(es.drop_last()) + if group(e) {
            match e.nested {
                Some(n) => {
                    proof {
                        assert(decreases_to!(es => es[es.len() - 1]));
                    }
                    leaf_count(n.entry@)
                },
                None => 0nat,
            }
        } else {
            1nat
        }
    }
}

/// Nothing is silently dropped: every leaf entry, inside groups or not,
/// ends up either imported or in the skipped list with a reason.
pub proof fn every_leaf_is_imported_or_skipped(es: Seq<CheatEntryXml>, path: Seq<char>, r: ReportModel)
    ensures
        import_all(es, path, r).imported.len() + import_all(es, path, r).skipped.len()
            == r.imported.len() + r.skipped.len() + leaf_count(es),
    decreases es,
{
    if es.len() > 0 {
        every_leaf_is_imported_or_skipped(es.drop_last(), path, r);
        let r1 = import_all(es.drop_last(), path, r);
        let e = es.last();
        if group(e) {
            match e.nested {
                Some(n) => {
                    assert(decreases_to!(es => es[es.len() - 1]));
                    every_leaf_is_imported_or_skipped(n.entry@, full_description(e, path), r1);
                },
                None => {},
            }
        }
    }
}

/// A `<VariableType>` key Cheat Engine knows.
pub open spec fn known_type_key(key: Seq<char>) -> bool {
    ||| key == "byte"@
    ||| key == "2 bytes"@
    ||| key == "4 bytes"@
    ||| key == "8 bytes"@
    ||| key == "float"@
    ||| key == "double"@
    ||| key == "pointer"@
    ||| key == "string"@
    ||| key == "unicode string"@
    ||| key == "array of byte"@
    ||| key == "auto assembler script"@
    ||| key == "custom"@
    ||| key == "binary"@
    ||| key == "all"@
    ||| key == "grouped"@
}

/// Only the seven numeric type keys import as a value, each as the zero of
/// its type (a pointer as a 64-bit integer); a key Cheat Engine doesn't
/// know is reported as unrecognized, never guessed.
pub proof fn a_variable_type_is_never_guessed(key: Seq<char>, original: Seq<char>)
    ensures
        key == "byte"@ ==> mapped_type(key, original) == Ok::<EntryValueModel, Seq<char>>(
            EntryValueModel::Scalar(ScanValue::I8(0)),
        ),
        key == "2 bytes"@ ==> mapped_type(key, original) == Ok::<EntryValueModel, Seq<char>>(
            EntryValueModel::Scalar(ScanValue::I16(0)),
        ),
        key == "4 bytes"@ ==> mapped_type(key, original) == Ok::<EntryValueModel, Seq<char>>(
            EntryValueModel::Scalar(ScanValue::I32(0)),
        ),
        key == "8 bytes"@ || key == "pointer"@ ==> mapped_type(key, original) == Ok::<
            EntryValueModel,
            Seq<char>,
        >(EntryValueModel::Scalar(ScanValue::I64(0))),
        key == "float"@ ==> mapped_type(key, original) == Ok::<EntryValueModel, Seq<char>>(
            EntryValueModel::Scalar(ScanValue::F32(0)),
        ),
        key == "double"@ ==> mapped_type(key, original) == Ok::<EntryValueModel, Seq<char>>(
            EntryValueModel::Scalar(ScanValue::F64(0)),
        ),
        mapped_type(key, original) is Ok <==> (key == "byte"@ || key == "2 bytes"@ || key
            == "4 bytes"@ || key == "8 bytes"@ || key == "float"@ || key == "double"@ || key
            == "pointer"@),
        !known_type_key(key) ==> mapped_type(key, original) == Err::<EntryValueModel, Seq<char>>(
            "unrecognized VariableType "@ + debug_str(original),
        ),
{
    reveal_strlit("byte");
    reveal_strlit("2 bytes");
    reveal_strlit("4 bytes");
    reveal_strlit("8 bytes");
    reveal_strlit("float");
    reveal_strlit("double");
    reveal_strlit("pointer");
    reveal_strlit("string");
    reveal_strlit("unicode string");
    reveal_strlit("array of byte");
    reveal_strlit("auto assembler script");
    reveal_strlit("custom");
    reveal_strlit("binary");
    reveal_strlit("all");
    reveal_strlit("grouped");
    if key == "2 bytes"@ {
        assert(key.len() != "byte"@.len());
    }
    if key == "4 bytes"@ {
        assert(key.len() != "byte"@.len());
        assert(key[0] != "2 bytes"@[0]);
    }
    if key == "8 bytes"@ {
        assert(key.len() != "byte"@.len());
        assert(key[0] != "2 bytes"@[0]);
        assert(key[0] != "4 bytes"@[0]);
    }
    if key == "float"@ {
        assert(key.len() != "byte"@.len());
        assert(key.len() != "2 bytes"@.len());
        assert(key.len() != "4 bytes"@.len());
        assert(key.len() != "8 bytes"@.len());
    }
    if key == "double"@ {
        assert(key.len() != "byte"@.len());
        assert(key.len() != "2 bytes"@.len());
        assert(key.len() != "4 bytes"@.len());
        assert(key.len() != "8 bytes"@.len());
        assert(key.len() != "float"@.len());
    }
    if key == "pointer"@ {
        assert(key.len() != "byte"@.len());
        assert(key[0] != "2 bytes"@[0]);
        assert(key[0] != "4 bytes"@[0]);
        assert(key[0] != "8 bytes"@[0]);
        assert(key.len() != "float"@.len());
        assert(key.len() != "double"@.len());
    }
}

/// Every one of `ts` is a hex offset.
pub open spec fn all_hex_offsets(ts: Seq<Seq<char>>) -> bool {
    forall|i: int| 0 <= i < ts.len() ==> (#[trigger] hex_usize_of(ts[i])) is Some
}

proof fn lemma_hex_offsets_read_all(ts: Seq<Seq<char>>)
    requires
        all_hex_offsets(ts),
    ensures
        hex_offsets(ts) == Ok::<Seq<usize>, Seq<char>>(
            Seq::new(ts.len(), |i: int| hex_usize_of(ts[i])->0),
        ),
    decreases ts.len(),
{
    if ts.len() > 0 {
        let rest = ts.drop_last();
        assert(all_hex_offsets(rest)) by {
            assert forall|i: int| 0 <= i < rest.len() implies (#[trigger] hex_usize_of(rest[i])) is Some by {
                assert(rest[i] == ts[i]);
                assert(hex_usize_of(ts[i]) is Some);
            }
        }
        lemma_hex_offsets_read_all(rest);
        assert(hex_usize_of(ts[ts.len() - 1]) is Some);
        let vs = Seq::new(rest.len(), |i: int| hex_usize_of(rest[i])->0);
        assert(hex_offsets(ts) == Ok::<Seq<usize>, Seq<char>>(vs.push(hex_usize_of(ts.last())->0)));
        assert(vs.push(hex_usize_of(ts.last())->0) =~= Seq::new(ts.len(), |i: int| hex_usize_of(ts[i])->0));
    } else {
        assert(Seq::new(ts.len(), |i: int| hex_usize_of(ts[i])->0) =~= Seq::<usize>::empty());
    }
}

/// A `4 Bytes` entry whose offsets are all hex is refused exactly for a
/// bracketed (symbol or pointer-expression) address, an address that
/// doesn't parse, or a chain deeper than [`MAX_POINTER_CHAIN_DEPTH`]; an
/// imported one keeps every offset, in document order.
pub proof fn a_leaf_is_refused_only_for_its_address_or_chain_depth(e: CheatEntryXml)
    requires
        opt_view(e.variable_type) matches Some(vt) && type_key(vt) == "4 bytes"@,
        e.address is Some,
        all_hex_offsets(offset_texts(e)),
    ensures
        ({
            let at = opt_view(e.address)->0;
            let ts = offset_texts(e);
            let bracketed = at.contains('[') || at.contains(']');
            &&& leaf_entry(e) is Err <==> (bracketed || address_expr_of(at) is Err || ts.len()
                > MAX_POINTER_CHAIN_DEPTH)
            &&& bracketed ==> leaf_entry(e) == Err::<CheatEntryModel, Seq<char>>(
                "unsupported address expression "@ + debug_str(at)
                    + " (symbol/pointer-expression addressing isn't supported)"@,
            )
            &&& (!bracketed && address_expr_of(at) is Ok && ts.len() > MAX_POINTER_CHAIN_DEPTH)
                ==> leaf_entry(e) == Err::<CheatEntryModel, Seq<char>>(
                "pointer chain of "@ + decimal(ts.len()) + " offsets is over the 16-level limit"@,
            )
            &&& leaf_entry(e) matches Ok(m) ==> {
                &&& m.pointer_offsets.len() == ts.len()
                &&& forall|i: int|
                    0 <= i < ts.len() ==> m.pointer_offsets[i] == (#[trigger] hex_usize_of(ts[i]))->0
                &&& m.value == EntryValueModel::Scalar(ScanValue::I32(0))
                &&& !m.frozen
            }
        }),
{
    let vt = opt_view(e.variable_type)->0;
    let key = type_key(vt);
    reveal_strlit("4 bytes");
    reveal_strlit("string");
    reveal_strlit("unicode string");
    reveal_strlit("array of byte");
    reveal_strlit("pointer");
    assert(key.len() != "string"@.len());
    assert(key.len() != "unicode string"@.len());
    assert(key.len() != "array of byte"@.len());
    assert(key[0] != "pointer"@[0]);
    a_variable_type_is_never_guessed(key, vt);
    assert(mapped_type(key, vt) == Ok::<EntryValueModel, Seq<char>>(
        EntryValueModel::Scalar(ScanValue::I32(0)),
    ));
    let ts = offset_texts(e);
    lemma_hex_offsets_read_all(ts);
    let po = Seq::new(ts.len(), |i: int| hex_usize_of(ts[i])->0);
    assert(hex_offsets(ts) == Ok::<Seq<usize>, Seq<char>>(po));
    assert forall|i: int| 0 <= i < ts.len() implies po[i] == (#[trigger] hex_usize_of(ts[i]))->0 by {}
}

/// The leaf entries of `es` under the group path `path`, in document
/// order, each with its full description: groups are walked into and
/// contribute their leaves, not themselves.
pub open spec fn leaves(es: Seq<CheatEntryXml>, path: Seq<char>) -> Seq<(CheatEntryXml, Seq<char>)>
    decreases es,
{
    if es.len() == 0 {
        seq![]
    } else {
        let e = es.last();
        let full = full_description(e, path);
        leaves(es.drop_last(), path) + if group(e) {
            match e.nested {
                Some(n) => {
                    proof {
                        assert(decreases_to!(es => es[es.len() - 1]));
                    }
                    leaves(n.entry@, full)
                },
                None => seq![],
            }
        } else {
            seq![(e, full)]
        }
    }
}

/// The entries that the leaves `ls` import as, in order.
pub open spec fn imported_of(ls: Seq<(CheatEntryXml, Seq<char>)>) -> Seq<CheatEntryModel>
    decreases ls.len(),
{
    if ls.len() == 0 {
        seq![]
    } else {
        let (e, full) = ls.last();
        imported_of(ls.drop_last()) + match leaf_entry(e) {
            Ok(ce) => seq![CheatEntryModel { description: full, ..ce }],
            Err(_) => seq![],
        }
    }
}

/// The skipped-entry records of the leaves `ls` that can't be imported,
/// in order.
pub open spec fn skipped_of(ls: Seq<(CheatEntryXml, Seq<char>)>) -> Seq<SkippedModel>
    decreases ls.len(),
{
    if ls.len() == 0 {
        seq![]
    } else {
        let (e, full) = ls.last();
        skipped_of(ls.drop_last()) + match leaf_entry(e) {
            Ok(_) => seq![],
            Err(reason) => {
                let (why, kind) = skip_reason(e, reason);
                seq![SkippedModel { description: full, reason: why, script_text: script_text(e), script_kind: kind }]
            },
        }
    }
}

/// The descriptions of the leaves `ls` that import and were active in the
/// source table, in order.
pub open spec fn active_of(ls: Seq<(CheatEntryXml, Seq<char>)>) -> Seq<Seq<char>>
    decreases ls.len(),
{
    if ls.len() == 0 {
        seq![]
    } else {
        let (e, full) = ls.last();
        active_of(ls.drop_last()) + if leaf_entry(e) is Ok && activated(e) {
            seq![full]
        } else {
            seq![]
        }
    }
}

proof fn lemma_of_concat(a: Seq<(CheatEntryXml, Seq<char>)>, b: Seq<(CheatEntryXml, Seq<char>)>)
    ensures
        imported_of(a + b) == imported_of(a) + imported_of(b),
        skipped_of(a + b) == skipped_of(a) + skipped_of(b),
        active_of(a + b) == active_of(a) + active_of(b),
    decreases b.len(),
{
    if b.len() == 0 {
        assert(a + b =~= a);
        assert(imported_of(a) + imported_of(b) =~= imported_of(a));
        assert(skipped_of(a) + skipped_of(b) =~= skipped_of(a));
        assert(active_of(a) + active_of(b) =~= active_of(a));
    } else {
        lemma_of_concat(a, b.drop_last());
        assert((a + b).drop_last() =~= a + b.drop_last());
        assert((a + b).last() == b.last());
        assert(imported_of(a + b) =~= imported_of(a) + imported_of(b));
        assert(skipped_of(a + b) =~= skipped_of(a) + skipped_of(b));
        assert(active_of(a + b) =~= active_of(a) + active_of(b));
    }
}

/// An import lists every leaf in document order, groups flattened: the
/// importable ones as entries with their full descriptions, the others as
/// skipped records with their reasons, and the importable ones active in
/// the source by description, on top of what the report held.
pub proof fn the_report_follows_document_order(es: Seq<CheatEntryXml>, path: Seq<char>, r: ReportModel)
    ensures
        import_all(es, path, r) =~= (ReportModel {
            imported: r.imported + imported_of(leaves(es, path)),
            skipped: r.skipped + skipped_of(leaves(es, path)),
            was_active: r.was_active + active_of(leaves(es, path)),
        }),
    decreases es,
{
    if es.len() == 0 {
        assert(r.imported + imported_of(leaves(es, path)) =~= r.imported);
        assert(r.skipped + skipped_of(leaves(es, path)) =~= r.skipped);
        assert(r.was_active + active_of(leaves(es, path)) =~= r.was_active);
    } else {
        let head = es.drop_last();
        the_report_follows_document_order(head, path, r);
        let r1 = import_all(head, path, r);
        let e = es.last();
        let full = full_description(e, path);
        let lh = leaves(head, path);
        if group(e) {
            match e.nested {
                Some(n) => {
                    assert(decreases_to!(es => es[es.len() - 1]));
                    the_report_follows_document_order(n.entry@, full, r1);
                    let ln = leaves(n.entry@, full);
                    lemma_of_concat(lh, ln);
                    assert(r.imported + imported_of(lh) + imported_of(ln) =~= r.imported + (
                    imported_of(lh) + imported_of(ln)));
                    assert(r.skipped + skipped_of(lh) + skipped_of(ln) =~= r.skipped + (skipped_of(
                        lh,
                    ) + skipped_of(ln)));
                    assert(r.was_active + active_of(lh) + active_of(ln) =~= r.was_active + (
                    active_of(lh) + active_of(ln)));
                },
                None => {
                    assert(leaves(es, path) =~= lh);
                },
            }
        } else {
            let one = seq![(e, full)];
            lemma_of_concat(lh, one);
            assert(one.drop_last() =~= Seq::<(CheatEntryXml, Seq<char>)>::empty());
            assert(imported_of(one.drop_last()) =~= Seq::<CheatEntryModel>::empty());
            assert(skipped_of(one.drop_last()) =~= Seq::<SkippedModel>::empty());
            assert(active_of(one.drop_last()) =~= Seq::<Seq<char>>::empty());
            match leaf_entry(e) {
                Ok(ce) => {
                    assert(r.imported + imported_of(lh) + imported_of(one) =~= r.imported + (
                    imported_of(lh) + imported_of(one)));
                    assert(r.skipped + skipped_of(lh) + skipped_of(one) =~= r.skipped + (skipped_of(
                        lh,
                    ) + skipped_of(one)));
                    assert(r.was_active + active_of(lh) + active_of(one) =~= r.was_active + (
                    active_of(lh) + active_of(one)));
                },
                Err(_) => {
                    assert(r.imported + imported_of(lh) + imported_of(one) =~= r.imported + (
                    imported_of(lh) + imported_of(one)));
                    assert(r.skipped + skipped_of(lh) + skipped_of(one) =~= r.skipped + (skipped_of(
                        lh,
                    ) + skipped_of(one)));
                    assert(r.was_active + active_of(lh) + active_of(one) =~= r.was_active + (
                    active_of(lh) + active_of(one)));
                },
            }
        }
    }
}

/// An imported entry is shown as hex exactly when its type (trimmed,
/// ignoring case) is `pointer` or its `<ShowAsHex>` element trims to `1`,
/// whatever its type.
pub proof fn an_entry_is_shown_as_hex_for_a_pointer_or_its_flag(e: CheatEntryXml)
    requires
        leaf_entry(e) is Ok,
    ensures
        leaf_entry(e)->Ok_0.show_as_hex <==> (lower(trim(opt_view(e.variable_type)->0)) == "pointer"@
            || (e.show_as_hex matches Some(t) && trim(t@) == "1"@)),
{
}

} // verus!
