//! The entry model of a saved cheat table, and the parsers for the address
//! expressions and pointer chains a user types or a `.CT` file holds.
use vstd::prelude::*;

use crate::hex::{
    decimal, decimal_string, hex_upper, lemma_hex_upper_reads_back, parse_radix16, usize_from_hex,
};
use crate::modules::{module_offset_text, ModuleError, ModuleOffsetModel};
use crate::pointer::MAX_POINTER_CHAIN_DEPTH;
use crate::scan_value::ScanValue;
use crate::session::MemoryError;
use crate::strings::{
    append_chars, chars_of, debug_str, drop_leading, drop_trailing, is_ws, last_before,
    lemma_last_before_range, rfind_char, str_debug_text, string_of, string_of_range, trim,
    trim_bounds, trim_char, trim_char_bounds, trim_end, trim_start,
};
use crate::text::TextEncoding;

verus! {

// ---- hex offsets -------------------------------------------------------------------

/// `t` without one leading `0x` (or, failing that, `0X`).
pub open spec fn without_hex_prefix(t: Seq<char>) -> Seq<char> {
    if t.len() >= 2 && t[0] == '0' && (t[1] == 'x' || t[1] == 'X') {
        t.skip(2)
    } else {
        t
    }
}

/// What [`parse_hex_usize`] gives for `text`: trimmed, an optional `0x` or
/// `0X` dropped, then read as `usize::from_str_radix(_, 16)` reads it.
pub open spec fn hex_usize_of(text: Seq<char>) -> Option<usize> {
    match parse_radix16(without_hex_prefix(trim(text))) {
        Some(v) => if v <= usize::MAX {
            Some(v as usize)
        } else {
            None
        },
        None => None,
    }
}

/// [`hex_usize_of`] for `s[from..to]`.
pub fn hex_usize_in(s: &Vec<char>, from: usize, to: usize) -> (r: Option<usize>)
    requires
        from <= to <= s.len(),
    ensures
        r == hex_usize_of(s@.subrange(from as int, to as int)),
{
    let (a, b) = trim_bounds(s, from, to);
    let ghost t = s@.subrange(a as int, b as int);
    let mut start = a;
    if b - a >= 2 && s[a] == '0' && (s[a + 1] == 'x' || s[a + 1] == 'X') {
        start = a + 2;
        assert(t.skip(2) =~= s@.subrange(start as int, b as int));
    } else {
        assert(t =~= s@.subrange(start as int, b as int));
    }
    usize_from_hex(s, start, b)
}

/// Parses a hex number as a user types it: `"70"`, `"0x70"`, `"BD0"`.
pub fn parse_hex_usize(text: &str) -> (r: Option<usize>)
    ensures
        r == hex_usize_of(text@),
{
    let s = chars_of(text);
    assert(s@.subrange(0, s@.len() as int) =~= text@);
    hex_usize_in(&s, 0, s.len())
}

// ---- address expressions ----------------------------------------------------------

/// How a saved entry's address is expressed: absolute, or relative to a
/// module's base (the form nearly every real table uses).
#[derive(Debug, Clone, PartialEq, Eq)]
pub enum AddressExpr {
    Absolute(usize),
    ModuleRelative { module: String, offset: usize },
}

pub enum AddressModel {
    Absolute(usize),
    ModuleRelative { module: Seq<char>, offset: usize },
}

impl View for AddressExpr {
    type V = AddressModel;

    open spec fn view(&self) -> AddressModel {
        match self {
            AddressExpr::Absolute(a) => AddressModel::Absolute(*a),
            AddressExpr::ModuleRelative { module, offset } => AddressModel::ModuleRelative {
                module: module@,
                offset: *offset,
            },
        }
    }
}

pub open spec fn empty_address_message() -> Seq<char> {
    "enter an address, e.g. 7FF6A8EA7000 or \"game.exe\"+1000"@
}

pub open spec fn missing_module_message() -> Seq<char> {
    "missing a module name before '+'"@
}

pub open spec fn bad_offset_message(t: Seq<char>) -> Seq<char> {
    "'"@ + t + "' isn't a valid hex offset"@
}

pub open spec fn bad_address_message(t: Seq<char>) -> Seq<char> {
    "'"@ + t + "' isn't a valid address or module+offset expression"@
}

/// What [`parse_address_expr`] gives for `text`: after trimming, a `+`
/// splits a module name (trimmed, its quotes dropped, trimmed again) from a
/// hex offset at the last `+`; without one the whole text is a hex address.
pub open spec fn address_expr_of(text: Seq<char>) -> Result<AddressModel, Seq<char>> {
    let t = trim(text);
    if t.len() == 0 {
        Err(empty_address_message())
    } else {
        match last_before(t, t.len() as int, '+') {
            Some(k) => {
                let module = trim(trim_char(trim(t.take(k)), '"'));
                let offset_text = t.skip(k + 1);
                if module.len() == 0 {
                    Err(missing_module_message())
                } else {
                    match hex_usize_of(offset_text) {
                        Some(offset) => Ok(AddressModel::ModuleRelative { module, offset }),
                        None => Err(bad_offset_message(offset_text)),
                    }
                }
            },
            None => match hex_usize_of(t) {
                Some(a) => Ok(AddressModel::Absolute(a)),
                None => Err(bad_address_message(t)),
            },
        }
    }
}

proof fn lemma_last_before_skips(s: Seq<char>, n: int, k: int, c: char)
    requires
        0 <= k <= n <= s.len(),
        forall|j: int| k <= j < n ==> s[j] != c,
    ensures
        last_before(s, n, c) == last_before(s, k, c),
    decreases n - k,
{
    if n > k {
        lemma_last_before_skips(s, n - 1, k, c);
    }
}

proof fn lemma_trim_unchanged(s: Seq<char>)
    requires
        s.len() > 0,
        !is_ws(s[0]),
        !is_ws(s.last()),
    ensures
        trim(s) == s,
{
    assert(trim_start(s) == s);
    assert(trim_end(s) == s);
}

/// A module-relative address written as a module map writes it
/// (`module+OFFSET`) reads back as the same module and offset, for a module
/// name that neither starts nor ends with whitespace or a quote (a `+`
/// inside the name is fine: the text splits at its last `+`).
pub proof fn a_module_offset_reads_back(m: ModuleOffsetModel)
    requires
        m.module.len() > 0,
        !is_ws(m.module[0]),
        !is_ws(m.module.last()),
        m.module[0] != '"',
        m.module.last() != '"',
    ensures
        address_expr_of(module_offset_text(m)) == Ok::<AddressModel, Seq<char>>(
            AddressModel::ModuleRelative { module: m.module, offset: m.offset },
        ),
{
    reveal_strlit("+");
    let h = hex_upper(m.offset as nat);
    lemma_hex_upper_reads_back(m.offset as nat);
    let name = m.module;
    let t = module_offset_text(m);
    assert(t =~= name + seq!['+'] + h);
    let plus = name.len() as int;
    assert(t[plus] == '+');
    assert(t[0] == name[0]);
    assert(t.last() == h.last());
    lemma_trim_unchanged(t);
    assert forall|j: int| plus + 1 <= j < t.len() implies t[j] != '+' by {
        assert(t[j] == h[j - plus - 1]);
    }
    lemma_last_before_skips(t, t.len() as int, plus + 1, '+');
    assert(last_before(t, t.len() as int, '+') == Some(plus));
    assert(t.take(plus) =~= name);
    lemma_trim_unchanged(name);
    assert(drop_leading(name, '"') == name);
    assert(drop_trailing(name, '"') == name);
    assert(trim_char(name, '"') == name);
    assert(t.skip(plus + 1) =~= h);
    lemma_trim_unchanged(h);
    assert(without_hex_prefix(h) == h);
    assert(crate::hex::radix16_digits(h) == h);
    assert(crate::hex::all_hex(h));
    assert(parse_radix16(h) == Some(m.offset as nat));
}

fn quoted_message(before: &str, t: &Vec<char>, from: usize, to: usize, after: &str) -> (r: String)
    requires
        from <= to <= t.len(),
    ensures
        r@ == before@ + t@.subrange(from as int, to as int) + after@,
{
    let mut m = string_of(&chars_of(before));
    let piece = string_of_range(t, from, to);
    append_chars(&mut m, &chars_of(piece.as_str()));
    append_chars(&mut m, &chars_of(after));
    m
}

/// Parses an address expression as a user types it or a `.CT` file holds
/// it: a bare hex address (`"7FF6A8EA7000"`, `0x` optional), or
/// `module.exe+HEX` / `"module.exe"+HEX`.
pub fn parse_address_expr(text: &str) -> (r: Result<AddressExpr, String>)
    ensures
        match r {
            Ok(a) => address_expr_of(text@) == Ok::<AddressModel, Seq<char>>(a@),
            Err(m) => address_expr_of(text@) == Err::<AddressModel, Seq<char>>(m@),
        },
{
    let all = chars_of(text);
    let (a, b) = trim_bounds(&all, 0, all.len());
    assert(all@.subrange(0, all@.len() as int) =~= text@);
    let s = {
        let mut v: Vec<char> = Vec::new();
        let mut i = a;
        while i < b
            invariant
                a <= i <= b <= all.len(),
                v@ == all@.subrange(a as int, i as int),
            decreases b - i,
        {
            v.push(all[i]);
            i = i + 1;
            assert(v@ =~= all@.subrange(a as int, i as int));
        }
        v
    };
    let ghost t = trim(text@);
    assert(s@ == t);
    if s.len() == 0 {
        return Err(
            string_of(&chars_of("enter an address, e.g. 7FF6A8EA7000 or \"game.exe\"+1000")),
        );
    }
    proof {
        lemma_last_before_range(t, t.len() as int, '+');
    }
    match rfind_char(&s, '+') {
        Some(k) => {
            let (m0, m1) = trim_bounds(&s, 0, k);
            assert(s@.subrange(0, k as int) =~= t.take(k as int));
            let (q0, q1) = trim_char_bounds(&s, m0, m1, '"');
            let (n0, n1) = trim_bounds(&s, q0, q1);
            if n0 == n1 {
                return Err(string_of(&chars_of("missing a module name before '+'")));
            }
            assert(s@.subrange(k + 1, s@.len() as int) =~= t.skip(k + 1));
            match hex_usize_in(&s, k + 1, s.len()) {
                Some(offset) => {
                    let module = string_of_range(&s, n0, n1);
                    Ok(AddressExpr::ModuleRelative { module, offset })
                },
                None => Err(quoted_message("'", &s, k + 1, s.len(), "' isn't a valid hex offset")),
            }
        },
        None => {
            assert(s@.subrange(0, s@.len() as int) =~= t);
            match hex_usize_in(&s, 0, s.len()) {
                Some(address) => Ok(AddressExpr::Absolute(address)),
                None => Err(
                    quoted_message(
                        "'",
                        &s,
                        0,
                        s.len(),
                        "' isn't a valid address or module+offset expression",
                    ),
                ),
            }
        },
    }
}

// ---- pointer chains -----------------------------------------------------------------

/// The characters that separate offsets in a typed pointer chain.
pub open spec fn is_offset_separator(c: char) -> bool {
    c == ',' || c == ' ' || c == '\t'
}

/// The pieces of `s[..n]` split at every separator: the finished pieces,
/// and the piece still open at position `n`.
pub open spec fn offset_pieces(s: Seq<char>, n: int) -> (Seq<Seq<char>>, Seq<char>)
    decreases n,
{
    if n <= 0 {
        (seq![], seq![])
    } else {
        let (done, cur) = offset_pieces(s, n - 1);
        if is_offset_separator(s[n - 1]) {
            (done.push(cur), seq![])
        } else {
            (done, cur.push(s[n - 1]))
        }
    }
}

/// Every piece of `s` split at the separators, empty ones included, as
/// `str::split` yields them.
pub open spec fn offset_tokens(s: Seq<char>) -> Seq<Seq<char>> {
    let (done, cur) = offset_pieces(s, s.len() as int);
    done.push(cur)
}

/// Reading the tokens in order, skipping blank ones: the offsets, or the
/// error for the first token that isn't a hex number.
pub open spec fn read_offsets(tokens: Seq<Seq<char>>) -> Result<Seq<usize>, Seq<char>>
    decreases tokens.len(),
{
    if tokens.len() == 0 {
        Ok(seq![])
    } else {
        match read_offsets(tokens.drop_last()) {
            Err(e) => Err(e),
            Ok(vs) => {
                let t = tokens.last();
                if trim(t).len() == 0 {
                    Ok(vs)
                } else {
                    match hex_usize_of(t) {
                        Some(v) => Ok(vs.push(v)),
                        None => Err(bad_offset_message(trim(t))),
                    }
                }
            },
        }
    }
}

pub open spec fn too_deep_message(n: nat) -> Seq<char> {
    decimal(n) + " offsets is over the 16-level limit"@
}

/// What [`parse_pointer_offsets`] gives for `text`.
pub open spec fn pointer_offsets_of(text: Seq<char>) -> Result<Seq<usize>, Seq<char>> {
    match read_offsets(offset_tokens(text)) {
        Err(e) => Err(e),
        Ok(vs) => if vs.len() > MAX_POINTER_CHAIN_DEPTH {
            Err(too_deep_message(vs.len()))
        } else {
            Ok(vs)
        },
    }
}

proof fn lemma_read_offsets_error_stays(a: Seq<Seq<char>>, b: Seq<Seq<char>>)
    requires
        read_offsets(a) is Err,
    ensures
        read_offsets(a + b) == read_offsets(a),
    decreases b.len(),
{
    if b.len() == 0 {
        assert(a + b =~= a);
    } else {
        lemma_read_offsets_error_stays(a, b.drop_last());
        assert((a + b).drop_last() =~= a + b.drop_last());
    }
}

/// The tokens of `text` split at the separators, as character vectors.
fn split_offsets(s: &Vec<char>) -> (r: Vec<Vec<char>>)
    ensures
        r@.map_values(|t: Vec<char>| t@) == offset_tokens(s@),
{
    let mut done: Vec<Vec<char>> = Vec::new();
    let mut cur: Vec<char> = Vec::new();
    let mut i: usize = 0;
    while i < s.len()
        invariant
            i <= s.len(),
            done@.map_values(|t: Vec<char>| t@) == offset_pieces(s@, i as int).0,
            cur@ == offset_pieces(s@, i as int).1,
        decreases s.len() - i,
    {
        let ghost prev = offset_pieces(s@, i as int);
        let ghost before = done@.map_values(|t: Vec<char>| t@);
        let c = s[i];
        if c == ',' || c == ' ' || c == '\t' {
            let piece = cur;
            cur = Vec::new();
            let ghost pv = piece@;
            done.push(piece);
            assert(done@.map_values(|t: Vec<char>| t@) =~= before.push(pv));
        } else {
            cur.push(c);
        }
        i = i + 1;
    }
    let ghost before = done@.map_values(|t: Vec<char>| t@);
    let ghost last = cur@;
    done.push(cur);
    assert(done@.map_values(|t: Vec<char>| t@) =~= before.push(last));
    done
}

/// Parses a pointer chain as typed: hex offsets separated by commas or
/// whitespace, in the order a `.CT` file lists them. Empty input is an
/// empty chain, a direct address; more than [`MAX_POINTER_CHAIN_DEPTH`]
/// offsets is refused.
pub fn parse_pointer_offsets(text: &str) -> (r: Result<Vec<usize>, String>)
    ensures
        match r {
            Ok(v) => pointer_offsets_of(text@) == Ok::<Seq<usize>, Seq<char>>(v@),
            Err(m) => pointer_offsets_of(text@) == Err::<Seq<usize>, Seq<char>>(m@),
        },
{
    let s = chars_of(text);
    let tokens = split_offsets(&s);
    let ghost ts = tokens@.map_values(|t: Vec<char>| t@);
    let mut out: Vec<usize> = Vec::new();
    let mut i: usize = 0;
    while i < tokens.len()
        invariant
            i <= tokens@.len(),
            ts == tokens@.map_values(|t: Vec<char>| t@),
            ts == offset_tokens(text@),
            read_offsets(ts.take(i as int)) == Ok::<Seq<usize>, Seq<char>>(out@),
        decreases tokens@.len() - i,
    {
        let tok = &tokens[i];
        assert(ts[i as int] == tok@);
        assert(ts.take(i + 1).drop_last() =~= ts.take(i as int));
        let (a, b) = trim_bounds(tok, 0, tok.len());
        assert(tok@.subrange(0, tok@.len() as int) =~= tok@);
        if a < b {
            match hex_usize_in(tok, 0, tok.len()) {
                Some(v) => {
                    out.push(v);
                },
                None => {
                    let m = quoted_message("'", tok, a, b, "' isn't a valid hex offset");
                    proof {
                        assert(ts =~= ts.take(i + 1) + ts.skip(i + 1));
                        lemma_read_offsets_error_stays(ts.take(i + 1), ts.skip(i + 1));
                    }
                    return Err(m);
                },
            }
        }
        i = i + 1;
    }
    assert(ts.take(i as int) =~= ts);
    if out.len() > MAX_POINTER_CHAIN_DEPTH {
        let mut m = string_of(&decimal_string(out.len()));
        append_chars(&mut m, &chars_of(" offsets is over the 16-level limit"));
        return Err(m);
    }
    Ok(out)
}

// ---- entries ------------------------------------------------------------------------

/// A saved entry's value: a number, a fixed-length byte array, or a
/// fixed-length text buffer with its encoding and its zero-terminate
/// display flag (the buffer's length is its declared length, never
/// re-derived from memory).
#[derive(Debug, Clone, PartialEq)]
pub enum EntryValue {
    Scalar(ScanValue),
    Bytes(Vec<u8>),
    Text { bytes: Vec<u8>, encoding: TextEncoding, zero_terminated: bool },
}

pub enum EntryValueModel {
    Scalar(ScanValue),
    Bytes(Seq<u8>),
    Text { bytes: Seq<u8>, encoding: TextEncoding, zero_terminated: bool },
}

impl View for EntryValue {
    type V = EntryValueModel;

    open spec fn view(&self) -> EntryValueModel {
        match self {
            EntryValue::Scalar(v) => EntryValueModel::Scalar(*v),
            EntryValue::Bytes(b) => EntryValueModel::Bytes(b@),
            EntryValue::Text { bytes, encoding, zero_terminated } => EntryValueModel::Text {
                bytes: bytes@,
                encoding: *encoding,
                zero_terminated: *zero_terminated,
            },
        }
    }
}

impl EntryValue {
    /// The bytes this value is written as, and how many bytes a live
    /// refresh re-reads.
    pub open spec fn spec_bytes(&self) -> Seq<u8> {
        match self {
            EntryValue::Scalar(v) => crate::bytes::le_bytes(v.bits(), v.spec_size()),
            EntryValue::Bytes(b) => b@,
            EntryValue::Text { bytes, .. } => bytes@,
        }
    }

    /// This value's little-endian byte representation: what freeze pins an
    /// address to.
    pub fn to_le_bytes(&self) -> (r: Vec<u8>)
        ensures
            r@ == self.spec_bytes(),
    {
        match self {
            EntryValue::Scalar(v) => v.to_le_bytes(),
            EntryValue::Bytes(b) => crate::aob::copy_bytes(b.as_slice()),
            EntryValue::Text { bytes, .. } => crate::aob::copy_bytes(bytes.as_slice()),
        }
    }
}

/// One entry in a saved cheat table.
#[derive(Debug, Clone, PartialEq)]
pub struct CheatEntry {
    pub description: String,
    pub base: AddressExpr,
    /// A pointer chain applied to `base`, in the order a `.CT` file lists
    /// its offsets. Empty means the address is direct.
    pub pointer_offsets: Vec<usize>,
    /// The last-known or saved value.
    pub value: EntryValue,
    pub frozen: bool,
    /// Display the value in hex.
    pub show_as_hex: bool,
}

pub struct CheatEntryModel {
    pub description: Seq<char>,
    pub base: AddressModel,
    pub pointer_offsets: Seq<usize>,
    pub value: EntryValueModel,
    pub frozen: bool,
    pub show_as_hex: bool,
}

impl View for CheatEntry {
    type V = CheatEntryModel;

    open spec fn view(&self) -> CheatEntryModel {
        CheatEntryModel {
            description: self.description@,
            base: self.base@,
            pointer_offsets: self.pointer_offsets@,
            value: self.value@,
            frozen: self.frozen,
            show_as_hex: self.show_as_hex,
        }
    }
}

/// Why an entry's live address could not be resolved.
#[derive(Debug, Clone, PartialEq, Eq)]
pub enum ResolveError {
    /// A module-relative entry's module isn't loaded in the attached
    /// process; carries the module's name.
    ModuleNotFound(String),
    Memory(MemoryError),
}

pub open spec fn resolve_message(e: ResolveError) -> Seq<char> {
    match e {
        ResolveError::ModuleNotFound(m) => "module "@ + debug_str(m@) + " isn't loaded"@,
        ResolveError::Memory(err) => crate::session::memory_message(err),
    }
}

impl ResolveError {
    /// The message shown for this error.
    pub fn message(&self) -> (r: String)
        ensures
            r@ == resolve_message(*self),
    {
        match self {
            ResolveError::ModuleNotFound(module) => {
                let mut m = string_of(&chars_of("module "));
                append_chars(&mut m, &chars_of(str_debug_text(module.as_str()).as_str()));
                append_chars(&mut m, &chars_of(" isn't loaded"));
                m
            },
            ResolveError::Memory(err) => err.message(),
        }
    }
}

/// The base address of a module-relative entry, from what looking its
/// module up gave: the module's base plus the offset, or why not.
pub fn module_relative_base(module: &str, offset: usize, lookup: Result<usize, ModuleError>) -> (r:
    Result<usize, ResolveError>)
    requires
        lookup matches Ok(b) ==> b + offset <= usize::MAX,
    ensures
        match lookup {
            Ok(b) => r == Ok::<usize, ResolveError>((b + offset) as usize),
            Err(ModuleError::NotFound) => r matches Err(ResolveError::ModuleNotFound(m)) && m@
                == module@,
            Err(ModuleError::Memory(e)) => r == Err::<usize, ResolveError>(ResolveError::Memory(e)),
        },
{
    match lookup {
        Ok(b) => Ok(b + offset),
        Err(ModuleError::NotFound) => Err(ResolveError::ModuleNotFound(string_of(&chars_of(module)))),
        Err(ModuleError::Memory(e)) => Err(ResolveError::Memory(e)),
    }
}

} // verus!
