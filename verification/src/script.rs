//! Parsing and classifying a `.CT` entry's `<AssemblerScript>`.
//!
//! Nothing here executes anything. It answers one question: what kind of
//! script is this, and could Ferrite ever run it? The failure that matters
//! is answering "runnable" about something that isn't: a script
//! half-applied is worse than one refused.
//!
//! Cheat Engine's own order is followed: the `[ENABLE]`/`[DISABLE]` split
//! happens first, then each half is split into `{$LUA}` and assembler
//! blocks. A line outside every section belongs to both halves, and more
//! than one `[ENABLE]` or `[DISABLE]` is an error rather than a merge.
use vstd::prelude::*;

use crate::strings::{
    append_chars, chars_of, clone_chars, concat_str, find_char, first_from, is_whitespace, is_ws, lemma_trim_start_skip,
    lines, lines_of, matches_at, same_chars, string_of, trim, trim_bounds, trim_end, trim_start, upper,
    upper_range, views,
};

verus! {

/// One piece of a script half, in source order.
#[derive(Debug, Clone, PartialEq, Eq)]
pub enum Block {
    /// The body of a `{$LUA}` block, without the directive lines.
    Lua(String),
    /// Auto Assembler text: everything that isn't inside a `{$LUA}` block.
    Assembler(String),
}

/// A [`Block`] as a mathematical value.
pub enum BlockModel {
    Lua(Seq<char>),
    Assembler(Seq<char>),
}

impl View for Block {
    type V = BlockModel;

    open spec fn view(&self) -> BlockModel {
        match self {
            Block::Lua(s) => BlockModel::Lua(s@),
            Block::Assembler(s) => BlockModel::Assembler(s@),
        }
    }
}

/// What Ferrite could do with a script.
#[derive(Debug, Clone, Copy, PartialEq, Eq, Structural)]
pub enum ScriptKind {
    /// Nothing to run: no code in either half.
    Empty,
    /// Entirely `{$LUA}` blocks, none of which appears to return a value:
    /// the only kind a data-only interpreter could ever run.
    DataOnlyLua,
    /// Has a `{$LUA}` block that appears to return a value, which Cheat
    /// Engine would substitute into the script as assembly. Refused rather
    /// than attempted.
    GenerativeLua,
    /// Contains Auto Assembler code, which needs an assembler, allocation
    /// inside the target and code injection.
    Assembler,
}

/// The explanation [`ScriptKind::reason`] gives for each kind.
pub open spec fn reason_text(kind: ScriptKind) -> Seq<char> {
    match kind {
        ScriptKind::Empty => "the script is empty"@,
        ScriptKind::DataOnlyLua => "a data-only Lua script"@,
        ScriptKind::GenerativeLua => "a Lua script that appears to generate assembly \u{2014} Ferrite does not assemble or inject code, and running only its Lua half would leave the target partly modified"@,
        ScriptKind::Assembler => "an Auto Assembler script \u{2014} running it would mean assembling code, allocating memory inside the target and patching its execution, none of which Ferrite does"@,
    }
}

impl ScriptKind {
    /// Whether a data-only Lua interpreter could run this.
    pub fn is_runnable(self) -> (r: bool)
        ensures
            r == (self == ScriptKind::DataOnlyLua),
    {
        match self {
            ScriptKind::DataOnlyLua => true,
            _ => false,
        }
    }

    /// A one-line explanation, phrased for the import report. The
    /// generative wording says "appears to" on purpose: the check is a
    /// conservative source scan, not a Lua evaluation.
    pub fn reason(self) -> (r: &'static str)
        ensures
            r@ == reason_text(self),
    {
        match self {
            ScriptKind::Empty => "the script is empty",
            ScriptKind::DataOnlyLua => "a data-only Lua script",
            ScriptKind::GenerativeLua => "a Lua script that appears to generate assembly \u{2014} Ferrite does not assemble or inject code, and running only its Lua half would leave the target partly modified",
            ScriptKind::Assembler => "an Auto Assembler script \u{2014} running it would mean assembling code, allocating memory inside the target and patching its execution, none of which Ferrite does",
        }
    }
}

/// Which half of a script a line belongs to.
#[derive(Debug, Clone, Copy, PartialEq, Eq, Structural)]
pub enum Section {
    Enable,
    Disable,
}

impl Section {
    /// The marker line that opens this section.
    pub fn marker(self) -> (r: &'static str)
        ensures
            r@ == (match self {
                Section::Enable => "[ENABLE]"@,
                Section::Disable => "[DISABLE]"@,
            }),
    {
        match self {
            Section::Enable => "[ENABLE]",
            Section::Disable => "[DISABLE]",
        }
    }
}

/// Why a script couldn't be parsed at all.
#[derive(Debug, Clone, Copy, PartialEq, Eq, Structural)]
pub enum ScriptError {
    /// Cheat Engine rejects a script with two `[ENABLE]` or two `[DISABLE]`
    /// sections rather than merging them, so this does too.
    DuplicateSection(Section),
}

impl ScriptError {
    /// The error as a sentence fragment: "more than one [ENABLE] section".
    pub fn message(&self) -> (r: String)
        ensures
            r@ == "more than one "@ + (match self {
                ScriptError::DuplicateSection(Section::Enable) => "[ENABLE]"@,
                ScriptError::DuplicateSection(Section::Disable) => "[DISABLE]"@,
            }) + " section"@,
    {
        match self {
            ScriptError::DuplicateSection(section) => {
                let mut s = concat_str("more than one ", section.marker());
                let tail = chars_of(" section");
                append_chars(&mut s, &tail);
                s
            },
        }
    }
}

/// A parsed `<AssemblerScript>`, split into its two halves. Both halves are
/// built even when the script has no sections at all: then the whole script
/// belongs to both, and `enable` and `disable` are identical.
#[derive(Debug, Clone, PartialEq, Eq)]
pub struct Script {
    pub enable: Vec<Block>,
    pub disable: Vec<Block>,
}

/// The views of a sequence of blocks.
pub open spec fn block_views(v: Seq<Block>) -> Seq<BlockModel> {
    v.map_values(|b: Block| b@)
}

// ---- the Lua source scan -------------------------------------------------------

/// The `=` run starting at `from`.
pub open spec fn eq_run(s: Seq<char>, from: int) -> nat
    decreases s.len() - from,
{
    if 0 <= from < s.len() && s[from] == '=' {
        1 + eq_run(s, from + 1)
    } else {
        0
    }
}

/// If `s[at..]` starts a long bracket (`[[`, `[=[`, `[==[` ...), its level:
/// the number of `=` signs.
pub open spec fn bracket_level(s: Seq<char>, at: int) -> Option<nat> {
    let lvl = eq_run(s, at + 1);
    if 0 <= at && at + 1 + lvl < s.len() && s[at] == '[' && s[at + 1 + lvl] == '[' {
        Some(lvl)
    } else {
        None
    }
}

/// The closer of a level-`lvl` long bracket: `]`, `lvl` times `=`, `]`.
pub open spec fn closer(lvl: nat) -> Seq<char> {
    seq![']'] + Seq::new(lvl, |k: int| '=') + seq![']']
}

/// The first position at or after `from` where `pat` occurs in `s`.
pub open spec fn find_from(s: Seq<char>, from: int, pat: Seq<char>) -> Option<int>
    decreases s.len() + 1 - from,
{
    if from < 0 || from + pat.len() > s.len() {
        None
    } else if s.subrange(from, from + pat.len()) == pat {
        Some(from)
    } else {
        find_from(s, from + 1, pat)
    }
}

/// Where a quoted string whose contents start at `j` stops being scanned:
/// at its closing `q`, or at the end, a backslash skipping the character
/// after it.
pub open spec fn quote_scan(s: Seq<char>, j: int, q: char) -> int
    decreases s.len() - j,
{
    if j < 0 || j >= s.len() || s[j] == q {
        j
    } else if s[j] == '\\' {
        if j + 2 <= s.len() {
            quote_scan(s, j + 2, q)
        } else {
            s.len() as int
        }
    } else {
        quote_scan(s, j + 1, q)
    }
}

/// Where scanning resumes after a quoted string opened at `i`.
pub open spec fn quote_end(s: Seq<char>, i: int) -> int {
    let j = quote_scan(s, i + 1, s[i]);
    if j < s.len() {
        j + 1
    } else {
        s.len() as int
    }
}

/// What stands in for a string literal once its contents are removed. A
/// literal cannot become whitespace: `return 'mov eax,1'` would then read as
/// a bare `return`.
pub open spec fn placeholder() -> Seq<char> {
    seq!['"', 's', '"']
}

pub open spec fn starts_at(s: Seq<char>, at: int, pat: Seq<char>) -> bool {
    0 <= at && at + pat.len() <= s.len() && s.subrange(at, at + pat.len()) == pat
}

pub proof fn lemma_find_from_ge(s: Seq<char>, from: int, pat: Seq<char>)
    ensures
        find_from(s, from, pat) matches Some(r) ==> from <= r && r + pat.len() <= s.len()
            && s.subrange(r, r + pat.len()) == pat,
    decreases s.len() + 1 - from,
{
    if from >= 0 && from + pat.len() <= s.len() && s.subrange(from, from + pat.len()) != pat {
        lemma_find_from_ge(s, from + 1, pat);
    }
}

pub proof fn lemma_first_from_ge(s: Seq<char>, from: int, c: char)
    ensures
        first_from(s, from, c) matches Some(r) ==> from <= r < s.len() && s[r] == c,
    decreases s.len() - from,
{
    if 0 <= from < s.len() && s[from] != c {
        lemma_first_from_ge(s, from + 1, c);
    }
}

pub proof fn lemma_quote_scan_ge(s: Seq<char>, j: int, q: char)
    requires
        0 <= j <= s.len(),
    ensures
        j <= quote_scan(s, j, q) <= s.len(),
    decreases s.len() - j,
{
    if j < s.len() && s[j] != q {
        if s[j] == '\\' {
            if j + 2 <= s.len() {
                lemma_quote_scan_ge(s, j + 2, q);
            }
        } else {
            lemma_quote_scan_ge(s, j + 1, q);
        }
    }
}

/// `s[i..]` with Lua comments removed and the contents of string literals
/// replaced by [`placeholder`], so that a `return` inside either doesn't
/// read as code while a literal still counts as a value.
pub open spec fn strip_lua(s: Seq<char>, i: int) -> Seq<char>
    decreases s.len() - i,
{
    if i < 0 || i >= s.len() {
        seq![]
    } else if starts_at(s, i, seq!['-', '-', '[']) && bracket_level(s, i + 2) is Some {
        let lvl = bracket_level(s, i + 2)->0;
        let body = i + 4 + lvl;
        match find_from(s, body, closer(lvl)) {
            Some(r) => {
                proof {
                    lemma_find_from_ge(s, body, closer(lvl));
                }
                seq![' '] + strip_lua(s, r + lvl + 2)
            },
            None => seq![' '],
        }
    } else if s[i] == '[' && bracket_level(s, i) is Some {
        let lvl = bracket_level(s, i)->0;
        let body = i + 2 + lvl;
        match find_from(s, body, closer(lvl)) {
            Some(r) => {
                proof {
                    lemma_find_from_ge(s, body, closer(lvl));
                }
                placeholder() + strip_lua(s, r + lvl + 2)
            },
            None => placeholder(),
        }
    } else if starts_at(s, i, seq!['-', '-']) {
        match first_from(s, i, '\n') {
            Some(r) => {
                proof {
                    lemma_first_from_ge(s, i, '\n');
                }
                seq![' '] + strip_lua(s, r)
            },
            None => seq![' '],
        }
    } else if s[i] == '"' || s[i] == '\'' {
        proof {
            lemma_quote_scan_ge(s, i + 1, s[i]);
        }
        placeholder() + strip_lua(s, quote_end(s, i))
    } else {
        seq![s[i]] + strip_lua(s, i + 1)
    }
}

/// The Lua code of `src` with comments and string contents removed.
pub open spec fn lua_code(src: Seq<char>) -> Seq<char> {
    strip_lua(src, 0)
}

/// An identifier character: ASCII alphanumeric or `_`.
pub open spec fn is_word(c: char) -> bool {
    ('a' <= c <= 'z') || ('A' <= c <= 'Z') || ('0' <= c <= '9') || c == '_'
}

pub fn is_word_char(c: char) -> (r: bool)
    ensures
        r == is_word(c),
{
    ('a' <= c && c <= 'z') || ('A' <= c && c <= 'Z') || ('0' <= c && c <= '9') || c == '_'
}

pub open spec fn return_word() -> Seq<char> {
    seq!['r', 'e', 't', 'u', 'r', 'n']
}

/// A whole-word `return` at position `p` of `code`.
pub open spec fn return_at(code: Seq<char>, p: int) -> bool {
    &&& starts_at(code, p, return_word())
    &&& (p == 0 || !is_word(code[p - 1]))
    &&& (p + 6 >= code.len() || !is_word(code[p + 6]))
}

/// `t` starts with the keyword `kw`, not merely with a longer word.
pub open spec fn starts_with_keyword(t: Seq<char>, kw: Seq<char>) -> bool {
    &&& starts_at(t, 0, kw)
    &&& !(t.len() > kw.len() && is_word(t[kw.len() as int]))
}

/// What follows a `return` closes the statement without a value: nothing,
/// `;`, or one of `end`, `else`, `elseif`, `until`.
pub open spec fn bare_tail(tail: Seq<char>) -> bool {
    let t = trim_start(tail);
    ||| t.len() == 0
    ||| t[0] == ';'
    ||| starts_with_keyword(t, seq!['e', 'n', 'd'])
    ||| starts_with_keyword(t, seq!['e', 'l', 's', 'e'])
    ||| starts_with_keyword(t, seq!['e', 'l', 's', 'e', 'i', 'f'])
    ||| starts_with_keyword(t, seq!['u', 'n', 't', 'i', 'l'])
}

/// A Lua block appears to `return` a value: its code holds a whole-word
/// `return` that is not bare.
pub open spec fn returns_value(src: Seq<char>) -> bool {
    let code = lua_code(src);
    exists|p: int| #[trigger] return_at(code, p) && !bare_tail(code.skip(p + 6))
}

/// The Lua source has no statements at all: its code is whitespace only.
pub open spec fn lua_blank(src: Seq<char>) -> bool {
    let code = lua_code(src);
    forall|k: int| 0 <= k < code.len() ==> is_ws(#[trigger] code[k])
}

/// The level of a long bracket starting at `at`, if one does.
pub fn long_bracket_level(s: &Vec<char>, at: usize) -> (r: Option<usize>)
    requires
        at <= s.len(),
    ensures
        r == (match bracket_level(s@, at as int) {
            Some(l) => Some(l as usize),
            None => None,
        }),
{
    if at >= s.len() || s[at] != '[' {
        return None;
    }
    let mut k = at + 1;
    while k < s.len() && s[k] == '='
        invariant
            at + 1 <= k <= s.len(),
            eq_run(s@, at + 1) == (k - (at + 1)) + eq_run(s@, k as int),
        decreases s.len() - k,
    {
        k = k + 1;
    }
    assert(eq_run(s@, k as int) == 0);
    if k < s.len() && s[k] == '[' {
        Some(k - (at + 1))
    } else {
        None
    }
}

/// The first position at or after `from` where `pat` occurs in `s`.
pub fn find_seq(s: &Vec<char>, from: usize, pat: &Vec<char>) -> (r: Option<usize>)
    requires
        from <= s.len(),
    ensures
        r == (match find_from(s@, from as int, pat@) {
            Some(j) => Some(j as usize),
            None => None,
        }),
{
    let mut j = from;
    loop
        invariant
            from <= j <= s.len(),
            find_from(s@, from as int, pat@) == find_from(s@, j as int, pat@),
        decreases s.len() - j,
    {
        if pat.len() > s.len() - j {
            return None;
        }
        if matches_at(s, j, pat) {
            return Some(j);
        }
        if j == s.len() {
            assert(s@.subrange(j as int, j as int) =~= pat@);
            return None;
        }
        j = j + 1;
    }
}

/// The closer of a level-`lvl` long bracket.
fn closer_vec(lvl: usize) -> (r: Vec<char>)
    ensures
        r@ == closer(lvl as nat),
{
    let mut r: Vec<char> = Vec::new();
    r.push(']');
    let mut k: usize = 0;
    while k < lvl
        invariant
            k <= lvl,
            r@ == seq![']'] + Seq::new(k as nat, |m: int| '='),
        decreases lvl - k,
    {
        r.push('=');
        k = k + 1;
        assert(r@ =~= seq![']'] + Seq::new(k as nat, |m: int| '='));
    }
    r.push(']');
    assert(r@ =~= closer(lvl as nat));
    r
}

fn push_placeholder(out: &mut Vec<char>)
    ensures
        final(out)@ == old(out)@ + placeholder(),
{
    out.push('"');
    out.push('s');
    out.push('"');
    assert(out@ =~= old(out)@ + placeholder());
}

/// Removes Lua comments and the contents of string literals from `src`.
pub fn strip_lua_comments_and_strings(src: &Vec<char>) -> (out: Vec<char>)
    ensures
        out@ == lua_code(src@),
{
    let b = src;
    let mut out: Vec<char> = Vec::new();
    let mut i: usize = 0;
    let dash_bracket = vec!['-', '-', '['];
    let dashes = vec!['-', '-'];
    assert(dash_bracket@ =~= seq!['-', '-', '[']);
    assert(dashes@ =~= seq!['-', '-']);
    while i < b.len()
        invariant
            i <= b.len(),
            dash_bracket@ == seq!['-', '-', '['],
            dashes@ == seq!['-', '-'],
            lua_code(b@) == out@ + strip_lua(b@, i as int),
        decreases b.len() - i,
    {
        let ghost old_out = out@;
        let ghost i0 = i as int;
        let comment_open = matches_at(b, i, &dash_bracket);
        let comment_level = if comment_open {
            long_bracket_level(b, i + 2)
        } else {
            None
        };
        if comment_open && comment_level.is_some() {
            let lvl = comment_level.unwrap();
            let body = i + 4 + lvl;
            let close = closer_vec(lvl);
            match find_seq(b, body, &close) {
                Some(r) => {
                    proof {
                        lemma_find_from_ge(b@, body as int, closer(lvl as nat));
                    }
                    out.push(' ');
                    i = r + lvl + 2;
                },
                None => {
                    out.push(' ');
                    i = b.len();
                },
            }
            assert(out@ + strip_lua(b@, i as int) =~= old_out + strip_lua(b@, i0));
            continue;
        }
        let string_level = if b[i] == '[' {
            long_bracket_level(b, i)
        } else {
            None
        };
        if string_level.is_some() {
            let lvl = string_level.unwrap();
            let body = i + 2 + lvl;
            let close = closer_vec(lvl);
            match find_seq(b, body, &close) {
                Some(r) => {
                    proof {
                        lemma_find_from_ge(b@, body as int, closer(lvl as nat));
                    }
                    push_placeholder(&mut out);
                    i = r + lvl + 2;
                },
                None => {
                    push_placeholder(&mut out);
                    i = b.len();
                },
            }
            assert(out@ + strip_lua(b@, i as int) =~= old_out + strip_lua(b@, i0));
            continue;
        }
        if matches_at(b, i, &dashes) {
            match find_char(b, i, '\n') {
                Some(r) => {
                    proof {
                        lemma_first_from_ge(b@, i as int, '\n');
                    }
                    out.push(' ');
                    i = r;
                },
                None => {
                    out.push(' ');
                    i = b.len();
                },
            }
            assert(out@ + strip_lua(b@, i as int) =~= old_out + strip_lua(b@, i0));
            continue;
        }
        if b[i] == '"' || b[i] == '\'' {
            let quote = b[i];
            let mut j = i + 1;
            while j < b.len() && b[j] != quote
                invariant
                    i < j <= b.len(),
                    quote == b@[i as int],
                    quote_scan(b@, i + 1, quote) == quote_scan(b@, j as int, quote),
                decreases b.len() - j,
            {
                if b[j] == '\\' {
                    if j + 1 < b.len() {
                        j = j + 2;
                    } else {
                        j = b.len();
                    }
                } else {
                    j = j + 1;
                }
            }
            i = if j < b.len() {
                j + 1
            } else {
                b.len()
            };
            push_placeholder(&mut out);
            assert(quote_scan(b@, j as int, quote) == j);
            assert(out@ + strip_lua(b@, i as int) =~= old_out + strip_lua(b@, i0));
            continue;
        }
        out.push(b[i]);
        i = i + 1;
        assert(out@ + strip_lua(b@, i as int) =~= old_out + strip_lua(b@, i0));
    }
    assert(out@ =~= lua_code(b@));
    out
}

/// Whether the trimmed tail `code[from..]` makes a `return` before it bare.
fn is_bare_tail(code: &Vec<char>, from: usize) -> (r: bool)
    requires
        from <= code.len(),
    ensures
        r == bare_tail(code@.skip(from as int)),
{
    let mut k = from;
    while k < code.len() && is_whitespace(code[k])
        invariant
            from <= k <= code.len(),
            forall|m: int| from <= m < k ==> is_ws(#[trigger] code@[m]),
        decreases code.len() - k,
    {
        k = k + 1;
    }
    let ghost tail = code@.skip(from as int);
    proof {
        assert forall|m: int| 0 <= m < k - from implies is_ws(#[trigger] tail[m]) by {
            assert(tail[m] == code@[m + from]);
        }
        lemma_trim_start_skip(tail, k - from);
        assert(tail.skip(k - from) =~= code@.skip(k as int));
        let t = code@.skip(k as int);
        if t.len() > 0 {
            assert(t[0] == code@[k as int]);
        }
        assert(trim_start(t) == t);
    }
    let ghost t = code@.skip(k as int);
    if k == code.len() {
        return true;
    }
    if code[k] == ';' {
        return true;
    }
    let end_kw = vec!['e', 'n', 'd'];
    let else_kw = vec!['e', 'l', 's', 'e'];
    let elseif_kw = vec!['e', 'l', 's', 'e', 'i', 'f'];
    let until_kw = vec!['u', 'n', 't', 'i', 'l'];
    let r = keyword_at(code, k, &end_kw) || keyword_at(code, k, &else_kw) || keyword_at(
        code,
        k,
        &elseif_kw,
    ) || keyword_at(code, k, &until_kw);
    assert(end_kw@ =~= seq!['e', 'n', 'd']);
    assert(else_kw@ =~= seq!['e', 'l', 's', 'e']);
    assert(elseif_kw@ =~= seq!['e', 'l', 's', 'e', 'i', 'f']);
    assert(until_kw@ =~= seq!['u', 'n', 't', 'i', 'l']);
    r
}

/// Whether `code[at..]` starts with the whole keyword `kw`.
fn keyword_at(code: &Vec<char>, at: usize, kw: &Vec<char>) -> (r: bool)
    requires
        at <= code.len(),
    ensures
        r == starts_with_keyword(code@.skip(at as int), kw@),
{
    let ghost t = code@.skip(at as int);
    if !matches_at(code, at, kw) {
        assert(!starts_at(t, 0, kw@)) by {
            if at + kw.len() <= code.len() {
                assert(t.subrange(0, kw.len() as int) =~= code@.subrange(at as int, at + kw.len()));
            }
        }
        return false;
    }
    assert(t.subrange(0, kw.len() as int) =~= code@.subrange(at as int, at + kw.len()));
    let after = at + kw.len();
    if after < code.len() && is_word_char(code[after]) {
        assert(t[kw.len() as int] == code@[after as int]);
        return false;
    }
    if after < code.len() {
        assert(t[kw.len() as int] == code@[after as int]);
    }
    true
}

/// Whether a Lua block appears to `return` a value.
///
/// Deliberately conservative: this is a source scan, so it can report a
/// value-returning block that never returns one on the path taken, which
/// is the safe direction. A bare `return` is not a value, which is what
/// keeps the standard `if syntaxcheck then return end` preamble runnable.
pub fn lua_returns_a_value(src: &str) -> (r: bool)
    ensures
        r == returns_value(src@),
{
    let chars = chars_of(src);
    lua_chars_return_a_value(&chars)
}

/// [`lua_returns_a_value`] over the characters of a block.
pub fn lua_chars_return_a_value(src: &Vec<char>) -> (r: bool)
    ensures
        r == returns_value(src@),
{
    let code = strip_lua_comments_and_strings(src);
    let ret = vec!['r', 'e', 't', 'u', 'r', 'n'];
    assert(ret@ =~= return_word());
    let mut p: usize = 0;
    while p < code.len()
        invariant
            p <= code.len(),
            code@ == lua_code(src@),
            ret@ == return_word(),
            forall|q: int|
                0 <= q < p ==> !(#[trigger] return_at(code@, q) && !bare_tail(code@.skip(q + 6))),
        decreases code.len() - p,
    {
        if matches_at(&code, p, &ret) && (p == 0 || !is_word_char(code[p - 1])) && (p + 6
            >= code.len() || !is_word_char(code[p + 6])) {
            assert(return_at(code@, p as int));
            if !is_bare_tail(&code, p + 6) {
                assert(return_at(code@, p as int) && !bare_tail(code@.skip(p + 6)));
                return true;
            }
        }
        p = p + 1;
    }
    assert forall|q: int| #[trigger] return_at(code@, q) implies bare_tail(code@.skip(q + 6)) by {
        if q >= p {
            assert(!starts_at(code@, q, return_word()));
        }
    }
    false
}

/// Whether Lua source has any statements at all, ignoring comments.
pub fn lua_is_blank(src: &Vec<char>) -> (r: bool)
    ensures
        r == lua_blank(src@),
{
    let code = strip_lua_comments_and_strings(src);
    let mut k: usize = 0;
    while k < code.len()
        invariant
            k <= code.len(),
            code@ == lua_code(src@),
            forall|m: int| 0 <= m < k ==> is_ws(#[trigger] code@[m]),
        decreases code.len() - k,
    {
        if !is_whitespace(code[k]) {
            return false;
        }
        k = k + 1;
    }
    true
}

// ---- classification ------------------------------------------------------------

/// One step of classifying a half: an assembler block that isn't blank
/// makes it an assembler script for good; a value-returning Lua block makes
/// it generative; any other non-blank Lua block makes it data-only unless it
/// is already generative.
pub open spec fn classify_step(kind: ScriptKind, b: BlockModel) -> ScriptKind {
    if kind == ScriptKind::Assembler {
        ScriptKind::Assembler
    } else {
        match b {
            BlockModel::Assembler(t) => if !aa_blank(t) {
                ScriptKind::Assembler
            } else {
                kind
            },
            BlockModel::Lua(src) => if returns_value(src) {
                ScriptKind::GenerativeLua
            } else if !lua_blank(src) && kind != ScriptKind::GenerativeLua {
                ScriptKind::DataOnlyLua
            } else {
                kind
            },
        }
    }
}

/// The kind of the first `n` blocks of a half.
pub open spec fn classify_upto(bs: Seq<BlockModel>, n: int) -> ScriptKind
    decreases n,
{
    if n <= 0 {
        ScriptKind::Empty
    } else {
        classify_step(classify_upto(bs, n - 1), bs[n - 1])
    }
}

/// The kind of one half of a script.
pub open spec fn classify(bs: Seq<BlockModel>) -> ScriptKind {
    classify_upto(bs, bs.len() as int)
}

/// The more restrictive of two kinds: assembler, then generative, then
/// data-only, then empty.
pub open spec fn stricter(a: ScriptKind, b: ScriptKind) -> ScriptKind {
    if a == ScriptKind::Assembler || b == ScriptKind::Assembler {
        ScriptKind::Assembler
    } else if a == ScriptKind::GenerativeLua || b == ScriptKind::GenerativeLua {
        ScriptKind::GenerativeLua
    } else if a == ScriptKind::DataOnlyLua || b == ScriptKind::DataOnlyLua {
        ScriptKind::DataOnlyLua
    } else {
        ScriptKind::Empty
    }
}

/// The kind of a whole script: the stricter of its two halves.
pub open spec fn script_kind(enable: Seq<BlockModel>, disable: Seq<BlockModel>) -> ScriptKind {
    stricter(classify(enable), classify(disable))
}

fn classify_half(blocks: &Vec<Block>) -> (r: ScriptKind)
    ensures
        r == classify(block_views(blocks@)),
{
    let ghost bs = block_views(blocks@);
    let mut kind = ScriptKind::Empty;
    let mut i: usize = 0;
    while i < blocks.len()
        invariant
            i <= blocks.len(),
            bs == block_views(blocks@),
            kind == classify_upto(bs, i as int),
            kind != ScriptKind::Assembler,
        decreases blocks.len() - i,
    {
        assert(bs[i as int] == blocks@[i as int]@);
        match &blocks[i] {
            Block::Assembler(text) => {
                if !assembler_is_blank(text.as_str()) {
                    kind = ScriptKind::Assembler;
                    proof {
                        lemma_assembler_absorbs(bs, i as int + 1);
                    }
                    return kind;
                }
            },
            Block::Lua(src) => {
                if lua_returns_a_value(src.as_str()) {
                    kind = ScriptKind::GenerativeLua;
                } else if !lua_is_blank(&chars_of(src.as_str())) {
                    if kind != ScriptKind::GenerativeLua {
                        kind = ScriptKind::DataOnlyLua;
                    }
                }
            },
        }
        i = i + 1;
    }
    kind
}

proof fn lemma_assembler_absorbs(bs: Seq<BlockModel>, n: int)
    requires
        0 < n <= bs.len(),
        classify_upto(bs, n) == ScriptKind::Assembler,
    ensures
        classify(bs) == ScriptKind::Assembler,
    decreases bs.len() - n,
{
    if n < bs.len() {
        lemma_assembler_absorbs(bs, n + 1);
    }
}

impl View for Script {
    type V = (Seq<BlockModel>, Seq<BlockModel>);

    open spec fn view(&self) -> (Seq<BlockModel>, Seq<BlockModel>) {
        (block_views(self.enable@), block_views(self.disable@))
    }
}

/// The Lua bodies among `bs`, in source order.
pub open spec fn lua_bodies(bs: Seq<BlockModel>) -> Seq<Seq<char>>
    decreases bs.len(),
{
    if bs.len() == 0 {
        seq![]
    } else {
        let rest = lua_bodies(bs.drop_last());
        match bs.last() {
            BlockModel::Lua(src) => rest.push(src),
            BlockModel::Assembler(_) => rest,
        }
    }
}

/// The views of a sequence of string slices.
pub open spec fn str_views<'a>(v: Seq<&'a str>) -> Seq<Seq<char>> {
    v.map_values(|s: &'a str| s@)
}

impl Script {
    /// Classifies the script, taking the more restrictive of the two
    /// halves: an entry is only runnable if both enabling and disabling it
    /// are.
    pub fn kind(&self) -> (r: ScriptKind)
        ensures
            r == script_kind(self@.0, self@.1),
    {
        let a = classify_half(&self.enable);
        let b = classify_half(&self.disable);
        if a == ScriptKind::Assembler || b == ScriptKind::Assembler {
            ScriptKind::Assembler
        } else if a == ScriptKind::GenerativeLua || b == ScriptKind::GenerativeLua {
            ScriptKind::GenerativeLua
        } else if a == ScriptKind::DataOnlyLua || b == ScriptKind::DataOnlyLua {
            ScriptKind::DataOnlyLua
        } else {
            ScriptKind::Empty
        }
    }

    /// The Lua bodies of one half, in source order: what an interpreter
    /// would run.
    pub fn lua_blocks(&self, section: Section) -> (r: Vec<&str>)
        ensures
            str_views(r@) == lua_bodies(
                match section {
                    Section::Enable => self@.0,
                    Section::Disable => self@.1,
                },
            ),
    {
        let half = match section {
            Section::Enable => &self.enable,
            Section::Disable => &self.disable,
        };
        let ghost bs = block_views(half@);
        let mut r: Vec<&str> = Vec::new();
        let mut i: usize = 0;
        while i < half.len()
            invariant
                i <= half.len(),
                bs == block_views(half@),
                str_views(r@) == lua_bodies(bs.take(i as int)),
            decreases half.len() - i,
        {
            let ghost before = r@;
            assert(bs.take(i + 1).drop_last() =~= bs.take(i as int));
            match &half[i] {
                Block::Lua(src) => {
                    r.push(src.as_str());
                    assert(str_views(r@) =~= str_views(before).push(src@));
                },
                Block::Assembler(_) => {},
            }
            i = i + 1;
        }
        assert(bs.take(i as int) =~= bs);
        r
    }
}

// ---- parsing ---------------------------------------------------------------------

pub open spec fn enable_marker() -> Seq<char> {
    seq!['[', 'E', 'N', 'A', 'B', 'L', 'E', ']']
}

pub open spec fn disable_marker() -> Seq<char> {
    seq!['[', 'D', 'I', 'S', 'A', 'B', 'L', 'E', ']']
}

pub open spec fn lua_directive() -> Seq<char> {
    seq!['{', '$', 'L', 'U', 'A', '}']
}

pub open spec fn asm_directive() -> Seq<char> {
    seq!['{', '$', 'A', 'S', 'M', '}']
}

/// The section a line opens, if it is a marker: Cheat Engine compares the
/// uppercased, trimmed line against the whole marker.
pub open spec fn marker_of(line: Seq<char>) -> Option<Section> {
    let u = upper(trim(line));
    if u == enable_marker() {
        Some(Section::Enable)
    } else if u == disable_marker() {
        Some(Section::Disable)
    } else {
        None
    }
}

/// The lines of each half so far, the section being read, and which
/// markers have been seen.
pub struct HalvesState {
    pub enable: Seq<Seq<char>>,
    pub disable: Seq<Seq<char>>,
    pub current: Option<Section>,
    pub seen_enable: bool,
    pub seen_disable: bool,
}

/// Reading one more line: a marker switches section (a second marker of
/// the same kind is an error); any other line goes to the current section,
/// or to both halves while no section has begun.
pub open spec fn halves_step(st: HalvesState, line: Seq<char>) -> Result<HalvesState, ScriptError> {
    match marker_of(line) {
        Some(Section::Enable) => if st.seen_enable {
            Err(ScriptError::DuplicateSection(Section::Enable))
        } else {
            Ok(HalvesState { seen_enable: true, current: Some(Section::Enable), ..st })
        },
        Some(Section::Disable) => if st.seen_disable {
            Err(ScriptError::DuplicateSection(Section::Disable))
        } else {
            Ok(HalvesState { seen_disable: true, current: Some(Section::Disable), ..st })
        },
        None => match st.current {
            Some(Section::Enable) => Ok(HalvesState { enable: st.enable.push(line), ..st }),
            Some(Section::Disable) => Ok(HalvesState { disable: st.disable.push(line), ..st }),
            None => Ok(
                HalvesState { enable: st.enable.push(line), disable: st.disable.push(line), ..st },
            ),
        },
    }
}

/// The halves after the first `n` lines.
pub open spec fn halves(ls: Seq<Seq<char>>, n: int) -> Result<HalvesState, ScriptError>
    decreases n,
{
    if n <= 0 {
        Ok(
            HalvesState {
                enable: seq![],
                disable: seq![],
                current: None,
                seen_enable: false,
                seen_disable: false,
            },
        )
    } else {
        match halves(ls, n - 1) {
            Err(e) => Err(e),
            Ok(st) => halves_step(st, ls[n - 1]),
        }
    }
}

proof fn lemma_halves_err_stays(ls: Seq<Seq<char>>, k: int, n: int)
    requires
        0 < k <= n,
        halves(ls, k) is Err,
    ensures
        halves(ls, n) == halves(ls, k),
    decreases n - k,
{
    if n > k {
        lemma_halves_err_stays(ls, k, n - 1);
    }
}

/// `ls` joined with `'\n'` between lines.
pub open spec fn join_lines(ls: Seq<Seq<char>>) -> Seq<char>
    decreases ls.len(),
{
    if ls.len() == 0 {
        seq![]
    } else if ls.len() == 1 {
        ls[0]
    } else {
        join_lines(ls.drop_last()) + seq!['\n'] + ls.last()
    }
}

/// Blocks so far, the lines buffered for the next one, and whether the
/// buffer is inside a `{$LUA}` block.
pub struct BlocksState {
    pub blocks: Seq<BlockModel>,
    pub buffer: Seq<Seq<char>>,
    pub in_lua: bool,
}

/// The buffered lines become a block, if there are any.
pub open spec fn flush(st: BlocksState) -> BlocksState {
    if st.buffer.len() == 0 {
        st
    } else {
        let text = join_lines(st.buffer);
        BlocksState {
            blocks: st.blocks.push(
                if st.in_lua {
                    BlockModel::Lua(text)
                } else {
                    BlockModel::Assembler(text)
                },
            ),
            buffer: seq![],
            in_lua: st.in_lua,
        }
    }
}

/// Reading one more line of a half: `{$LUA}` opens a Lua block and `{$ASM}`
/// closes one (each ending the block before it, and neither kept); any other
/// line is buffered.
pub open spec fn blocks_step(st: BlocksState, line: Seq<char>) -> BlocksState {
    let u = upper(trim(line));
    if u == lua_directive() {
        BlocksState { in_lua: true, ..flush(st) }
    } else if u == asm_directive() {
        BlocksState { in_lua: false, ..flush(st) }
    } else {
        BlocksState { buffer: st.buffer.push(line), ..st }
    }
}

pub open spec fn blocks_upto(ls: Seq<Seq<char>>, n: int) -> BlocksState
    decreases n,
{
    if n <= 0 {
        BlocksState { blocks: seq![], buffer: seq![], in_lua: false }
    } else {
        blocks_step(blocks_upto(ls, n - 1), ls[n - 1])
    }
}

/// One half's lines split into `{$LUA}` and assembler blocks.
pub open spec fn split_blocks_spec(ls: Seq<Seq<char>>) -> Seq<BlockModel> {
    flush(blocks_upto(ls, ls.len() as int)).blocks
}

/// What [`parse_script`] gives for `text`: the lines split into halves,
/// then each half into blocks.
pub open spec fn parsed(text: Seq<char>) -> Result<(Seq<BlockModel>, Seq<BlockModel>), ScriptError> {
    let ls = lines(text);
    match halves(ls, ls.len() as int) {
        Err(e) => Err(e),
        Ok(st) => Ok((split_blocks_spec(st.enable), split_blocks_spec(st.disable))),
    }
}

/// `line` trimmed and uppercased.
fn folded(line: &Vec<char>) -> (r: Vec<char>)
    ensures
        r@ == upper(trim(line@)),
{
    let (a, b) = trim_bounds(line, 0, line.len());
    assert(line@.subrange(0, line@.len() as int) =~= line@);
    upper_range(line, a, b)
}

fn section_marker(line: &Vec<char>) -> (r: Option<Section>)
    ensures
        r == marker_of(line@),
{
    let u = folded(line);
    let enable = vec!['[', 'E', 'N', 'A', 'B', 'L', 'E', ']'];
    let disable = vec!['[', 'D', 'I', 'S', 'A', 'B', 'L', 'E', ']'];
    assert(enable@ =~= enable_marker());
    assert(disable@ =~= disable_marker());
    if same_chars(&u, &enable) {
        Some(Section::Enable)
    } else if same_chars(&u, &disable) {
        Some(Section::Disable)
    } else {
        None
    }
}

/// The lines of `ls` joined with `'\n'`.
fn join_with_newlines(ls: &Vec<Vec<char>>) -> (r: Vec<char>)
    ensures
        r@ == join_lines(views(ls@)),
{
    let ghost v = views(ls@);
    let mut r: Vec<char> = Vec::new();
    let mut k: usize = 0;
    while k < ls.len()
        invariant
            k <= ls.len(),
            v == views(ls@),
            r@ == join_lines(v.take(k as int)),
        decreases ls.len() - k,
    {
        assert(v.take(k + 1).drop_last() =~= v.take(k as int));
        assert(v.take(k + 1).last() == ls@[k as int]@);
        if k > 0 {
            r.push('\n');
        }
        let line = &ls[k];
        let mut m: usize = 0;
        let ghost r0 = r@;
        while m < line.len()
            invariant
                m <= line.len(),
                r@ == r0 + line@.take(m as int),
            decreases line.len() - m,
        {
            r.push(line[m]);
            m = m + 1;
            assert(r@ =~= r0 + line@.take(m as int));
        }
        assert(line@.take(m as int) =~= line@);
        k = k + 1;
        if k == 1 {
            assert(r@ =~= join_lines(v.take(k as int)));
        } else {
            assert(r@ =~= join_lines(v.take(k as int)));
        }
    }
    assert(v.take(k as int) =~= v);
    r
}

fn flush_buffer(blocks: &mut Vec<Block>, buffer: &mut Vec<Vec<char>>, in_lua: bool)
    ensures
        ({
            let f = flush(
                BlocksState {
                    blocks: block_views(old(blocks)@),
                    buffer: views(old(buffer)@),
                    in_lua,
                },
            );
            &&& block_views(final(blocks)@) == f.blocks
            &&& views(final(buffer)@) == f.buffer
        }),
{
    if buffer.len() == 0 {
        return;
    }
    let text = join_with_newlines(buffer);
    let s = string_of(&text);
    let ghost before = blocks@;
    if in_lua {
        blocks.push(Block::Lua(s));
    } else {
        blocks.push(Block::Assembler(s));
    }
    assert(block_views(blocks@) =~= block_views(before).push(blocks@[blocks.len() - 1]@));
    *buffer = Vec::new();
    assert(views(buffer@) =~= Seq::<Seq<char>>::empty());
}

/// Splits one half's lines into `{$LUA}` and assembler blocks. The
/// directive lines are consumed rather than kept, as Cheat Engine blanks
/// them before assembling.
fn split_blocks(lines: &Vec<Vec<char>>) -> (r: Vec<Block>)
    ensures
        block_views(r@) == split_blocks_spec(views(lines@)),
{
    let ghost ls = views(lines@);
    let mut blocks: Vec<Block> = Vec::new();
    let mut buffer: Vec<Vec<char>> = Vec::new();
    let mut in_lua = false;
    assert(block_views(blocks@) =~= Seq::<BlockModel>::empty());
    assert(views(buffer@) =~= Seq::<Seq<char>>::empty());
    let lua = vec!['{', '$', 'L', 'U', 'A', '}'];
    let asm_dir = vec!['{', '$', 'A', 'S', 'M', '}'];
    assert(lua@ =~= lua_directive());
    assert(asm_dir@ =~= asm_directive());
    let mut i: usize = 0;
    while i < lines.len()
        invariant
            i <= lines.len(),
            ls == views(lines@),
            lua@ == lua_directive(),
            asm_dir@ == asm_directive(),
            blocks_upto(ls, i as int) == (BlocksState {
                blocks: block_views(blocks@),
                buffer: views(buffer@),
                in_lua,
            }),
        decreases lines.len() - i,
    {
        assert(ls[i as int] == lines@[i as int]@);
        let u = folded(&lines[i]);
        if same_chars(&u, &lua) {
            flush_buffer(&mut blocks, &mut buffer, in_lua);
            in_lua = true;
        } else if same_chars(&u, &asm_dir) {
            flush_buffer(&mut blocks, &mut buffer, in_lua);
            in_lua = false;
        } else {
            let ghost before = buffer@;
            buffer.push(clone_chars(&lines[i]));
            assert(views(buffer@) =~= views(before).push(ls[i as int]));
        }
        i = i + 1;
    }
    flush_buffer(&mut blocks, &mut buffer, in_lua);
    assert(ls =~= views(lines@));
    blocks
}

/// Parses an `<AssemblerScript>` body, following Cheat Engine's own order:
/// split on `[ENABLE]`/`[DISABLE]` first, then split each half into
/// `{$LUA}` and assembler blocks. A line outside every section belongs to
/// both halves.
pub fn parse_script(text: &str) -> (r: Result<Script, ScriptError>)
    ensures
        match r {
            Ok(script) => parsed(text@) == Ok::<_, ScriptError>(script@),
            Err(e) => parsed(text@) == Err::<(Seq<BlockModel>, Seq<BlockModel>), _>(e),
        },
{
    let chars = chars_of(text);
    let ls = lines_of(&chars);
    let ghost v = views(ls@);
    let mut enable_lines: Vec<Vec<char>> = Vec::new();
    let mut disable_lines: Vec<Vec<char>> = Vec::new();
    let mut current: Option<Section> = None;
    let mut seen_enable = false;
    let mut seen_disable = false;
    assert(views(enable_lines@) =~= Seq::<Seq<char>>::empty());
    assert(views(disable_lines@) =~= Seq::<Seq<char>>::empty());
    let mut i: usize = 0;
    while i < ls.len()
        invariant
            i <= ls.len(),
            v == views(ls@),
            v == lines(text@),
            halves(v, i as int) == Ok::<_, ScriptError>(
                HalvesState {
                    enable: views(enable_lines@),
                    disable: views(disable_lines@),
                    current,
                    seen_enable,
                    seen_disable,
                },
            ),
        decreases ls.len() - i,
    {
        assert(v[i as int] == ls@[i as int]@);
        let ghost e0 = enable_lines@;
        let ghost d0 = disable_lines@;
        match section_marker(&ls[i]) {
            Some(Section::Enable) => {
                if seen_enable {
                    proof {
                        lemma_halves_err_stays(v, i + 1, v.len() as int);
                    }
                    return Err(ScriptError::DuplicateSection(Section::Enable));
                }
                seen_enable = true;
                current = Some(Section::Enable);
            },
            Some(Section::Disable) => {
                if seen_disable {
                    proof {
                        lemma_halves_err_stays(v, i + 1, v.len() as int);
                    }
                    return Err(ScriptError::DuplicateSection(Section::Disable));
                }
                seen_disable = true;
                current = Some(Section::Disable);
            },
            None => match current {
                Some(Section::Enable) => {
                    enable_lines.push(clone_chars(&ls[i]));
                    assert(views(enable_lines@) =~= views(e0).push(v[i as int]));
                },
                Some(Section::Disable) => {
                    disable_lines.push(clone_chars(&ls[i]));
                    assert(views(disable_lines@) =~= views(d0).push(v[i as int]));
                },
                None => {
                    enable_lines.push(clone_chars(&ls[i]));
                    disable_lines.push(clone_chars(&ls[i]));
                    assert(views(enable_lines@) =~= views(e0).push(v[i as int]));
                    assert(views(disable_lines@) =~= views(d0).push(v[i as int]));
                },
            },
        }
        i = i + 1;
    }
    let enable = split_blocks(&enable_lines);
    let disable = split_blocks(&disable_lines);
    Ok(Script { enable, disable })
}

// ---- the Auto Assembler scan ---------------------------------------------------

/// `s[i..]` with Auto Assembler block comments (`{...}`) removed. A `{$...}`
/// directive is code, not a comment; an unterminated comment swallows the
/// rest.
pub open spec fn strip_aa(s: Seq<char>, i: int) -> Seq<char>
    decreases s.len() - i,
{
    if i < 0 || i >= s.len() {
        seq![]
    } else if s[i] == '{' {
        if i + 1 < s.len() && s[i + 1] == '$' {
            seq!['{', '$'] + strip_aa(s, i + 2)
        } else {
            match first_from(s, i, '}') {
                Some(c) => {
                    proof {
                        lemma_first_from_ge(s, i, '}');
                    }
                    strip_aa(s, c + 1)
                },
                None => seq![],
            }
        }
    } else {
        seq![s[i]] + strip_aa(s, i + 1)
    }
}

/// A line that assembles to nothing: blank, or a `//` comment.
pub open spec fn aa_line_blank(line: Seq<char>) -> bool {
    let t = trim(line);
    t.len() == 0 || starts_at(t, 0, seq!['/', '/'])
}

/// Auto Assembler text holds nothing that would be assembled.
pub open spec fn aa_blank(text: Seq<char>) -> bool {
    let ls = lines(strip_aa(text, 0));
    forall|k: int| 0 <= k < ls.len() ==> aa_line_blank(#[trigger] ls[k])
}

/// Whether Auto Assembler text holds anything that would be assembled,
/// ignoring blank lines, `//` comments and `{...}` block comments.
pub fn assembler_is_blank(text: &str) -> (r: bool)
    ensures
        r == aa_blank(text@),
{
    let chars = chars_of(text);
    assembler_chars_blank(&chars)
}

/// [`assembler_is_blank`] over the characters of a block.
pub fn assembler_chars_blank(s: &Vec<char>) -> (r: bool)
    ensures
        r == aa_blank(s@),
{
    let mut out: Vec<char> = Vec::new();
    let mut i: usize = 0;
    while i < s.len()
        invariant
            i <= s.len(),
            strip_aa(s@, 0) == out@ + strip_aa(s@, i as int),
        decreases s.len() - i,
    {
        let ghost old_out = out@;
        let ghost i0 = i as int;
        if s[i] == '{' {
            if i + 1 < s.len() && s[i + 1] == '$' {
                out.push('{');
                out.push('$');
                i = i + 2;
            } else {
                match find_char(s, i, '}') {
                    Some(c) => {
                        proof {
                            lemma_first_from_ge(s@, i as int, '}');
                        }
                        i = c + 1;
                    },
                    None => {
                        i = s.len();
                    },
                }
            }
        } else {
            out.push(s[i]);
            i = i + 1;
        }
        assert(out@ + strip_aa(s@, i as int) =~= old_out + strip_aa(s@, i0));
    }
    assert(out@ =~= strip_aa(s@, 0));
    let ls = lines_of(&out);
    let slashes = vec!['/', '/'];
    assert(slashes@ =~= seq!['/', '/']);
    let mut k: usize = 0;
    while k < ls.len()
        invariant
            k <= ls.len(),
            views(ls@) == lines(strip_aa(s@, 0)),
            slashes@ == seq!['/', '/'],
            forall|m: int| 0 <= m < k ==> aa_line_blank(#[trigger] views(ls@)[m]),
        decreases ls.len() - k,
    {
        let line = &ls[k];
        let (a, b) = trim_bounds(line, 0, line.len());
        assert(line@.subrange(0, line@.len() as int) =~= line@);
        assert(views(ls@)[k as int] == line@);
        let t = trim_slice(line, a, b);
        let blank = a == b || matches_at(&t, 0, &slashes);
        if !blank {
            assert(!aa_line_blank(views(ls@)[k as int])) by {
                assert(t@.subrange(0, 2) =~= t@.subrange(0, 2));
            }
            return false;
        }
        k = k + 1;
    }
    true
}

/// `line[a..b]` as a vector.
fn trim_slice(line: &Vec<char>, a: usize, b: usize) -> (r: Vec<char>)
    requires
        a <= b <= line.len(),
    ensures
        r@ == line@.subrange(a as int, b as int),
{
    let mut r: Vec<char> = Vec::new();
    let mut i = a;
    while i < b
        invariant
            a <= i <= b <= line.len(),
            r@ == line@.subrange(a as int, i as int),
        decreases b - i,
    {
        r.push(line[i]);
        i = i + 1;
        assert(r@ =~= line@.subrange(a as int, i as int));
    }
    r
}

// ---- laws -------------------------------------------------------------------------

/// A script is runnable only when neither half is: a script whose enable
/// half is data-only Lua but whose disable half assembles is an assembler
/// script, and so is refused as a whole.
pub proof fn runnable_only_if_both_halves_are(enable: Seq<BlockModel>, disable: Seq<BlockModel>)
    ensures
        script_kind(enable, disable) == ScriptKind::DataOnlyLua <==> {
            &&& (classify(enable) == ScriptKind::DataOnlyLua || classify(disable)
                == ScriptKind::DataOnlyLua)
            &&& (classify(enable) == ScriptKind::DataOnlyLua || classify(enable)
                == ScriptKind::Empty)
            &&& (classify(disable) == ScriptKind::DataOnlyLua || classify(disable)
                == ScriptKind::Empty)
        },
{
}

proof fn lemma_no_markers_same_halves(ls: Seq<Seq<char>>, n: int)
    requires
        0 <= n <= ls.len(),
        forall|i: int| 0 <= i < ls.len() ==> #[trigger] marker_of(ls[i]) is None,
    ensures
        halves(ls, n) matches Ok(st) && st.enable == st.disable && st.current is None,
    decreases n,
{
    if n > 0 {
        lemma_no_markers_same_halves(ls, n - 1);
        assert(marker_of(ls[n - 1]) is None);
    }
}

/// A script without section markers belongs to both halves: enabling and
/// disabling it run the same blocks.
pub proof fn a_script_without_sections_is_both_halves(text: Seq<char>)
    requires
        forall|i: int| 0 <= i < lines(text).len() ==> #[trigger] marker_of(lines(text)[i]) is None,
    ensures
        parsed(text) matches Ok(h) && h.0 == h.1,
{
    let ls = lines(text);
    lemma_no_markers_same_halves(ls, ls.len() as int);
}

proof fn lemma_markers_seen(ls: Seq<Seq<char>>, n: int, i: int)
    requires
        0 <= i < n <= ls.len(),
        marker_of(ls[i]) is Some,
    ensures
        halves(ls, n) matches Ok(st) ==> (marker_of(ls[i]) == Some(Section::Enable) ==> st.seen_enable)
            && (marker_of(ls[i]) == Some(Section::Disable) ==> st.seen_disable),
    decreases n,
{
    if n - 1 > i {
        lemma_markers_seen(ls, n - 1, i);
    }
}

/// A script with the same section marker twice is refused, as Cheat Engine
/// refuses it, rather than merged.
pub proof fn a_repeated_section_is_refused(text: Seq<char>, i: int, j: int)
    requires
        0 <= i < j < lines(text).len(),
        marker_of(lines(text)[i]) is Some,
        marker_of(lines(text)[i]) == marker_of(lines(text)[j]),
    ensures
        parsed(text) is Err,
{
    let ls = lines(text);
    lemma_markers_seen(ls, j, i);
    if halves(ls, j + 1) is Err {
        lemma_halves_err_stays(ls, j + 1, ls.len() as int);
    } else {
        if halves(ls, j) is Err {
            assert(halves(ls, j + 1) is Err);
        }
        assert(false);
    }
}

/// A Lua block's body, or nothing for an assembler block.
pub open spec fn lua_body(b: BlockModel) -> Option<Seq<char>> {
    match b {
        BlockModel::Lua(src) => Some(src),
        BlockModel::Assembler(_) => None,
    }
}

/// A half's Lua bodies are exactly its Lua blocks' bodies, in source
/// order, with no assembler text among them.
pub proof fn lua_bodies_are_the_lua_blocks_in_order(bs: Seq<BlockModel>)
    ensures
        lua_bodies(bs) == bs.filter_map(|b: BlockModel| lua_body(b)),
    decreases bs.len(),
{
    if bs.len() > 0 {
        lua_bodies_are_the_lua_blocks_in_order(bs.drop_last());
        let rest = lua_bodies(bs.drop_last());
        match bs.last() {
            BlockModel::Lua(src) => {
                assert(rest.push(src) =~= rest + seq![src]);
            },
            BlockModel::Assembler(_) => {},
        }
    }
}

/// The text of a section's marker line.
pub open spec fn marker_text(s: Section) -> Seq<char> {
    match s {
        Section::Enable => "[ENABLE]"@,
        Section::Disable => "[DISABLE]"@,
    }
}

/// A section's marker line opens that section, and the two markers are
/// `[ENABLE]` and `[DISABLE]`.
pub proof fn a_marker_opens_its_section(s: Section)
    ensures
        marker_of(marker_text(s)) == Some(s),
        marker_text(Section::Enable) == enable_marker(),
        marker_text(Section::Disable) == disable_marker(),
{
    reveal_strlit("[ENABLE]");
    reveal_strlit("[DISABLE]");
    assert(marker_text(Section::Enable) =~= enable_marker());
    assert(marker_text(Section::Disable) =~= disable_marker());
    let t = marker_text(s);
    assert(trim_start(t) == t);
    assert(trim_end(t) == t);
    assert(upper(t) =~= t);
}

/// Block `i` of `bs` is an assembler block that isn't blank.
pub open spec fn assembles_at(bs: Seq<BlockModel>, i: int) -> bool {
    bs[i] matches BlockModel::Assembler(t) && !aa_blank(t)
}

/// Block `i` of `bs` is a Lua block that returns a value.
pub open spec fn generates_at(bs: Seq<BlockModel>, i: int) -> bool {
    bs[i] matches BlockModel::Lua(src) && returns_value(src)
}

/// Block `i` of `bs` is a Lua block that isn't blank.
pub open spec fn runs_lua_at(bs: Seq<BlockModel>, i: int) -> bool {
    bs[i] matches BlockModel::Lua(src) && !lua_blank(src)
}

/// The kind of the first `n` blocks by what they contain: any non-blank
/// assembler block makes an assembler script; else any value-returning Lua
/// block a generative one; else any non-blank Lua block a data-only one;
/// else it is empty.
pub open spec fn kind_by_content(bs: Seq<BlockModel>, n: int) -> ScriptKind {
    if exists|i: int| 0 <= i < n && #[trigger] assembles_at(bs, i) {
        ScriptKind::Assembler
    } else if exists|i: int| 0 <= i < n && #[trigger] generates_at(bs, i) {
        ScriptKind::GenerativeLua
    } else if exists|i: int| 0 <= i < n && #[trigger] runs_lua_at(bs, i) {
        ScriptKind::DataOnlyLua
    } else {
        ScriptKind::Empty
    }
}

/// A half's kind depends only on which kinds of block it holds, not on
/// their order.
pub proof fn a_half_is_classified_by_what_it_holds(bs: Seq<BlockModel>, n: int)
    requires
        0 <= n <= bs.len(),
    ensures
        classify_upto(bs, n) == kind_by_content(bs, n),
    decreases n,
{
    if n > 0 {
        a_half_is_classified_by_what_it_holds(bs, n - 1);
        let k = n - 1;
        if assembles_at(bs, k) {
            assert(exists|i: int| 0 <= i < n && #[trigger] assembles_at(bs, i));
        }
        if generates_at(bs, k) {
            assert(exists|i: int| 0 <= i < n && #[trigger] generates_at(bs, i));
        }
        if runs_lua_at(bs, k) {
            assert(exists|i: int| 0 <= i < n && #[trigger] runs_lua_at(bs, i));
        }
        if exists|i: int| 0 <= i < n && #[trigger] assembles_at(bs, i) {
            if !assembles_at(bs, k) {
                let i = choose|i: int| 0 <= i < n && #[trigger] assembles_at(bs, i);
                assert(0 <= i < k);
            }
        }
        if exists|i: int| 0 <= i < n && #[trigger] generates_at(bs, i) {
            if !generates_at(bs, k) {
                let i = choose|i: int| 0 <= i < n && #[trigger] generates_at(bs, i);
                assert(0 <= i < k);
            }
        }
        if exists|i: int| 0 <= i < n && #[trigger] runs_lua_at(bs, i) {
            if !runs_lua_at(bs, k) {
                let i = choose|i: int| 0 <= i < n && #[trigger] runs_lua_at(bs, i);
                assert(0 <= i < k);
            }
        }
    }
}

/// Line `j` of `ls` is a marker that an earlier line already was.
pub open spec fn repeats_at(ls: Seq<Seq<char>>, j: int) -> bool {
    &&& marker_of(ls[j]) is Some
    &&& exists|i: int| 0 <= i < j && #[trigger] marker_of(ls[i]) == marker_of(ls[j])
}

/// The first line below `n` that repeats a marker, if any.
pub open spec fn first_repeat(ls: Seq<Seq<char>>, n: int) -> Option<int>
    decreases n,
{
    if n <= 0 {
        None
    } else {
        match first_repeat(ls, n - 1) {
            Some(j) => Some(j),
            None => if repeats_at(ls, n - 1) {
                Some(n - 1)
            } else {
                None
            },
        }
    }
}

/// The section opened by the last marker line below `n`, if any.
pub open spec fn last_marker(ls: Seq<Seq<char>>, n: int) -> Option<Section>
    decreases n,
{
    if n <= 0 {
        None
    } else if marker_of(ls[n - 1]) is Some {
        marker_of(ls[n - 1])
    } else {
        last_marker(ls, n - 1)
    }
}

/// The lines below `n` that belong to the half `s`: every line that isn't
/// a marker and comes before any marker or after a marker of `s`.
pub open spec fn half_lines(ls: Seq<Seq<char>>, n: int, s: Section) -> Seq<Seq<char>>
    decreases n,
{
    if n <= 0 {
        seq![]
    } else {
        let rest = half_lines(ls, n - 1, s);
        let here = last_marker(ls, n - 1);
        if marker_of(ls[n - 1]) is None && (here is None || here == Some(s)) {
            rest.push(ls[n - 1])
        } else {
            rest
        }
    }
}

proof fn lemma_halves_without_repeats(ls: Seq<Seq<char>>, n: int)
    requires
        0 <= n <= ls.len(),
        first_repeat(ls, n) is None,
    ensures
        halves(ls, n) matches Ok(st) && st.enable == half_lines(ls, n, Section::Enable)
            && st.disable == half_lines(ls, n, Section::Disable) && st.current == last_marker(ls, n)
            && (st.seen_enable <==> exists|i: int|
            0 <= i < n && #[trigger] marker_of(ls[i]) == Some(Section::Enable)) && (st.seen_disable
            <==> exists|i: int| 0 <= i < n && #[trigger] marker_of(ls[i]) == Some(Section::Disable)),
    decreases n,
{
    if n > 0 {
        let k = n - 1;
        lemma_halves_without_repeats(ls, k);
        assert(!repeats_at(ls, k));
        let st = halves(ls, k)->Ok_0;
        match marker_of(ls[k]) {
            Some(Section::Enable) => {
                if st.seen_enable {
                    let i = choose|i: int| 0 <= i < k && #[trigger] marker_of(ls[i]) == Some(Section::Enable);
                    assert(repeats_at(ls, k));
                }
                assert(marker_of(ls[k]) == Some(Section::Enable));
                if exists|i: int| 0 <= i < n && #[trigger] marker_of(ls[i]) == Some(Section::Disable) {
                    let i = choose|i: int| 0 <= i < n && #[trigger] marker_of(ls[i]) == Some(Section::Disable);
                    assert(i < k);
                }
            },
            Some(Section::Disable) => {
                if st.seen_disable {
                    let i = choose|i: int| 0 <= i < k && #[trigger] marker_of(ls[i]) == Some(Section::Disable);
                    assert(repeats_at(ls, k));
                }
                assert(marker_of(ls[k]) == Some(Section::Disable));
                if exists|i: int| 0 <= i < n && #[trigger] marker_of(ls[i]) == Some(Section::Enable) {
                    let i = choose|i: int| 0 <= i < n && #[trigger] marker_of(ls[i]) == Some(Section::Enable);
                    assert(i < k);
                }
            },
            None => {
                if exists|i: int| 0 <= i < n && #[trigger] marker_of(ls[i]) == Some(Section::Enable) {
                    let i = choose|i: int| 0 <= i < n && #[trigger] marker_of(ls[i]) == Some(Section::Enable);
                    assert(i < k);
                }
                if exists|i: int| 0 <= i < n && #[trigger] marker_of(ls[i]) == Some(Section::Disable) {
                    let i = choose|i: int| 0 <= i < n && #[trigger] marker_of(ls[i]) == Some(Section::Disable);
                    assert(i < k);
                }
            },
        }
    }
}

proof fn lemma_first_repeat_is_first(ls: Seq<Seq<char>>, n: int)
    requires
        0 <= n <= ls.len(),
    ensures
        first_repeat(ls, n) matches Some(j) ==> 0 <= j < n && repeats_at(ls, j) && first_repeat(
            ls,
            j,
        ) is None,
        first_repeat(ls, n) is None ==> forall|j: int| 0 <= j < n ==> !#[trigger] repeats_at(ls, j),
    decreases n,
{
    if n > 0 {
        lemma_first_repeat_is_first(ls, n - 1);
    }
}

/// A script parses exactly when no section has two marker lines; when one
/// does, the section reported is that of the first line to repeat a
/// marker. A script that parses puts every non-marker line before the
/// first marker in both halves, and every later one in the half of the
/// marker above it; marker lines belong to neither.
pub proof fn a_script_splits_at_its_markers(text: Seq<char>)
    ensures
        ({
            let ls = lines(text);
            match first_repeat(ls, ls.len() as int) {
                Some(j) => {
                    &&& repeats_at(ls, j)
                    &&& forall|k: int| 0 <= k < j ==> !#[trigger] repeats_at(ls, k)
                    &&& parsed(text) == Err::<(Seq<BlockModel>, Seq<BlockModel>), ScriptError>(
                        ScriptError::DuplicateSection(marker_of(ls[j])->0),
                    )
                },
                None => {
                    &&& forall|k: int| 0 <= k < ls.len() ==> !#[trigger] repeats_at(ls, k)
                    &&& parsed(text) == Ok::<(Seq<BlockModel>, Seq<BlockModel>), ScriptError>(
                        (
                            split_blocks_spec(half_lines(ls, ls.len() as int, Section::Enable)),
                            split_blocks_spec(half_lines(ls, ls.len() as int, Section::Disable)),
                        ),
                    )
                },
            }
        }),
{
    let ls = lines(text);
    let len = ls.len() as int;
    lemma_first_repeat_is_first(ls, len);
    match first_repeat(ls, len) {
        Some(j) => {
            lemma_first_repeat_is_first(ls, j);
            lemma_halves_without_repeats(ls, j);
            let i = choose|i: int| 0 <= i < j && #[trigger] marker_of(ls[i]) == marker_of(ls[j]);
            assert(halves(ls, j + 1) == Err::<HalvesState, ScriptError>(
                ScriptError::DuplicateSection(marker_of(ls[j])->0),
            ));
            lemma_halves_err_stays(ls, j + 1, len);
        },
        None => {
            lemma_halves_without_repeats(ls, len);
        },
    }
}

/// `t` opens with the whole word `w`: `w` and then no identifier
/// character.
pub open spec fn opens_with_word(t: Seq<char>, w: Seq<char>) -> bool {
    &&& t.len() >= w.len()
    &&& t.take(w.len() as int) == w
    &&& (t.len() == w.len() || !is_word(t[w.len() as int]))
}

/// A `return` is bare exactly when what follows it, past whitespace, is
/// nothing, a `;`, or one of the words `end`, `else`, `elseif` and
/// `until`; so a Lua block returns a value exactly when one of its
/// whole-word `return`s is followed by anything else.
pub proof fn a_return_closed_by_a_keyword_returns_nothing(tail: Seq<char>, src: Seq<char>)
    ensures
        bare_tail(tail) <==> ({
            let t = trim_start(tail);
            ||| t.len() == 0
            ||| t[0] == ';'
            ||| opens_with_word(t, seq!['e', 'n', 'd'])
            ||| opens_with_word(t, seq!['e', 'l', 's', 'e'])
            ||| opens_with_word(t, seq!['e', 'l', 's', 'e', 'i', 'f'])
            ||| opens_with_word(t, seq!['u', 'n', 't', 'i', 'l'])
        }),
        returns_value(src) <==> exists|p: int|
            #[trigger] return_at(lua_code(src), p) && !({
                let t = trim_start(lua_code(src).skip(p + 6));
                ||| t.len() == 0
                ||| t[0] == ';'
                ||| opens_with_word(t, seq!['e', 'n', 'd'])
                ||| opens_with_word(t, seq!['e', 'l', 's', 'e'])
                ||| opens_with_word(t, seq!['e', 'l', 's', 'e', 'i', 'f'])
                ||| opens_with_word(t, seq!['u', 'n', 't', 'i', 'l'])
            }),
{
    let t = trim_start(tail);
    assert forall|w: Seq<char>| #![auto] starts_with_keyword(t, w) <==> opens_with_word(t, w) by {
        if t.len() >= w.len() {
            assert(t.subrange(0, w.len() as int) =~= t.take(w.len() as int));
        }
    }
    let code = lua_code(src);
    assert forall|p: int| #![auto] return_at(code, p) implies (bare_tail(code.skip(p + 6)) <==> ({
        let t = trim_start(code.skip(p + 6));
        ||| t.len() == 0
        ||| t[0] == ';'
        ||| opens_with_word(t, seq!['e', 'n', 'd'])
        ||| opens_with_word(t, seq!['e', 'l', 's', 'e'])
        ||| opens_with_word(t, seq!['e', 'l', 's', 'e', 'i', 'f'])
        ||| opens_with_word(t, seq!['u', 'n', 't', 'i', 'l'])
    })) by {
        let t = trim_start(code.skip(p + 6));
        assert forall|w: Seq<char>| #![auto] starts_with_keyword(t, w) <==> opens_with_word(t, w) by {
            if t.len() >= w.len() {
                assert(t.subrange(0, w.len() as int) =~= t.take(w.len() as int));
            }
        }
    }
}

} // verus!
