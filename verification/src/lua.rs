//! Running the data-only `{$LUA}` blocks of a cheat-table script: which
//! scripts may run at all, the order their blocks run in, when a run stops,
//! and what a failed run is reported as.
//!
//! A run is a state machine. The caller builds a fresh sandboxed
//! interpreter for each chunk [`SectionRun::next_chunk`] names, runs it, and
//! hands what it printed and how it ended to [`SectionRun::record`], until
//! there is no chunk left; [`SectionRun::finish`] then gives the result.
//! Each block gets an interpreter of its own, so no block can leave state
//! behind for the next.
use vstd::prelude::*;

use crate::hex::{decimal, decimal_string};
use crate::script::{lua_bodies, reason_text, str_views, Script, ScriptKind, Section};
use crate::strings::{append_chars, chars_of, string_of};

verus! {

/// How many Lua VM instructions a single script run may execute, so an
/// endless loop ends in bounded time.
pub const DEFAULT_INSTRUCTION_BUDGET: u64 = 10_000_000;

/// How often the budget is checked, in VM instructions.
pub const HOOK_INTERVAL: u64 = 4096;

/// The text the budget error carries, so it can be told apart from a
/// script's own `error()` once Lua has wrapped it in position information.
pub const BUDGET_MARKER: &'static str = "ferrite:instruction-budget-exhausted";

/// What Cheat Engine puts before a block's body, binding the arguments a
/// script refers to by name.
pub const CHUNK_PREAMBLE: &'static str = "local syntaxcheck,memrec=...\n";

/// Why running a script's Lua failed.
#[derive(Debug, Clone, PartialEq, Eq)]
pub enum LuaError {
    /// The script isn't the kind this interpreter runs; carries what it was
    /// classified as.
    NotRunnable(ScriptKind),
    /// The instruction budget ran out, most likely in an endless loop.
    BudgetExhausted { budget: u64 },
    /// The script doesn't compile, so nothing ran.
    Syntax(String),
    /// The script raised while running, so an unknown part of it took
    /// effect.
    Runtime(String),
}

pub open spec fn lua_message(e: LuaError) -> Seq<char> {
    match e {
        LuaError::NotRunnable(kind) => "this script won't be run: "@ + reason_text(kind),
        LuaError::BudgetExhausted { budget } => "the script was stopped after "@ + decimal(
            budget as nat,
        ) + " operations \u{2014} it may not terminate"@,
        LuaError::Syntax(m) => m@,
        LuaError::Runtime(m) => m@,
    }
}

impl LuaError {
    /// Whether the script may have partly taken effect before failing:
    /// false only when nothing can have run.
    pub fn may_have_acted(&self) -> (r: bool)
        ensures
            r == (self is BudgetExhausted || self is Runtime),
    {
        match self {
            LuaError::NotRunnable(_) | LuaError::Syntax(_) => false,
            LuaError::BudgetExhausted { .. } | LuaError::Runtime(_) => true,
        }
    }

    /// The message shown for this error.
    pub fn message(&self) -> (r: String)
        ensures
            r@ == lua_message(*self),
    {
        match self {
            LuaError::NotRunnable(kind) => {
                let mut m = string_of(&chars_of("this script won't be run: "));
                append_chars(&mut m, &chars_of(kind.reason()));
                m
            },
            LuaError::BudgetExhausted { budget } => {
                let mut m = string_of(&chars_of("the script was stopped after "));
                append_chars(&mut m, &decimal_of_u64(*budget));
                append_chars(&mut m, &chars_of(" operations \u{2014} it may not terminate"));
                m
            },
            LuaError::Syntax(m) => string_of(&chars_of(m.as_str())),
            LuaError::Runtime(m) => string_of(&chars_of(m.as_str())),
        }
    }
}

/// `n` in decimal.
pub fn decimal_of_u64(n: u64) -> (r: Vec<char>)
    ensures
        r@ == decimal(n as nat),
    decreases n,
{
    if n < 10 {
        let mut r: Vec<char> = Vec::new();
        r.push(((n as u8) + 48) as char);
        assert(r@ =~= decimal(n as nat));
        r
    } else {
        let mut r = decimal_of_u64(n / 10);
        r.push((((n % 10) as u8) + 48) as char);
        r
    }
}

/// `needle` occurs somewhere in `hay`.
pub open spec fn contains_text(hay: Seq<char>, needle: Seq<char>) -> bool {
    exists|k: int| 0 <= k && k + needle.len() <= hay.len() && #[trigger] hay.subrange(k, k + needle.len()) == needle
}

/// Whether `needle` occurs in `hay`.
pub fn contains_chars(hay: &Vec<char>, needle: &Vec<char>) -> (r: bool)
    ensures
        r == contains_text(hay@, needle@),
{
    if needle.len() > hay.len() {
        return false;
    }
    let last = hay.len() - needle.len();
    let mut k: usize = 0;
    loop
        invariant
            needle.len() <= hay.len(),
            last == hay.len() - needle.len(),
            k <= last,
            forall|j: int| 0 <= j < k ==> #[trigger] hay@.subrange(j, j + needle@.len()) != needle@,
        decreases last - k,
    {
        if crate::strings::matches_at(hay, k, needle) {
            return true;
        }
        if k == last {
            return false;
        }
        k = k + 1;
    }
}

/// What a failed run is reported as, from the error's text and whether the
/// interpreter reported it as a syntax error: the budget's own error, a
/// syntax error (nothing ran), or a runtime error.
pub fn classify_lua_error(text: &str, is_syntax: bool, budget: u64) -> (r: LuaError)
    ensures
        contains_text(text@, BUDGET_MARKER@) ==> r == (LuaError::BudgetExhausted { budget }),
        !contains_text(text@, BUDGET_MARKER@) && is_syntax ==> (r matches LuaError::Syntax(m)
            && m@ == text@),
        !contains_text(text@, BUDGET_MARKER@) && !is_syntax ==> (r matches LuaError::Runtime(m)
            && m@ == text@),
{
    let t = chars_of(text);
    let marker = chars_of(BUDGET_MARKER);
    if contains_chars(&t, &marker) {
        return LuaError::BudgetExhausted { budget };
    }
    if is_syntax {
        LuaError::Syntax(string_of(&t))
    } else {
        LuaError::Runtime(string_of(&t))
    }
}

/// Whether the budget is spent once another [`HOOK_INTERVAL`] instructions
/// have run on top of the `spent` already counted.
pub fn budget_exceeded(spent: u64, budget: u64) -> (r: bool)
    requires
        spent + HOOK_INTERVAL <= u64::MAX,
    ensures
        r == (spent + HOOK_INTERVAL > budget),
{
    spent + HOOK_INTERVAL > budget
}

/// What a script run produced.
#[derive(Debug, Clone, PartialEq, Eq)]
pub struct RunOutput {
    /// What the script passed to `print`, one entry per call.
    pub printed: Vec<String>,
    /// The string a block returned, if one did: such a block is generating
    /// assembly, and the run is abandoned there.
    pub returned: Option<String>,
}

impl Default for RunOutput {
    fn default() -> (r: Self)
        ensures
            r.printed@.len() == 0,
            r.returned is None,
    {
        RunOutput { printed: Vec::new(), returned: None }
    }
}

pub open spec fn string_views(v: Seq<String>) -> Seq<Seq<char>> {
    v.map_values(|s: String| s@)
}

/// How one block ended: normally, with what it returned, or with an error.
pub type BlockResult = Result<Option<String>, LuaError>;

/// A run of one half of a script's Lua blocks, in progress.
pub struct SectionRun {
    /// The Lua bodies of the half, in source order.
    pub blocks: Vec<String>,
    /// How many blocks have run.
    pub next: usize,
    /// Everything printed so far.
    pub printed: Vec<String>,
    /// How the run ended early, if it did: a block returned a string, or
    /// failed.
    pub stopped: Option<BlockResult>,
}

impl SectionRun {
    /// The run has nothing left to run.
    pub open spec fn done(&self) -> bool {
        self.stopped is Some || self.next >= self.blocks@.len()
    }

    /// Starts running `section` of `script`, or refuses, before anything
    /// runs, a script that isn't data-only Lua: the boundary that keeps an
    /// assembler script's Lua half from running on its own.
    pub fn start(script: &Script, section: Section) -> (r: Result<SectionRun, LuaError>)
        ensures
            match r {
                Err(e) => e == LuaError::NotRunnable(crate::script::script_kind(script@.0, script@.1))
                    && !(crate::script::script_kind(script@.0, script@.1) == ScriptKind::DataOnlyLua),
                Ok(run) => {
                    &&& crate::script::script_kind(script@.0, script@.1) == ScriptKind::DataOnlyLua
                    &&& string_views(run.blocks@) == lua_bodies(
                        match section {
                            Section::Enable => script@.0,
                            Section::Disable => script@.1,
                        },
                    )
                    &&& run.next == 0
                    &&& run.printed@.len() == 0
                    &&& run.stopped is None
                },
            },
    {
        let kind = script.kind();
        if !kind.is_runnable() {
            return Err(LuaError::NotRunnable(kind));
        }
        let bodies = script.lua_blocks(section);
        let mut blocks: Vec<String> = Vec::new();
        let mut i: usize = 0;
        while i < bodies.len()
            invariant
                i <= bodies@.len(),
                string_views(blocks@) == str_views(bodies@).take(i as int),
            decreases bodies@.len() - i,
        {
            let ghost before = string_views(blocks@);
            assert(str_views(bodies@)[i as int] == bodies@[i as int]@);
            let b = string_of(&chars_of(bodies[i]));
            let ghost bv = b@;
            blocks.push(b);
            assert(string_views(blocks@) =~= before.push(bv));
            i = i + 1;
            assert(str_views(bodies@).take(i as int) =~= str_views(bodies@).take(i - 1).push(bv));
        }
        assert(str_views(bodies@).take(i as int) =~= str_views(bodies@));
        Ok(SectionRun { blocks, next: 0, printed: Vec::new(), stopped: None })
    }

    /// The next chunk to run, the block's body after Cheat Engine's
    /// preamble, or `None` once the run is over.
    pub fn next_chunk(&self) -> (r: Option<String>)
        ensures
            match r {
                Some(c) => !self.done() && c@ == CHUNK_PREAMBLE@ + self.blocks@[self.next as int]@,
                None => self.done(),
            },
    {
        if self.stopped.is_some() || self.next >= self.blocks.len() {
            return None;
        }
        let mut c = string_of(&chars_of(CHUNK_PREAMBLE));
        append_chars(&mut c, &chars_of(self.blocks[self.next].as_str()));
        Some(c)
    }

    /// Records how the chunk [`Self::next_chunk`] named went: what it
    /// printed, and how it ended. A block that returned a string, or
    /// failed, ends the run.
    pub fn record(&mut self, printed: Vec<String>, result: BlockResult)
        requires
            !old(self).done(),
        ensures
            final(self).blocks@ == old(self).blocks@,
            final(self).next == old(self).next + 1,
            string_views(final(self).printed@) == string_views(old(self).printed@) + string_views(
                printed@,
            ),
            final(self).stopped == (match result {
                Ok(None) => None::<BlockResult>,
                other => Some(other),
            }),
    {
        assert(self.blocks@.len() == self.blocks.len());
        let ghost before = string_views(self.printed@);
        let mut printed = printed;
        let ghost added = string_views(printed@);
        self.printed.append(&mut printed);
        assert(string_views(self.printed@) =~= before + added);
        self.next = self.next + 1;
        self.stopped = match result {
            Ok(None) => None,
            other => Some(other),
        };
    }

    /// The result of a finished run: the first error if a block failed;
    /// otherwise everything printed, and the string a block returned if one
    /// did.
    pub fn finish(self) -> (r: Result<RunOutput, LuaError>)
        requires
            self.done(),
        ensures
            match self.stopped {
                Some(Err(e)) => r == Err::<RunOutput, LuaError>(e),
                Some(Ok(returned)) => r matches Ok(out) && string_views(out.printed@)
                    == string_views(self.printed@) && out.returned == returned,
                None => r matches Ok(out) && string_views(out.printed@) == string_views(
                    self.printed@,
                ) && out.returned is None,
            },
    {
        match self.stopped {
            Some(Err(e)) => Err(e),
            Some(Ok(returned)) => Ok(RunOutput { printed: self.printed, returned }),
            None => Ok(RunOutput { printed: self.printed, returned: None }),
        }
    }
}

} // verus!
