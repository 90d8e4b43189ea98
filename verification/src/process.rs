//! Processes as the process picker shows them, and which of them can be
//! attached to.
use vstd::prelude::*;

use std::path::PathBuf;

use crate::hex::{decimal, decimal_string};
use crate::lua::{contains_chars, contains_text};
use crate::strings::{append_chars, chars_of, string_of, trim, trim_bounds};

verus! {

broadcast use vstd::seq_lib::group_to_multiset_ensures;

#[verifier::external_type_specification]
#[verifier::external_body]
pub struct ExPathBuf(PathBuf);

/// A target's pointer width, which decides whether it can be attached to.
#[derive(Debug, Clone, Copy, PartialEq, Eq, Structural)]
pub enum Arch {
    /// 64-bit: attachable.
    X64,
    /// 32-bit, running under WOW64: not attachable, and shown as such in
    /// the picker rather than left to fail on attach.
    X86,
    /// Couldn't be determined, which is normal for protected and system
    /// processes.
    Unknown,
}

impl Arch {
    /// Whether a target of this architecture can be attached to. `Unknown`
    /// can: it usually means a privileged process, and refusing to try
    /// would hide one the user may have rights to.
    pub fn is_attachable(self) -> (r: bool)
        ensures
            r == !(self == Arch::X86),
    {
        match self {
            Arch::X86 => false,
            _ => true,
        }
    }

    /// The short label the picker shows.
    pub fn label(self) -> (r: &'static str)
        ensures
            r@ == (match self {
                Arch::X64 => "x64"@,
                Arch::X86 => "x86"@,
                Arch::Unknown => "\u{2014}"@,
            }),
    {
        match self {
            Arch::X64 => "x64",
            Arch::X86 => "x86",
            Arch::Unknown => "\u{2014}",
        }
    }

    /// A process's architecture from the machine it is emulated as
    /// (`None` when that couldn't be asked): not emulated at all (machine
    /// `0`) means it runs natively, 64-bit; anything else means WOW64.
    pub fn from_machine(machine: Option<u16>) -> (r: Arch)
        ensures
            r == (match machine {
                None => Arch::Unknown,
                Some(m) => if m == 0 {
                    Arch::X64
                } else {
                    Arch::X86
                },
            }),
    {
        match machine {
            None => Arch::Unknown,
            Some(m) => if m == 0 {
                Arch::X64
            } else {
                Arch::X86
            },
        }
    }
}

/// A running process, as shown in the process picker.
#[derive(Debug, Clone, PartialEq, Eq)]
pub struct ProcessInfo {
    pub pid: u32,
    pub name: String,
    pub arch: Arch,
    /// The process's executable, if known: `None` for pseudo-processes with
    /// no backing file, or when access is denied.
    pub exe: Option<PathBuf>,
}

pub open spec fn sorted_by_pid(ps: Seq<ProcessInfo>) -> bool {
    forall|i: int, j: int| 0 <= i <= j < ps.len() ==> ps[i].pid <= ps[j].pid
}

/// The processes ordered by PID, ascending.
pub fn sorted_by_pid_order(processes: Vec<ProcessInfo>) -> (r: Vec<ProcessInfo>)
    ensures
        sorted_by_pid(r@),
        r@.to_multiset() == processes@.to_multiset(),
{
    let ghost all = processes@;
    let mut rest = processes;
    let mut out: Vec<ProcessInfo> = Vec::new();
    while rest.len() > 0
        invariant
            sorted_by_pid(out@),
            forall|i: int, j: int|
                0 <= i < out@.len() && 0 <= j < rest@.len() ==> out@[i].pid <= rest@[j].pid,
            out@.to_multiset().add(rest@.to_multiset()) == all.to_multiset(),
        decreases rest.len(),
    {
        let mut best: usize = 0;
        let mut k: usize = 1;
        while k < rest.len()
            invariant
                0 < rest.len(),
                best < rest.len(),
                1 <= k <= rest.len(),
                forall|j: int| 0 <= j < k ==> rest@[best as int].pid <= #[trigger] rest@[j].pid,
            decreases rest.len() - k,
        {
            if rest[k].pid < rest[best].pid {
                best = k;
            }
            k = k + 1;
        }
        let ghost rv = rest@;
        let ghost ov = out@;
        let picked = rest.remove(best);
        out.push(picked);
        proof {
            assert(rv.remove(best as int).to_multiset() == rv.to_multiset().remove(rv[best as int]));
            assert(ov.push(rv[best as int]).to_multiset() == ov.to_multiset().insert(
                rv[best as int],
            ));
            assert(rv.to_multiset().count(rv[best as int]) > 0) by {
                assert(rv.contains(rv[best as int]));
            }
            assert(out@.to_multiset().add(rest@.to_multiset()) =~= ov.to_multiset().add(
                rv.to_multiset(),
            ));
            assert forall|i: int, j: int| 0 <= i <= j < out@.len() implies out@[i].pid
                <= out@[j].pid by {
                if j == out@.len() - 1 && i < j {
                    assert(out@[i] == ov[i]);
                }
            }
        }
    }
    proof {
        assert(rest@ =~= Seq::<ProcessInfo>::empty());
        assert(out@.to_multiset().add(Seq::<ProcessInfo>::empty().to_multiset())
            =~= out@.to_multiset());
    }
    out
}

// ---- the picker's filter ----------------------------------------------------------

/// What `str::to_lowercase` gives for `s`: Unicode lowercasing, which can
/// change a string's length.
pub uninterp spec fn lowercase(s: Seq<char>) -> Seq<char>;

/// `s` lowercased, as `str::to_lowercase` does it.
#[verifier::external_body]
fn lowercase_text(s: &str) -> (r: String)
    ensures
        r@ == lowercase(s@),
{
    s.to_lowercase()
}

pub open spec fn opt_text(o: Option<&str>) -> Option<Seq<char>> {
    match o {
        Some(t) => Some(t@),
        None => None,
    }
}

/// What the picker searches for, from the filter as typed: trimmed and
/// lowercased.
pub open spec fn needle_of(filter: Seq<char>) -> Seq<char> {
    lowercase(trim(filter))
}

/// Whether the picker lists a process: never a 32-bit one while those are
/// hidden; otherwise every process for an empty needle, and else one whose
/// lowercased name, decimal PID or lowercased path contains the needle.
pub open spec fn shown(
    name: Seq<char>,
    pid: u32,
    exe: Option<Seq<char>>,
    arch: Arch,
    needle: Seq<char>,
    hide_32_bit: bool,
) -> bool {
    if hide_32_bit && arch == Arch::X86 {
        false
    } else {
        ||| needle.len() == 0
        ||| contains_text(lowercase(name), needle)
        ||| contains_text(decimal(pid as nat), needle)
        ||| (exe matches Some(p) && contains_text(lowercase(p), needle))
    }
}

/// The needle for the filter text as typed: trimmed and lowercased.
pub fn process_filter_needle(filter: &str) -> (r: String)
    ensures
        r@ == needle_of(filter@),
{
    let c = chars_of(filter);
    let (a, b) = trim_bounds(&c, 0, c.len());
    assert(c@.subrange(0, c@.len() as int) =~= filter@);
    let t = crate::strings::string_of_range(&c, a, b);
    lowercase_text(t.as_str())
}

/// Whether the picker lists the process named `name` with PID `pid`, path
/// `exe_text` (if known) and architecture `arch`, for the `needle` (the
/// filter trimmed and lowercased, see [`process_filter_needle`]).
pub fn process_shown(
    name: &str,
    pid: u32,
    exe_text: Option<&str>,
    arch: Arch,
    needle: &str,
    hide_32_bit: bool,
) -> (r: bool)
    ensures
        r == shown(name@, pid, opt_text(exe_text), arch, needle@, hide_32_bit),
{
    if hide_32_bit && !arch.is_attachable() {
        return false;
    }
    let n = chars_of(needle);
    if n.len() == 0 {
        return true;
    }
    if contains_chars(&chars_of(lowercase_text(name).as_str()), &n) {
        return true;
    }
    if contains_chars(&decimal_string(pid as usize), &n) {
        return true;
    }
    match exe_text {
        Some(p) => contains_chars(&chars_of(lowercase_text(p).as_str()), &n),
        None => false,
    }
}

/// How many of `processes` are 32-bit.
pub open spec fn count_32_bit(ps: Seq<ProcessInfo>) -> nat
    decreases ps.len(),
{
    if ps.len() == 0 {
        0
    } else {
        count_32_bit(ps.drop_last()) + if ps.last().arch == Arch::X86 {
            1nat
        } else {
            0nat
        }
    }
}

/// How many of `processes` are 32-bit, and so hidden while those are.
pub fn hidden_as_32_bit(processes: &Vec<ProcessInfo>) -> (r: usize)
    ensures
        r == count_32_bit(processes@),
{
    let mut n: usize = 0;
    let mut i: usize = 0;
    while i < processes.len()
        invariant
            i <= processes@.len(),
            n == count_32_bit(processes@.take(i as int)),
            n <= i,
        decreases processes@.len() - i,
    {
        assert(processes@.take(i + 1).drop_last() =~= processes@.take(i as int));
        if processes[i].arch == Arch::X86 {
            n = n + 1;
        }
        i = i + 1;
    }
    assert(processes@.take(i as int) =~= processes@);
    n
}

/// The line above the picker's list: how many of how many processes are
/// listed, what they match, and how many are hidden as 32-bit.
pub open spec fn picker_summary_text(
    listed: nat,
    total: nat,
    filter: Seq<char>,
    hide_32_bit: bool,
    hidden_32: nat,
) -> Seq<char> {
    decimal(listed) + " of "@ + decimal(total) + " processes"@ + (if needle_of(filter).len() > 0 {
        " matching \""@ + trim(filter) + "\""@
    } else {
        seq![]
    }) + (if hide_32_bit && hidden_32 > 0 {
        " \u{b7} "@ + decimal(hidden_32) + " hidden as 32-bit"@
    } else {
        seq![]
    })
}

/// The picker's summary line, for `listed` of `total` processes shown under
/// the filter as typed, with `hidden_32` processes 32-bit.
pub fn picker_summary(listed: usize, total: usize, filter: &str, hide_32_bit: bool, hidden_32: usize) -> (r:
    String)
    ensures
        r@ == picker_summary_text(listed as nat, total as nat, filter@, hide_32_bit, hidden_32 as nat),
{
    let mut out = string_of(&decimal_string(listed));
    append_chars(&mut out, &chars_of(" of "));
    append_chars(&mut out, &decimal_string(total));
    append_chars(&mut out, &chars_of(" processes"));
    let needle = process_filter_needle(filter);
    let ghost head = out@;
    if chars_of(needle.as_str()).len() > 0 {
        let c = chars_of(filter);
        let (a, b) = trim_bounds(&c, 0, c.len());
        assert(c@.subrange(0, c@.len() as int) =~= filter@);
        append_chars(&mut out, &chars_of(" matching \""));
        let t = crate::strings::string_of_range(&c, a, b);
        append_chars(&mut out, &chars_of(t.as_str()));
        append_chars(&mut out, &chars_of("\""));
    } else {
        assert(out@ =~= head + Seq::<char>::empty());
    }
    let ghost mid = out@;
    if hide_32_bit && hidden_32 > 0 {
        append_chars(&mut out, &chars_of(" \u{b7} "));
        append_chars(&mut out, &decimal_string(hidden_32));
        append_chars(&mut out, &chars_of(" hidden as 32-bit"));
    } else {
        assert(out@ =~= mid + Seq::<char>::empty());
    }
    out
}

} // verus!
