//! What attaching to a process and reading or writing its memory can go
//! wrong with, and the decisions made on the operating system's answers.
use vstd::prelude::*;

use crate::hex::{decimal, decimal_string};
use crate::strings::{append_chars, chars_of, string_of};

verus! {

/// Why a read or write against attached process memory failed.
#[derive(Debug, Clone, Copy, PartialEq, Eq, Structural)]
pub enum MemoryError {
    /// The OS refused the read or write outright; carries the raw error
    /// code.
    Os(u32),
    /// The OS reported success but transferred fewer bytes than requested.
    Partial { requested: usize, transferred: usize },
}

/// Why attaching to a process failed.
#[derive(Debug, Clone, Copy, PartialEq, Eq, Structural)]
pub enum AttachError {
    /// No process with that PID exists.
    ProcessNotFound,
    /// The process exists, but may not be opened with the rights needed.
    AccessDenied,
    /// Some other OS error; carries the raw error code.
    Other(u32),
}

/// The exit code the OS reports for a process that is still running.
pub const STILL_ACTIVE: u32 = 0x103;

/// The Win32 error code for a refused access.
pub const ERROR_ACCESS_DENIED: u32 = 5;

/// The Win32 error code for a bad parameter, which is how opening a
/// nonexistent PID is reported.
pub const ERROR_INVALID_PARAMETER: u32 = 87;

/// The HRESULT a Win32 error code maps to: codes that read as zero or
/// negative are kept as they are, others go into the Win32 facility with
/// the failure bit set.
pub open spec fn hresult_of_win32(error: u32) -> u32 {
    if error == 0 || error >= 0x8000_0000 {
        error
    } else {
        ((error % 0x1_0000) + 0x7_0000 + 0x8000_0000) as u32
    }
}

/// [`hresult_of_win32`], as a 32-bit pattern.
pub fn hresult_from_win32(error: u32) -> (r: u32)
    ensures
        r == hresult_of_win32(error),
{
    if error == 0 || error >= 0x8000_0000 {
        error
    } else {
        (error % 0x1_0000) + 0x7_0000 + 0x8000_0000
    }
}

/// What a failed attach means, from the HRESULT (as its 32-bit pattern)
/// the OS gave.
pub open spec fn attach_error_of(code: u32) -> AttachError {
    if code == hresult_of_win32(ERROR_ACCESS_DENIED) {
        AttachError::AccessDenied
    } else if code == hresult_of_win32(ERROR_INVALID_PARAMETER) {
        AttachError::ProcessNotFound
    } else {
        AttachError::Other(code)
    }
}

impl AttachError {
    /// Classifies the HRESULT (as its 32-bit pattern) a failed attach gave.
    pub fn from_code(code: u32) -> (r: AttachError)
        ensures
            r == attach_error_of(code),
    {
        if code == hresult_from_win32(ERROR_ACCESS_DENIED) {
            AttachError::AccessDenied
        } else if code == hresult_from_win32(ERROR_INVALID_PARAMETER) {
            AttachError::ProcessNotFound
        } else {
            AttachError::Other(code)
        }
    }

    /// The message shown for this error.
    pub fn message(&self) -> (r: String)
        ensures
            r@ == attach_message(*self),
    {
        match self {
            AttachError::ProcessNotFound => string_of(&chars_of("no process with that PID exists")),
            AttachError::AccessDenied => string_of(
                &chars_of("access denied — try running Ferrite as Administrator"),
            ),
            AttachError::Other(code) => os_error_text(*code),
        }
    }
}

pub open spec fn os_error_message(code: u32) -> Seq<char> {
    "OS error "@ + decimal(code as nat)
}

pub open spec fn attach_message(e: AttachError) -> Seq<char> {
    match e {
        AttachError::ProcessNotFound => "no process with that PID exists"@,
        AttachError::AccessDenied => "access denied — try running Ferrite as Administrator"@,
        AttachError::Other(code) => os_error_message(code),
    }
}

pub open spec fn memory_message(e: MemoryError) -> Seq<char> {
    match e {
        MemoryError::Os(code) => os_error_message(code),
        MemoryError::Partial { requested, transferred } => "only "@ + decimal(transferred as nat)
            + " of "@ + decimal(requested as nat) + " requested bytes were transferred"@,
    }
}

fn os_error_text(code: u32) -> (r: String)
    ensures
        r@ == os_error_message(code),
{
    let mut s = string_of(&chars_of("OS error "));
    append_chars(&mut s, &decimal_string(code as usize));
    s
}

impl MemoryError {
    /// The message shown for this error.
    pub fn message(&self) -> (r: String)
        ensures
            r@ == memory_message(*self),
    {
        match self {
            MemoryError::Os(code) => os_error_text(*code),
            MemoryError::Partial { requested, transferred } => {
                let mut s = string_of(&chars_of("only "));
                append_chars(&mut s, &decimal_string(*transferred));
                append_chars(&mut s, &chars_of(" of "));
                append_chars(&mut s, &decimal_string(*requested));
                append_chars(&mut s, &chars_of(" requested bytes were transferred"));
                s
            },
        }
    }

    /// The error for an OS failure with the HRESULT (as its 32-bit
    /// pattern) `code`.
    pub fn from_code(code: u32) -> (r: MemoryError)
        ensures
            r == MemoryError::Os(code),
    {
        MemoryError::Os(code)
    }
}

/// A read or write that the OS reported as done: it succeeded only if every
/// requested byte was transferred.
pub fn transfer_result(requested: usize, transferred: usize) -> (r: Result<(), MemoryError>)
    ensures
        r == (if transferred == requested {
            Ok::<(), MemoryError>(())
        } else {
            Err(MemoryError::Partial { requested, transferred })
        }),
{
    if transferred != requested {
        Err(MemoryError::Partial { requested, transferred })
    } else {
        Ok(())
    }
}

/// Whether a process has exited, from the exit code the OS reported for it
/// (`None` when it could not be asked): a process still running reports
/// [`STILL_ACTIVE`], and an OS error is no evidence of an exit.
pub fn exited_from(exit_code: Option<u32>) -> (r: bool)
    ensures
        r == (match exit_code {
            Some(c) => c != STILL_ACTIVE,
            None => false,
        }),
{
    match exit_code {
        Some(c) => c != STILL_ACTIVE,
        None => false,
    }
}

} // verus!
