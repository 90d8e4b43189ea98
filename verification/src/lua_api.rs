//! The decisions behind the slice of Cheat Engine's Lua API a script may
//! call: how an address argument (a number or a name) is resolved, what a
//! failed resolution is reported as, how the bytes a read returns become a
//! number, and the limits on what a call may ask for.
//!
//! An address argument is a number or a string, as in Cheat Engine: a
//! number passes straight through, and a string is resolved as an address
//! expression, against the module snapshot first and the live process
//! second.
use vstd::prelude::*;

use crate::bytes::{le_u64, le_value};
use crate::hex::{decimal, decimal_string};
use crate::modules::{
    find_module, first_named, lemma_first_named_found, module_offset_text, module_views, resolved,
    ModuleInfoModel, ModuleMap,
};
use crate::strings::{append_chars, chars_of, debug_str, str_debug_text, string_of};
use crate::table::{address_expr_of, parse_address_expr, AddressExpr, AddressModel};
use crate::text::TextEncoding;

verus! {

/// The longest a single `sleep` call may pause a script, in milliseconds:
/// the instruction budget counts instructions, not time.
pub const MAX_SLEEP_MILLIS: u64 = 250;

/// An address argument as a script passed it.
#[derive(Debug, Clone, PartialEq, Eq)]
pub enum AddressArg {
    /// A Lua integer.
    Integer(i64),
    /// A Lua float: its value cut to an integer, and how Lua's `tostring`
    /// writes it.
    Float { truncated: i64, text: String },
    /// A Lua string: a name to resolve.
    Name(String),
    /// Anything else; carries its type's name.
    Other(String),
}

pub enum AddressArgModel {
    Integer(i64),
    Float { truncated: i64, text: Seq<char> },
    Name(Seq<char>),
    Other(Seq<char>),
}

impl View for AddressArg {
    type V = AddressArgModel;

    open spec fn view(&self) -> AddressArgModel {
        match self {
            AddressArg::Integer(i) => AddressArgModel::Integer(*i),
            AddressArg::Float { truncated, text } => AddressArgModel::Float {
                truncated: *truncated,
                text: text@,
            },
            AddressArg::Name(s) => AddressArgModel::Name(s@),
            AddressArg::Other(t) => AddressArgModel::Other(t@),
        }
    }
}

/// `v` in decimal, with a minus sign when negative.
pub open spec fn signed_decimal(v: int) -> Seq<char> {
    if v < 0 {
        seq!['-'] + decimal((-v) as nat)
    } else {
        decimal(v as nat)
    }
}

fn signed_decimal_string(v: i64) -> (r: Vec<char>)
    ensures
        r@ == signed_decimal(v as int),
{
    if v < 0 {
        let magnitude: u64 = if v == i64::MIN {
            0x8000_0000_0000_0000
        } else {
            (-v) as u64
        };
        let mut r: Vec<char> = Vec::new();
        r.push('-');
        let digits = crate::lua::decimal_of_u64(magnitude);
        let ghost before = r@;
        let mut i: usize = 0;
        while i < digits.len()
            invariant
                i <= digits@.len(),
                r@ == seq!['-'] + digits@.take(i as int),
            decreases digits@.len() - i,
        {
            r.push(digits[i]);
            i = i + 1;
            assert(r@ =~= seq!['-'] + digits@.take(i as int));
        }
        assert(digits@.take(i as int) =~= digits@);
        r
    } else {
        crate::lua::decimal_of_u64(v as u64)
    }
}

/// How an address argument is described in an error message.
pub open spec fn described(arg: AddressArgModel) -> Seq<char> {
    match arg {
        AddressArgModel::Name(s) => debug_str(s),
        AddressArgModel::Integer(i) => signed_decimal(i as int),
        AddressArgModel::Float { text, .. } => text,
        AddressArgModel::Other(t) => t,
    }
}

/// Describes an argument for an error message, without dumping a whole
/// table into it.
pub fn describe(arg: &AddressArg) -> (r: String)
    ensures
        r@ == described(arg@),
{
    match arg {
        AddressArg::Name(s) => str_debug_text(s.as_str()),
        AddressArg::Integer(i) => string_of(&signed_decimal_string(*i)),
        AddressArg::Float { text, .. } => string_of(&chars_of(text.as_str())),
        AddressArg::Other(t) => string_of(&chars_of(t.as_str())),
    }
}

/// Where resolving an argument against the snapshot leaves it.
#[derive(Debug, Clone, PartialEq, Eq)]
pub enum Resolution {
    /// An address.
    Resolved(i64),
    /// Nothing this argument could name.
    Unresolved,
    /// A module the snapshot doesn't hold: the live process is asked for
    /// its base, to which the offset is added.
    AskProcess { module: String, offset: usize },
}

pub enum ResolutionModel {
    Resolved(i64),
    Unresolved,
    AskProcess { module: Seq<char>, offset: usize },
}

impl View for Resolution {
    type V = ResolutionModel;

    open spec fn view(&self) -> ResolutionModel {
        match self {
            Resolution::Resolved(a) => ResolutionModel::Resolved(*a),
            Resolution::Unresolved => ResolutionModel::Unresolved,
            Resolution::AskProcess { module, offset } => ResolutionModel::AskProcess {
                module: module@,
                offset: *offset,
            },
        }
    }
}

/// What resolving `arg` against the snapshot `ms` gives: a number passes
/// through unchanged; a string is read as an address expression, an
/// absolute address taken as it is and a module-relative one resolved
/// against the snapshot's module of that name (ignoring ASCII case), or
/// left for the live process when the snapshot has none.
pub open spec fn resolution_of(ms: Seq<ModuleInfoModel>, arg: AddressArgModel) -> ResolutionModel {
    match arg {
        AddressArgModel::Integer(i) => ResolutionModel::Resolved(i),
        AddressArgModel::Float { truncated, .. } => ResolutionModel::Resolved(truncated),
        AddressArgModel::Name(s) => match address_expr_of(s) {
            Err(_) => ResolutionModel::Unresolved,
            Ok(AddressModel::Absolute(a)) => ResolutionModel::Resolved(a as i64),
            Ok(AddressModel::ModuleRelative { module, offset }) => match first_named(
                ms,
                module,
                0,
            ) {
                Some(k) => ResolutionModel::Resolved((ms[k].base + offset) as i64),
                None => ResolutionModel::AskProcess { module, offset },
            },
        },
        AddressArgModel::Other(_) => ResolutionModel::Unresolved,
    }
}

/// A module-relative name whose module's base plus offset would not fit an
/// address, which the address arithmetic does not survive.
pub open spec fn resolution_overflows(ms: Seq<ModuleInfoModel>, arg: AddressArgModel) -> bool {
    match arg {
        AddressArgModel::Name(s) => match address_expr_of(s) {
            Ok(AddressModel::ModuleRelative { module, offset }) => match first_named(ms, module, 0) {
                Some(k) => ms[k].base + offset > usize::MAX,
                None => false,
            },
            _ => false,
        },
        _ => false,
    }
}

/// Resolves an address argument against the module snapshot.
pub fn resolve_in_snapshot(map: &ModuleMap, arg: &AddressArg) -> (r: Resolution)
    requires
        !resolution_overflows(map@, arg@),
    ensures
        r@ == resolution_of(map@, arg@),
{
    match arg {
        AddressArg::Integer(i) => Resolution::Resolved(*i),
        AddressArg::Float { truncated, .. } => Resolution::Resolved(*truncated),
        AddressArg::Other(_) => Resolution::Unresolved,
        AddressArg::Name(s) => match parse_address_expr(s.as_str()) {
            Err(_) => Resolution::Unresolved,
            Ok(AddressExpr::Absolute(a)) => Resolution::Resolved(a as i64),
            Ok(AddressExpr::ModuleRelative { module, offset }) => {
                let modules = map.modules();
                match find_module(modules, module.as_str()) {
                    Some(k) => Resolution::Resolved((modules[k].base + offset) as i64),
                    None => Resolution::AskProcess { module, offset },
                }
            },
        },
    }
}

/// Whether resolving `arg` against the snapshot would overflow the address
/// arithmetic.
pub fn resolution_would_overflow(map: &ModuleMap, arg: &AddressArg) -> (r: bool)
    ensures
        r == resolution_overflows(map@, arg@),
{
    match arg {
        AddressArg::Name(s) => match parse_address_expr(s.as_str()) {
            Ok(AddressExpr::ModuleRelative { module, offset }) => {
                let modules = map.modules();
                match find_module(modules, module.as_str()) {
                    Some(k) => modules[k].base > usize::MAX - offset,
                    None => false,
                }
            },
            _ => false,
        },
        _ => false,
    }
}

/// The address for a module the live process was asked about: its base
/// plus the offset, or nothing when the process has no such module (or
/// nothing is attached).
pub fn resolve_with_base(base: Option<usize>, offset: usize) -> (r: Option<i64>)
    requires
        base matches Some(b) ==> b + offset <= usize::MAX,
    ensures
        r == (match base {
            Some(b) => Some(((b + offset) as usize) as i64),
            None => None::<i64>,
        }),
{
    match base {
        Some(b) => Some((b + offset) as i64),
        None => None,
    }
}

pub open spec fn unresolved_message(arg: AddressArgModel) -> Seq<char> {
    "could not resolve "@ + described(arg)
}

/// `getAddress`: the resolved address, or the error it raises.
pub fn required_address(resolved: Option<i64>, arg: &AddressArg) -> (r: Result<i64, String>)
    ensures
        match resolved {
            Some(v) => r == Ok::<i64, String>(v),
            None => r matches Err(m) && m@ == unresolved_message(arg@),
        },
{
    match resolved {
        Some(v) => Ok(v),
        None => {
            let mut m = string_of(&chars_of("could not resolve "));
            append_chars(&mut m, &chars_of(describe(arg).as_str()));
            Err(m)
        },
    }
}

pub open spec fn invalid_address_message(v: int) -> Seq<char> {
    signed_decimal(v) + " isn't a valid address"@
}

/// What every read and write needs: a resolved address that fits, or the
/// error raised instead (acting on a bogus address would be worse than
/// failing).
pub fn to_address(resolved: Option<i64>, arg: &AddressArg) -> (r: Result<usize, String>)
    ensures
        match resolved {
            None => r matches Err(m) && m@ == unresolved_message(arg@),
            Some(v) => if 0 <= v <= usize::MAX {
                r == Ok::<usize, String>(v as usize)
            } else {
                r matches Err(m) && m@ == invalid_address_message(v as int)
            },
        },
{
    match required_address(resolved, arg) {
        Err(m) => Err(m),
        Ok(v) => {
            if v < 0 || (v as u64) > (usize::MAX as u64) {
                let mut m = string_of(&signed_decimal_string(v));
                append_chars(&mut m, &chars_of(" isn't a valid address"));
                Err(m)
            } else {
                Ok(v as usize)
            }
        },
    }
}

// ---- reads ------------------------------------------------------------------------

/// `readSmallInteger`: two bytes, signed unless asked otherwise.
pub fn small_integer_from(bytes: &[u8], signed: bool) -> (r: i64)
    requires
        bytes@.len() == 2,
    ensures
        r == (if signed {
            ((le_value(bytes@) as u16) as i16) as i64
        } else {
            (le_value(bytes@) as u16) as i64
        }),
{
    let v = le_u64(bytes) as u16;
    if signed {
        (v as i16) as i64
    } else {
        v as i64
    }
}

/// `readInteger`: four bytes, signed unless asked otherwise.
pub fn integer_from(bytes: &[u8], signed: bool) -> (r: i64)
    requires
        bytes@.len() == 4,
    ensures
        r == (if signed {
            ((le_value(bytes@) as u32) as i32) as i64
        } else {
            (le_value(bytes@) as u32) as i64
        }),
{
    let v = le_u64(bytes) as u32;
    if signed {
        (v as i32) as i64
    } else {
        v as i64
    }
}

/// `readQword` and `readPointer`: eight bytes, as a signed 64-bit number.
pub fn qword_from(bytes: &[u8]) -> (r: i64)
    requires
        bytes@.len() == 8,
    ensures
        r == (le_value(bytes@) as u64) as i64,
{
    le_u64(bytes) as i64
}

/// `readString(address, maxlength, widechar)`: how many bytes to read and
/// in which encoding, or `None` for a zero or absent length. The length
/// counts characters, as a `.CT` `<Length>` does.
pub fn string_read(max_length: Option<usize>, wide: Option<bool>) -> (r: Option<(usize, TextEncoding)>)
    requires
        wide == Some(true) ==> (max_length matches Some(n) ==> n * 2 <= usize::MAX),
    ensures
        ({
            let chars = match max_length {
                Some(n) => n,
                None => 0,
            };
            let encoding = if wide == Some(true) {
                TextEncoding::Utf16Le
            } else {
                TextEncoding::Latin1
            };
            r == if chars == 0 {
                None::<(usize, TextEncoding)>
            } else {
                Some(
                    (
                        (chars * (if encoding == TextEncoding::Utf16Le {
                            2usize
                        } else {
                            1usize
                        })) as usize,
                        encoding,
                    ),
                )
            }
        }),
{
    let encoding = match wide {
        Some(true) => TextEncoding::Utf16Le,
        _ => TextEncoding::Latin1,
    };
    let chars = match max_length {
        Some(n) => n,
        None => 0,
    };
    if chars == 0 {
        return None;
    }
    Some((chars * encoding.bytes_per_char(), encoding))
}

/// A `writeBytes` argument: a byte value, or nothing if it isn't an
/// integer from 0 to 255.
pub fn byte_from(value: Option<i64>) -> (r: Option<u8>)
    ensures
        r == (match value {
            Some(i) => if 0 <= i <= 255 {
                Some(i as u8)
            } else {
                None::<u8>
            },
            None => None::<u8>,
        }),
{
    match value {
        Some(i) => if 0 <= i && i <= 255 {
            Some(i as u8)
        } else {
            None
        },
        None => None,
    }
}

// ---- modules -------------------------------------------------------------------

/// `getModuleSize`: the size of the snapshot's module named `name`
/// (ignoring ASCII case).
pub fn module_size(map: &ModuleMap, name: &str) -> (r: Option<i64>)
    ensures
        r == (match first_named(map@, name@, 0) {
            Some(k) => Some(map@[k].size as i64),
            None => None::<i64>,
        }),
{
    let modules = map.modules();
    match find_module(modules, name) {
        Some(k) => Some(modules[k].size as i64),
        None => None,
    }
}

/// `getNameFromAddress`: the `module+OFFSET` an address is at, if it falls
/// in a module of the snapshot.
pub fn name_from_address(map: &ModuleMap, address: usize) -> (r: Option<String>)
    ensures
        match resolved(map@, address) {
            Some(m) => r matches Some(s) && s@ == module_offset_text(m),
            None => r is None,
        },
{
    match map.resolve(address) {
        Some(m) => Some(m.to_string()),
        None => None,
    }
}

/// `sleep`: how long a call may actually pause.
pub fn sleep_millis(requested: u64) -> (r: u64)
    ensures
        r == (if requested < MAX_SLEEP_MILLIS {
            requested
        } else {
            MAX_SLEEP_MILLIS
        }),
{
    if requested < MAX_SLEEP_MILLIS {
        requested
    } else {
        MAX_SLEEP_MILLIS
    }
}

} // verus!
