//! Ferrite's core logic: parsing and classifying cheat-table scripts,
//! byte-pattern and text encoding, address expressions, module maps and the
//! decisions the scanner makes, all verified.
pub mod aob;
pub mod bytes;
pub mod choices;
pub mod ct_import;
pub mod freeze;
pub mod hex;
pub mod icon;
pub mod lua;
pub mod lua_api;
pub mod modules;
pub mod pointer;
pub mod process;
pub mod regions;
pub mod scan;
pub mod scan_value;
pub mod script;
pub mod session;
pub mod strings;
pub mod table;
pub mod text;

pub use aob::{format_pattern, parse_hex_pattern, AobFilter, AobMatch, AobScanResult};
pub use ct_import::{ImportReport, SkippedEntry};
pub use icon::IconRgba;
pub use modules::{ModuleError, ModuleInfo, ModuleMap, ModuleOffset};
pub use pointer::MAX_POINTER_CHAIN_DEPTH;
pub use process::{Arch, ProcessInfo};
pub use regions::MemoryRegion;
pub use scan::{FirstScanResult, ScanMatch, ScanOptions};
pub use scan_value::{passes_filter, ScanFilter, ScanValue};
pub use script::{parse_script, Block, Script, ScriptError, ScriptKind, Section};
pub use session::{AttachError, MemoryError};
pub use table::{
    parse_address_expr, parse_hex_usize, parse_pointer_offsets, AddressExpr, CheatEntry,
    EntryValue, ResolveError,
};
pub use text::{decode_text, encode_text, TextEncoding};
