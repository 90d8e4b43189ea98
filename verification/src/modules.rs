//! A process's loaded modules: resolving a module's base address by name,
//! which `"module.exe"+offset` addressing needs, and turning an address back
//! into `module+offset`.
use vstd::prelude::*;

use crate::hex::{hex_upper, hex_upper_string};
use crate::session::MemoryError;
use crate::strings::{
    append_chars, chars_of, lower, lower_char, lower_char_exec, string_of, string_of_range,
};

verus! {

broadcast use vstd::seq_lib::group_to_multiset_ensures;

/// One loaded module in the target process.
#[derive(Debug, Clone, PartialEq, Eq)]
pub struct ModuleInfo {
    /// The module's file name only (e.g. `"GTA5.exe"`), not its full path.
    pub name: String,
    pub base: usize,
    pub size: usize,
}

pub struct ModuleInfoModel {
    pub name: Seq<char>,
    pub base: usize,
    pub size: usize,
}

impl View for ModuleInfo {
    type V = ModuleInfoModel;

    open spec fn view(&self) -> ModuleInfoModel {
        ModuleInfoModel { name: self.name@, base: self.base, size: self.size }
    }
}

pub open spec fn module_views(v: Seq<ModuleInfo>) -> Seq<ModuleInfoModel> {
    v.map_values(|m: ModuleInfo| m@)
}

/// A copy of `m`.
pub fn clone_module(m: &ModuleInfo) -> (r: ModuleInfo)
    ensures
        r@ == m@,
{
    ModuleInfo { name: m.name.clone(), base: m.base, size: m.size }
}

/// Whether `c` separates the parts of a Windows path.
pub open spec fn is_path_separator(c: char) -> bool {
    c == '\\' || c == '/'
}

/// The position of the last path separator in `s[..n]`.
pub open spec fn last_separator(s: Seq<char>, n: int) -> Option<int>
    decreases n,
{
    if n <= 0 {
        None
    } else if is_path_separator(s[n - 1]) {
        Some(n - 1)
    } else {
        last_separator(s, n - 1)
    }
}

/// The file name of a full module path: what follows its last `\\` or
/// `/`, or the whole path where it has neither.
pub open spec fn file_name(path: Seq<char>) -> Seq<char> {
    match last_separator(path, path.len() as int) {
        Some(k) => path.subrange(k + 1, path.len() as int),
        None => path,
    }
}

/// The module's file name (e.g. `GTA5.exe`) out of the full path the
/// process reports for it.
pub fn module_file_name(path: &str) -> (r: String)
    ensures
        r@ == file_name(path@),
{
    let s = chars_of(path);
    let mut n = s.len();
    while n > 0
        invariant
            n <= s.len(),
            s@ == path@,
            last_separator(s@, s@.len() as int) == last_separator(s@, n as int),
        decreases n,
    {
        let c = s[n - 1];
        if c == '\\' || c == '/' {
            assert(last_separator(s@, n as int) == Some(n - 1));
            return string_of_range(&s, n, s.len());
        }
        n = n - 1;
    }
    string_of(&s)
}

/// Why a module's base address could not be found.
#[derive(Debug, Clone, Copy, PartialEq, Eq, Structural)]
pub enum ModuleError {
    /// No loaded module's file name matched (ignoring ASCII case).
    NotFound,
    /// The module enumeration itself failed.
    Memory(MemoryError),
}

impl ModuleError {
    pub fn from_memory(err: MemoryError) -> (r: ModuleError)
        ensures
            r == ModuleError::Memory(err),
    {
        ModuleError::Memory(err)
    }
}

/// Whether `a` and `b` are the same text ignoring ASCII case, as
/// `str::eq_ignore_ascii_case` compares them.
pub open spec fn same_ignoring_case(a: Seq<char>, b: Seq<char>) -> bool {
    lower(a) == lower(b)
}

pub fn eq_ignore_case(a: &str, b: &str) -> (r: bool)
    ensures
        r == same_ignoring_case(a@, b@),
{
    let x = chars_of(a);
    let y = chars_of(b);
    if x.len() != y.len() {
        assert(lower(a@).len() != lower(b@).len());
        return false;
    }
    let mut i: usize = 0;
    while i < x.len()
        invariant
            x@ == a@,
            y@ == b@,
            x.len() == y.len(),
            i <= x.len(),
            forall|k: int| 0 <= k < i ==> lower_char(#[trigger] x@[k]) == lower_char(y@[k]),
        decreases x.len() - i,
    {
        if lower_char_exec(x[i]) != lower_char_exec(y[i]) {
            assert(lower(a@)[i as int] != lower(b@)[i as int]);
            return false;
        }
        i = i + 1;
    }
    assert(lower(a@) =~= lower(b@));
    true
}

/// The first module in `ms` named `name`, ignoring ASCII case.
pub open spec fn first_named(ms: Seq<ModuleInfoModel>, name: Seq<char>, from: int) -> Option<int>
    decreases ms.len() - from,
{
    if from < 0 || from >= ms.len() {
        None
    } else if same_ignoring_case(ms[from].name, name) {
        Some(from)
    } else {
        first_named(ms, name, from + 1)
    }
}

proof fn lemma_first_named_skip(ms: Seq<ModuleInfoModel>, name: Seq<char>, from: int, i: int)
    requires
        0 <= from <= i <= ms.len(),
        forall|k: int| from <= k < i ==> !same_ignoring_case(#[trigger] ms[k].name, name),
    ensures
        first_named(ms, name, from) == first_named(ms, name, i),
    decreases i - from,
{
    if from < i {
        lemma_first_named_skip(ms, name, from + 1, i);
    }
}

/// The position of the first module named `name`, ignoring ASCII case.
pub fn find_module(modules: &Vec<ModuleInfo>, name: &str) -> (r: Option<usize>)
    ensures
        r == (match first_named(module_views(modules@), name@, 0) {
            Some(k) => Some(k as usize),
            None => None::<usize>,
        }),
        r matches Some(k) ==> k < modules@.len() && first_named(module_views(modules@), name@, 0)
            == Some(k as int) && module_views(modules@)[k as int] == modules@[k as int]@,
        r is None ==> first_named(module_views(modules@), name@, 0) is None,
{
    let ghost ms = module_views(modules@);
    let mut i: usize = 0;
    while i < modules.len()
        invariant
            i <= modules.len(),
            ms == module_views(modules@),
            forall|k: int| 0 <= k < i ==> !same_ignoring_case(#[trigger] ms[k].name, name@),
        decreases modules.len() - i,
    {
        assert(ms[i as int] == modules@[i as int]@);
        if eq_ignore_case(modules[i].name.as_str(), name) {
            proof {
                lemma_first_named_skip(ms, name@, 0, i as int);
            }
            return Some(i);
        }
        i = i + 1;
    }
    proof {
        lemma_first_named_skip(ms, name@, 0, i as int);
    }
    None
}

pub proof fn lemma_first_named_found(ms: Seq<ModuleInfoModel>, name: Seq<char>, from: int)
    requires
        0 <= from,
    ensures
        first_named(ms, name, from) matches Some(k) ==> from <= k < ms.len() && same_ignoring_case(
            ms[k].name,
            name,
        ),
    decreases ms.len() - from,
{
    if from < ms.len() && !same_ignoring_case(ms[from].name, name) {
        lemma_first_named_found(ms, name, from + 1);
    }
}

/// Resolves a loaded module's base address by file name, ignoring ASCII
/// case, among the modules the process reported.
pub fn module_base_in(modules: &Vec<ModuleInfo>, name: &str) -> (r: Result<usize, ModuleError>)
    ensures
        r == (match first_named(module_views(modules@), name@, 0) {
            Some(k) => Ok::<usize, ModuleError>(module_views(modules@)[k].base),
            None => Err(ModuleError::NotFound),
        }),
{
    match find_module(modules, name) {
        Some(k) => Ok(modules[k].base),
        None => Err(ModuleError::NotFound),
    }
}

/// An address expressed relative to the module that contains it.
#[derive(Debug, Clone, PartialEq, Eq)]
pub struct ModuleOffset {
    pub module: String,
    pub offset: usize,
}

pub struct ModuleOffsetModel {
    pub module: Seq<char>,
    pub offset: usize,
}

impl View for ModuleOffset {
    type V = ModuleOffsetModel;

    open spec fn view(&self) -> ModuleOffsetModel {
        ModuleOffsetModel { module: self.module@, offset: self.offset }
    }
}

/// `module+OFFSET`, the offset in uppercase hex.
pub open spec fn module_offset_text(m: ModuleOffsetModel) -> Seq<char> {
    m.module + "+"@ + hex_upper(m.offset as nat)
}

impl ModuleOffset {
    /// The `module+OFFSET` form a saved table uses, offset in uppercase hex.
    pub fn to_string(&self) -> (r: String)
        ensures
            r@ == module_offset_text(self@),
    {
        let mut s = self.module.clone();
        append_chars(&mut s, &chars_of("+"));
        append_chars(&mut s, &hex_upper_string(self.offset as u64));
        s
    }
}

/// Modules in order of base address, ascending.
pub open spec fn sorted_by_base(ms: Seq<ModuleInfoModel>) -> bool {
    forall|i: int, j: int| 0 <= i <= j < ms.len() ==> ms[i].base <= ms[j].base
}

/// How many modules, from the front, start at or below `address`: the
/// position just past the last such module.
pub open spec fn at_or_below(ms: Seq<ModuleInfoModel>, address: usize, n: int) -> int
    decreases n,
{
    if n <= 0 {
        0
    } else if ms[n - 1].base <= address {
        n
    } else {
        at_or_below(ms, address, n - 1)
    }
}

/// What [`ModuleMap::resolve`] gives for `address`: the last module
/// starting at or below it, if the address falls inside that module's
/// image.
pub open spec fn resolved(ms: Seq<ModuleInfoModel>, address: usize) -> Option<ModuleOffsetModel> {
    let k = at_or_below(ms, address, ms.len() as int);
    if k == 0 {
        None
    } else {
        let m = ms[k - 1];
        if m.base + m.size > usize::MAX {
            None
        } else if address < m.base + m.size {
            Some(ModuleOffsetModel { module: m.name, offset: (address - m.base) as usize })
        } else {
            None
        }
    }
}

/// A snapshot of the target's modules, sorted by base address, for turning
/// an address back into `module+offset`. It goes stale when the target
/// loads a module; the caller decides when to rebuild it.
#[derive(Debug)]
pub struct ModuleMap {
    sorted: Vec<ModuleInfo>,
}

impl View for ModuleMap {
    type V = Seq<ModuleInfoModel>;

    closed spec fn view(&self) -> Seq<ModuleInfoModel> {
        module_views(self.sorted@)
    }
}

impl Clone for ModuleMap {
    fn clone(&self) -> (r: Self)
        ensures
            r@ == self@,
    {
        proof {
            use_type_invariant(self);
        }
        let mut out: Vec<ModuleInfo> = Vec::new();
        let mut i: usize = 0;
        while i < self.sorted.len()
            invariant
                i <= self.sorted@.len(),
                sorted_by_base(module_views(self.sorted@)),
                module_views(out@) == module_views(self.sorted@).take(i as int),
            decreases self.sorted@.len() - i,
        {
            let ghost before = module_views(out@);
            let m = clone_module(&self.sorted[i]);
            assert(module_views(self.sorted@)[i as int] == self.sorted@[i as int]@);
            out.push(m);
            assert(module_views(out@) =~= before.push(m@));
            i = i + 1;
            assert(module_views(out@) =~= module_views(self.sorted@).take(i as int));
        }
        assert(module_views(self.sorted@).take(i as int) =~= module_views(self.sorted@));
        ModuleMap { sorted: out }
    }
}

impl ModuleMap {
    #[verifier::type_invariant]
    closed spec fn well_formed(self) -> bool {
        sorted_by_base(module_views(self.sorted@))
    }

    /// An empty map, which resolves nothing.
    pub fn empty() -> (m: ModuleMap)
        ensures
            m@ == Seq::<ModuleInfoModel>::empty(),
    {
        let m = ModuleMap { sorted: Vec::new() };
        assert(m@ =~= Seq::<ModuleInfoModel>::empty());
        m
    }

    /// A map of `modules`, sorted by base address.
    pub fn from_modules(modules: Vec<ModuleInfo>) -> (m: ModuleMap)
        ensures
            sorted_by_base(m@),
            m@.to_multiset() == module_views(modules@).to_multiset(),
    {
        let ghost all = module_views(modules@);
        let mut rest = modules;
        let mut out: Vec<ModuleInfo> = Vec::new();
        while rest.len() > 0
            invariant
                sorted_by_base(module_views(out@)),
                forall|i: int, j: int|
                    0 <= i < out@.len() && 0 <= j < rest@.len() ==> out@[i].base <= rest@[j].base,
                module_views(out@).to_multiset().add(module_views(rest@).to_multiset())
                    == all.to_multiset(),
            decreases rest.len(),
        {
            let mut best: usize = 0;
            let mut k: usize = 1;
            while k < rest.len()
                invariant
                    0 < rest.len(),
                    best < rest.len(),
                    1 <= k <= rest.len(),
                    forall|j: int| 0 <= j < k ==> rest@[best as int].base <= #[trigger] rest@[j].base,
                decreases rest.len() - k,
            {
                if rest[k].base < rest[best].base {
                    best = k;
                }
                k = k + 1;
            }
            let ghost rv = module_views(rest@);
            let ghost ov = module_views(out@);
            let picked = rest.remove(best);
            proof {
                assert(module_views(rest@) =~= rv.remove(best as int));
                assert(rv[best as int] == picked@);
            }
            out.push(picked);
            proof {
                assert(module_views(out@) =~= ov.push(picked@));
                assert(rv.remove(best as int).to_multiset() == rv.to_multiset().remove(picked@));
                assert(ov.push(picked@).to_multiset() == ov.to_multiset().insert(picked@));
                assert(rv.to_multiset().count(picked@) > 0) by {
                    assert(rv.contains(picked@));
                }
                assert(module_views(out@).to_multiset().add(module_views(rest@).to_multiset())
                    =~= ov.to_multiset().add(rv.to_multiset()));
                assert(sorted_by_base(module_views(out@))) by {
                    let nv = module_views(out@);
                    assert forall|i: int, j: int| 0 <= i <= j < nv.len() implies nv[i].base
                        <= nv[j].base by {
                        if j == nv.len() - 1 && i < j {
                            assert(nv[i] == ov[i]);
                            assert(out@[i].base <= picked.base);
                        }
                    }
                }
            }
        }
        proof {
            assert(module_views(rest@) =~= Seq::<ModuleInfoModel>::empty());
            assert(module_views(out@).to_multiset().add(Seq::<ModuleInfoModel>::empty().to_multiset())
                =~= module_views(out@).to_multiset());
        }
        ModuleMap { sorted: out }
    }

    /// The modules, in order of base address.
    pub fn modules(&self) -> (r: &Vec<ModuleInfo>)
        ensures
            module_views(r@) == self@,
    {
        &self.sorted
    }

    pub fn is_empty(&self) -> (r: bool)
        ensures
            r == (self@.len() == 0),
    {
        self.sorted.len() == 0
    }

    pub fn len(&self) -> (r: usize)
        ensures
            r == self@.len(),
    {
        self.sorted.len()
    }

    /// The module containing `address`, and the offset into it, or `None`
    /// if it falls in no module's image: the common case for a heap or
    /// stack address, not an error.
    pub fn resolve(&self, address: usize) -> (r: Option<ModuleOffset>)
        ensures
            match r {
                Some(m) => resolved(self@, address) == Some(m@),
                None => resolved(self@, address) is None,
            },
    {
        proof {
            use_type_invariant(self);
        }
        let ghost ms = self@;
        // The first position whose module starts above the address.
        let mut lo: usize = 0;
        let mut hi: usize = self.sorted.len();
        while lo < hi
            invariant
                ms == self@,
                sorted_by_base(ms),
                lo <= hi <= ms.len(),
                forall|i: int| 0 <= i < lo ==> (#[trigger] ms[i]).base <= address,
                forall|i: int| hi <= i < ms.len() ==> (#[trigger] ms[i]).base > address,
            decreases hi - lo,
        {
            let mid = lo + (hi - lo) / 2;
            assert(ms[mid as int] == self.sorted@[mid as int]@);
            if self.sorted[mid].base <= address {
                lo = mid + 1;
            } else {
                hi = mid;
            }
        }
        proof {
            lemma_at_or_below(ms, address, lo as int, ms.len() as int);
        }
        if lo == 0 {
            return None;
        }
        let m = &self.sorted[lo - 1];
        assert(ms[lo - 1] == m@);
        match m.base.checked_add(m.size) {
            None => None,
            Some(end) => {
                if address < end {
                    Some(ModuleOffset { module: m.name.clone(), offset: address - m.base })
                } else {
                    None
                }
            },
        }
    }
}

proof fn lemma_at_or_below(ms: Seq<ModuleInfoModel>, address: usize, p: int, n: int)
    requires
        0 <= p <= n <= ms.len(),
        forall|i: int| 0 <= i < p ==> (#[trigger] ms[i]).base <= address,
        forall|i: int| p <= i < ms.len() ==> (#[trigger] ms[i]).base > address,
    ensures
        at_or_below(ms, address, n) == p,
    decreases n,
{
    if n > p {
        lemma_at_or_below(ms, address, p, n - 1);
    }
}

/// Module images that do not overlap and fit in the address space.
pub open spec fn disjoint_images(ms: Seq<ModuleInfoModel>) -> bool {
    &&& forall|i: int| 0 <= i < ms.len() ==> (#[trigger] ms[i]).base + ms[i].size <= usize::MAX
    &&& forall|i: int, j: int|
        0 <= i < j < ms.len() ==> #[trigger] ms[i].base + ms[i].size <= #[trigger] ms[j].base
}

/// An address inside a module's image resolves to that module, at its
/// offset from the module's base.
pub proof fn an_address_resolves_to_its_module(ms: Seq<ModuleInfoModel>, address: usize, i: int)
    requires
        sorted_by_base(ms),
        disjoint_images(ms),
        0 <= i < ms.len(),
        ms[i].base <= address < ms[i].base + ms[i].size,
    ensures
        resolved(ms, address) == Some(
            ModuleOffsetModel { module: ms[i].name, offset: (address - ms[i].base) as usize },
        ),
{
    let n = ms.len() as int;
    lemma_at_or_below_bounds(ms, address, n);
    lemma_at_or_below_at_least(ms, address, n, i);
    let k = at_or_below(ms, address, n);
    if k - 1 > i {
        assert(ms[i].base + ms[i].size <= ms[k - 1].base);
    }
}

proof fn lemma_at_or_below_at_least(ms: Seq<ModuleInfoModel>, address: usize, n: int, i: int)
    requires
        0 <= i < n <= ms.len(),
        ms[i].base <= address,
    ensures
        at_or_below(ms, address, n) >= i + 1,
    decreases n,
{
    if ms[n - 1].base > address {
        lemma_at_or_below_at_least(ms, address, n - 1, i);
    }
}

/// An address in no module's image resolves to nothing.
pub proof fn an_address_outside_every_module_resolves_to_nothing(
    ms: Seq<ModuleInfoModel>,
    address: usize,
)
    requires
        sorted_by_base(ms),
        forall|i: int|
            0 <= i < ms.len() ==> !((#[trigger] ms[i]).base <= address < ms[i].base + ms[i].size),
    ensures
        resolved(ms, address) is None,
{
    let k = at_or_below(ms, address, ms.len() as int);
    lemma_at_or_below_bounds(ms, address, ms.len() as int);
    if k > 0 {
        assert(!(ms[k - 1].base <= address < ms[k - 1].base + ms[k - 1].size));
    }
}

proof fn lemma_at_or_below_bounds(ms: Seq<ModuleInfoModel>, address: usize, n: int)
    requires
        0 <= n <= ms.len(),
    ensures
        0 <= at_or_below(ms, address, n) <= n,
        at_or_below(ms, address, n) > 0 ==> ms[at_or_below(ms, address, n) - 1].base <= address,
    decreases n,
{
    if n > 0 {
        lemma_at_or_below_bounds(ms, address, n - 1);
    }
}

} // verus!
