//! Freeze: the set of addresses pinned to a value, which a background
//! writer rewrites every tick, and what that writer decides after a tick.
use vstd::prelude::*;

use std::collections::HashMap;
use vstd::std_specs::hash::group_hash_axioms;
use vstd::std_specs::hash::spec_hash_map_iter;
use vstd::std_specs::iter::IteratorSpec;

verus! {

broadcast use group_hash_axioms;

/// How often the freeze writer rewrites every frozen address, by default,
/// in milliseconds.
pub const DEFAULT_FREEZE_INTERVAL_MILLIS: u64 = 50;

/// The frozen addresses and the bytes each is pinned to. Only this set's
/// owner changes it; the writer only ever reads a snapshot of it.
#[derive(Debug)]
pub struct FrozenSet {
    entries: HashMap<usize, Vec<u8>>,
}

impl View for FrozenSet {
    type V = Map<usize, Seq<u8>>;

    closed spec fn view(&self) -> Map<usize, Seq<u8>> {
        self.entries@.map_values(|v: Vec<u8>| v@)
    }
}

impl FrozenSet {
    /// Nothing frozen.
    pub fn new() -> (s: Self)
        ensures
            s@ == Map::<usize, Seq<u8>>::empty(),
    {
        let s = FrozenSet { entries: HashMap::new() };
        assert(s@ =~= Map::<usize, Seq<u8>>::empty());
        s
    }

    /// Freezes `address` at exactly `bytes`, replacing any earlier freeze
    /// of it.
    pub fn freeze(&mut self, address: usize, bytes: Vec<u8>)
        ensures
            final(self)@ == old(self)@.insert(address, bytes@),
    {
        let ghost b = bytes@;
        self.entries.insert(address, bytes);
        assert(self@ =~= old(self)@.insert(address, b));
    }

    /// Stops rewriting `address`; nothing happens if it wasn't frozen.
    pub fn unfreeze(&mut self, address: usize)
        ensures
            final(self)@ == old(self)@.remove(address),
    {
        self.entries.remove(&address);
        assert(self@ =~= old(self)@.remove(address));
    }

    /// Whether `address` is frozen.
    pub fn is_frozen(&self, address: usize) -> (r: bool)
        ensures
            r == self@.contains_key(address),
    {
        self.entries.contains_key(&address)
    }

    /// How many addresses are frozen.
    pub fn len(&self) -> (r: usize)
        ensures
            r == self@.len(),
    {
        assert(self@.dom() =~= self.entries@.dom());
        self.entries.len()
    }

    /// Every frozen address with its bytes, each once, in no particular
    /// order: what one tick writes.
    pub fn snapshot(&self) -> (r: Vec<(usize, Vec<u8>)>)
        ensures
            r@.len() == self@.len(),
            forall|i: int|
                0 <= i < r@.len() ==> self@.contains_key(#[trigger] r@[i].0) && self@[r@[i].0]
                    == r@[i].1@,
            forall|i: int, j: int| 0 <= i < j < r@.len() ==> r@[i].0 != r@[j].0,
    {
        let mut out: Vec<(usize, Vec<u8>)> = Vec::new();
        assert(self@.dom() =~= self.entries@.dom());
        for (address, bytes) in it: self.entries.iter()
            invariant
                out@.len() == it.index(),
                forall|i: int|
                    0 <= i < out@.len() ==> (#[trigger] out@[i]).0 == *it.seq()[i].0 && out@[i].1@
                        == it.seq()[i].1@,
        {
            let copy = crate::aob::copy_bytes(bytes.as_slice());
            out.push((*address, copy));
        }
        proof {
            let v = spec_hash_map_iter(&self.entries).remaining();
            assert(out@.len() == v.len());
            assert forall|i: int| 0 <= i < out@.len() implies self@.contains_key(
                #[trigger] out@[i].0,
            ) && self@[out@[i].0] == out@[i].1@ by {
                assert(self.entries@.contains_key(*v[i].0));
            }
            assert forall|i: int, j: int| 0 <= i < j < out@.len() implies out@[i].0 != out@[j].0 by {
                if out@[i].0 == out@[j].0 {
                    assert(self.entries@.contains_key(*v[i].0) && self.entries@[*v[i].0] == *v[i].1);
                    assert(self.entries@.contains_key(*v[j].0) && self.entries@[*v[j].0] == *v[j].1);
                    assert(v[i] == v[j]);
                }
            }
        }
        out
    }
}

/// After a tick's writes (`results[i]` is whether the `i`th succeeded):
/// whether to ask if the target exited, which is worth asking only when
/// there was something to write and every write failed; one bad address
/// among several is not an exit.
pub fn should_check_exit(results: &Vec<bool>) -> (r: bool)
    ensures
        r == (results@.len() > 0 && forall|i: int| 0 <= i < results@.len() ==> !results@[i]),
{
    if results.len() == 0 {
        return false;
    }
    let mut i: usize = 0;
    while i < results.len()
        invariant
            i <= results@.len(),
            forall|k: int| 0 <= k < i ==> !results@[k],
        decreases results@.len() - i,
    {
        if results[i] {
            return false;
        }
        i = i + 1;
    }
    true
}

} // verus!
