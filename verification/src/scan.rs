//! The scan engine's parameters and results, and the decisions it makes
//! about which chunk to read and which positions to check.
use vstd::prelude::*;

use crate::aob::reread_views;
use crate::bytes::{le_bytes, le_value};
use crate::regions::MemoryRegion;
use crate::scan_value::{
    bytes_match_integer, passes, passes_filter, same_type, ScanFilter, ScanValue,
};

verus! {

/// Two decimal places: typical in-game display precision, the default
/// rounding for exact-value float matches.
pub const DEFAULT_FLOAT_DECIMALS: u32 = 2;

/// How large a chunk of memory to read at once (1 MiB).
pub const DEFAULT_CHUNK_SIZE: usize = 1048576;

/// A first scan stops once this many matches are found.
pub const DEFAULT_MAX_RESULTS: usize = 50000;

/// Tunable parameters for a scan.
#[derive(Debug, Clone, Copy, PartialEq, Eq, Structural)]
pub struct ScanOptions {
    pub float_decimals: u32,
    pub chunk_size: usize,
    pub max_results: usize,
}

impl Default for ScanOptions {
    fn default() -> (r: Self)
        ensures
            r.float_decimals == DEFAULT_FLOAT_DECIMALS,
            r.chunk_size == DEFAULT_CHUNK_SIZE,
            r.max_results == DEFAULT_MAX_RESULTS,
    {
        ScanOptions {
            float_decimals: DEFAULT_FLOAT_DECIMALS,
            chunk_size: DEFAULT_CHUNK_SIZE,
            max_results: DEFAULT_MAX_RESULTS,
        }
    }
}

/// One matched address from a scan, with the value found there and the one
/// it held before the most recent re-read (equal to `value` on a first
/// scan).
#[derive(Debug, Clone, Copy, PartialEq)]
pub struct ScanMatch {
    pub address: usize,
    pub value: ScanValue,
    pub previous: ScanValue,
}

/// Result of a first scan. `capped` is true when the result limit was
/// reached before every region was read.
#[derive(Debug, Clone, PartialEq)]
pub struct FirstScanResult {
    pub matches: Vec<ScanMatch>,
    pub capped: bool,
}

// ---- aligned positions in a buffer ------------------------------------------------

/// A whole value of `size` bytes starts at offset `k` of a buffer of `len`
/// bytes read from `base`, on an address that is a multiple of `size`.
pub open spec fn starts_aligned(base: int, len: int, size: int, k: int) -> bool {
    (base + k) % size == 0 && k + size <= len
}

/// The offsets below `n` in a buffer of `len` bytes read from `base` at
/// which a whole value of `size` bytes starts on an address that is a
/// multiple of `size`, in increasing order. Alignment is to the absolute
/// address, not to the offset in the buffer.
pub open spec fn aligned_positions(base: int, len: int, size: int, n: int) -> Seq<int>
    decreases n,
{
    if n <= 0 {
        seq![]
    } else {
        let k = n - 1;
        let rest = aligned_positions(base, len, size, n - 1);
        if starts_aligned(base, len, size, k) {
            rest.push(k)
        } else {
            rest
        }
    }
}

proof fn lemma_positions_unaligned(base: int, len: int, size: int, from: int, to: int)
    requires
        size > 0,
        from <= to,
        forall|j: int| from <= j < to ==> !#[trigger] starts_aligned(base, len, size, j),
    ensures
        aligned_positions(base, len, size, to) == aligned_positions(base, len, size, from),
    decreases to - from,
{
    if from < to {
        lemma_positions_unaligned(base, len, size, from, to - 1);
    }
}

proof fn lemma_between_aligned(base: int, size: int, k: int, j: int)
    requires
        size > 0,
        base >= 0,
        k >= 0,
        (base + k) % size == 0,
        k < j < k + size,
    ensures
        (base + j) % size != 0,
{
    let q = (base + k) / size;
    vstd::arithmetic::div_mod::lemma_fundamental_div_mod(base + k, size);
    vstd::arithmetic::div_mod::lemma_fundamental_div_mod_converse(base + j, size, q, j - k);
}

proof fn lemma_before_first_aligned(base: int, size: int, j: int)
    requires
        size > 0,
        base >= 0,
        0 <= j < (size - base % size) % size,
    ensures
        (base + j) % size != 0,
{
    let r = base % size;
    let q = base / size;
    vstd::arithmetic::div_mod::lemma_fundamental_div_mod(base, size);
    if r == 0 {
        assert((size - r) % size == 0) by {
            vstd::arithmetic::div_mod::lemma_mod_self_0(size);
        }
    } else {
        vstd::arithmetic::div_mod::lemma_small_mod((size - r) as nat, size as nat);
        assert(base + j == q * size + (r + j)) by (nonlinear_arith)
            requires
                base == size * q + r,
        ;
        vstd::arithmetic::div_mod::lemma_fundamental_div_mod_converse(base + j, size, q, r + j);
    }
}

proof fn lemma_first_aligned(base: int, size: int)
    requires
        size > 0,
        base >= 0,
    ensures
        (base + (size - base % size) % size) % size == 0,
{
    let r = base % size;
    let q = base / size;
    vstd::arithmetic::div_mod::lemma_fundamental_div_mod(base, size);
    if r == 0 {
        vstd::arithmetic::div_mod::lemma_mod_self_0(size);
    } else {
        vstd::arithmetic::div_mod::lemma_small_mod((size - r) as nat, size as nat);
        assert(base + (size - r) == (q + 1) * size + 0) by (nonlinear_arith)
            requires
                base == size * q + r,
        ;
        vstd::arithmetic::div_mod::lemma_fundamental_div_mod_converse(base + (size - r), size, q + 1, 0);
    }
}

/// The offsets in a buffer of `len` bytes read from `base` at which an
/// aligned value of `size` bytes starts.
pub fn aligned_offsets(base: usize, len: usize, size: usize) -> (r: Vec<usize>)
    requires
        size > 0,
        base + len <= usize::MAX,
    ensures
        r@.map_values(|k: usize| k as int) == aligned_positions(
            base as int,
            len as int,
            size as int,
            len as int,
        ),
{
    let mut out: Vec<usize> = Vec::new();
    let first = (size - base % size) % size;
    proof {
        assert forall|j: int| 0 <= j < first implies !#[trigger] starts_aligned(
            base as int,
            len as int,
            size as int,
            j,
        ) by {
            lemma_before_first_aligned(base as int, size as int, j);
        }
        lemma_positions_unaligned(base as int, len as int, size as int, 0, first as int);
        lemma_first_aligned(base as int, size as int);
        assert(out@.map_values(|k: usize| k as int) =~= Seq::<int>::empty());
    }
    if first >= len {
        proof {
            lemma_positions_unaligned(base as int, len as int, size as int, 0, len as int);
        }
        return out;
    }
    let mut k = first;
    while k < len && size <= len - k
        invariant
            size > 0,
            base + len <= usize::MAX,
            k <= len,
            (base + k) % (size as int) == 0,
            out@.map_values(|x: usize| x as int) == aligned_positions(
                base as int,
                len as int,
                size as int,
                k as int,
            ),
        decreases len - k,
    {
        let ghost before = out@.map_values(|x: usize| x as int);
        out.push(k);
        proof {
            assert(aligned_positions(base as int, len as int, size as int, k + 1) == before.push(
                k as int,
            ));
            assert(out@.map_values(|x: usize| x as int) =~= before.push(k as int));
            assert forall|j: int| k + 1 <= j < k + size implies !#[trigger] starts_aligned(
                base as int,
                len as int,
                size as int,
                j,
            ) by {
                lemma_between_aligned(base as int, size as int, k as int, j);
            }
            lemma_positions_unaligned(base as int, len as int, size as int, k + 1, k + size);
            vstd::arithmetic::div_mod::lemma_mod_add_multiples_vanish((base + k) as int, size as int);
        }
        k = k + size;
    }
    proof {
        assert forall|j: int| k <= j < len implies !#[trigger] starts_aligned(
            base as int,
            len as int,
            size as int,
            j,
        ) by {}
        lemma_positions_unaligned(base as int, len as int, size as int, k as int, len as int);
    }
    out
}

// ---- exact values in a buffer ----------------------------------------------------

/// The value of `target`'s type held by the `size` bytes at offset `k`.
pub open spec fn value_at(bytes: Seq<u8>, k: int, target: ScanValue) -> ScanValue {
    target.with_bits(le_value(bytes.subrange(k, k + target.spec_size())))
}

/// The first-scan match for the value at offset `k` of a buffer read from
/// `base`.
pub open spec fn match_model(base: int, bytes: Seq<u8>, k: int, target: ScanValue) -> ScanMatch {
    let v = value_at(bytes, k, target);
    ScanMatch { address: (base + k) as usize, value: v, previous: v }
}

/// Among the positions `ps`, the matches of an integer `target`: the
/// positions holding exactly its bytes.
pub open spec fn integer_matches(base: int, bytes: Seq<u8>, target: ScanValue, ps: Seq<int>) -> Seq<
    ScanMatch,
>
    decreases ps.len(),
{
    if ps.len() == 0 {
        seq![]
    } else {
        let rest = integer_matches(base, bytes, target, ps.drop_last());
        let k = ps.last();
        if bytes.subrange(k, k + target.spec_size()) == le_bytes(target.bits(), target.spec_size()) {
            rest.push(match_model(base, bytes, k, target))
        } else {
            rest
        }
    }
}

/// Every aligned occurrence of an integer `target` in `bytes` read from
/// `base`, as first-scan matches in address order.
pub open spec fn value_matches(base: int, bytes: Seq<u8>, target: ScanValue) -> Seq<ScanMatch> {
    integer_matches(
        base,
        bytes,
        target,
        aligned_positions(base, bytes.len() as int, target.spec_size() as int, bytes.len() as int),
    )
}

proof fn lemma_positions_in_range(base: int, len: int, size: int, n: int)
    requires
        size > 0,
    ensures
        forall|i: int|
            0 <= i < aligned_positions(base, len, size, n).len() ==> 0 <= #[trigger] aligned_positions(
                base,
                len,
                size,
                n,
            )[i] && aligned_positions(base, len, size, n)[i] + size <= len
                && aligned_positions(base, len, size, n)[i] < n,
    decreases n,
{
    if n > 0 {
        lemma_positions_in_range(base, len, size, n - 1);
        let rest = aligned_positions(base, len, size, n - 1);
        let ps = aligned_positions(base, len, size, n);
        assert forall|i: int| 0 <= i < ps.len() implies 0 <= #[trigger] ps[i] && ps[i] + size <= len
            && ps[i] < n by {
            if i < rest.len() {
                assert(ps[i] == rest[i]);
            }
        }
    }
}

/// The match for the value at offset `k` of `bytes`, read from `base`.
pub fn match_at(base: usize, bytes: &[u8], k: usize, target: ScanValue) -> (r: ScanMatch)
    requires
        k + target.spec_size() <= bytes@.len(),
        base + k <= usize::MAX,
    ensures
        r == match_model(base as int, bytes@, k as int, target),
{
    let mut piece: Vec<u8> = Vec::new();
    let size = target.size();
    let mut i: usize = 0;
    while i < size
        invariant
            i <= size,
            size == target.spec_size(),
            k + size <= bytes.len(),
            piece@ == bytes@.subrange(k as int, k + i),
        decreases size - i,
    {
        piece.push(bytes[k + i]);
        i = i + 1;
        assert(piece@ =~= bytes@.subrange(k as int, k + i));
    }
    let v = target.from_le_bytes_like(piece.as_slice());
    ScanMatch { address: base + k, value: v, previous: v }
}

/// Scans `bytes` (read from `base_address`) for every aligned occurrence of
/// an integer `target`. A float target's comparison rounds to a number of
/// decimal places and is made elsewhere, on the same aligned positions.
pub fn scan_bytes_for_value(base_address: usize, bytes: &[u8], target: ScanValue) -> (r: Vec<
    ScanMatch,
>)
    requires
        !target.is_float(),
        base_address + bytes@.len() <= usize::MAX,
    ensures
        r@ == value_matches(base_address as int, bytes@, target),
{
    let size = target.size();
    let offsets = aligned_offsets(base_address, bytes.len(), size);
    let ghost ps = aligned_positions(
        base_address as int,
        bytes@.len() as int,
        size as int,
        bytes@.len() as int,
    );
    proof {
        lemma_positions_in_range(base_address as int, bytes@.len() as int, size as int, bytes@.len() as int);
    }
    let mut out: Vec<ScanMatch> = Vec::new();
    let mut i: usize = 0;
    while i < offsets.len()
        invariant
            i <= offsets@.len(),
            size == target.spec_size(),
            !target.is_float(),
            base_address + bytes@.len() <= usize::MAX,
            offsets@.map_values(|k: usize| k as int) == ps,
            forall|j: int|
                0 <= j < ps.len() ==> 0 <= #[trigger] ps[j] && ps[j] + size <= bytes@.len(),
            out@ == integer_matches(base_address as int, bytes@, target, ps.take(i as int)),
        decreases offsets@.len() - i,
    {
        let k = offsets[i];
        assert(ps[i as int] == k as int);
        let mut piece: Vec<u8> = Vec::new();
        let mut j: usize = 0;
        while j < size
            invariant
                j <= size,
                k + size <= bytes.len(),
                piece@ == bytes@.subrange(k as int, k + j),
            decreases size - j,
        {
            piece.push(bytes[k + j]);
            j = j + 1;
            assert(piece@ =~= bytes@.subrange(k as int, k + j));
        }
        let ghost before = out@;
        assert(ps.take(i + 1).drop_last() =~= ps.take(i as int));
        if bytes_match_integer(piece.as_slice(), target) {
            out.push(match_at(base_address, bytes, k, target));
        }
        i = i + 1;
    }
    assert(ps.take(i as int) =~= ps);
    out
}

// ---- chunks cover the region ---------------------------------------------------

/// The matches of an integer `target` in a region's bytes `r` read from
/// `base`, at the positions below `n`.
pub open spec fn region_matches_below(base: int, r: Seq<u8>, target: ScanValue, n: int) -> Seq<
    ScanMatch,
> {
    integer_matches(
        base,
        r,
        target,
        aligned_positions(base, r.len() as int, target.spec_size() as int, n),
    )
}

/// The bytes of the chunk at offset `o` of a region's bytes `r`: `chunk`
/// bytes and `size - 1` more, cut at the region's end.
pub open spec fn chunk_bytes(r: Seq<u8>, chunk: int, size: int, o: int) -> Seq<u8> {
    let want = o + chunk + size - 1;
    r.subrange(o, if want < r.len() { want } else { r.len() as int })
}

/// What scanning a region's bytes `r` chunk by chunk from offset `o` on
/// finds, the chunks' matches one after another.
pub open spec fn chunked_matches(base: int, r: Seq<u8>, target: ScanValue, chunk: int, o: int) -> Seq<
    ScanMatch,
>
    decreases r.len() - o,
    when chunk > 0
{
    if o >= r.len() {
        seq![]
    } else {
        let here = value_matches(base + o, chunk_bytes(r, chunk, target.spec_size() as int, o), target);
        if o + chunk >= r.len() {
            here
        } else {
            here + chunked_matches(base, r, target, chunk, o + chunk)
        }
    }
}

proof fn lemma_integer_matches_push(base: int, bytes: Seq<u8>, target: ScanValue, ps: Seq<int>, k: int)
    ensures
        integer_matches(base, bytes, target, ps.push(k)) == if bytes.subrange(
            k,
            k + target.spec_size(),
        ) == le_bytes(target.bits(), target.spec_size()) {
            integer_matches(base, bytes, target, ps).push(match_model(base, bytes, k, target))
        } else {
            integer_matches(base, bytes, target, ps)
        },
{
    assert(ps.push(k).drop_last() =~= ps);
}

/// Within the chunk at `o`, a position `n` below the chunk size starts a
/// value exactly where the region's position `o + n` does, on the same
/// bytes.
proof fn lemma_chunk_prefix(base: int, r: Seq<u8>, target: ScanValue, chunk: int, o: int, n: int)
    requires
        chunk > 0,
        0 <= o < r.len(),
        0 <= n <= chunk,
        n <= chunk_bytes(r, chunk, target.spec_size() as int, o).len(),
    ensures
        ({
            let size = target.spec_size() as int;
            let w = chunk_bytes(r, chunk, size, o);
            region_matches_below(base, r, target, o + n) == region_matches_below(base, r, target, o)
                + integer_matches(base + o, w, target, aligned_positions(base + o, w.len() as int, size, n))
        }),
    decreases n,
{
    let size = target.spec_size() as int;
    let len = r.len() as int;
    let w = chunk_bytes(r, chunk, size, o);
    let wl = w.len() as int;
    if n == 0 {
        assert(region_matches_below(base, r, target, o) + Seq::<ScanMatch>::empty() =~= region_matches_below(base, r, target, o));
    } else {
        let k = n - 1;
        lemma_chunk_prefix(base, r, target, chunk, o, k);
        assert(starts_aligned(base + o, wl, size, k) == starts_aligned(base, len, size, o + k));
        if starts_aligned(base + o, wl, size, k) {
            assert(w.subrange(k, k + size) =~= r.subrange(o + k, o + k + size));
            assert(match_model(base + o, w, k, target) == match_model(base, r, o + k, target));
        }
        lemma_integer_matches_push(base + o, w, target, aligned_positions(base + o, wl, size, k), k);
        lemma_integer_matches_push(base, r, target, aligned_positions(base, len, size, o + k), o + k);
        let pre = region_matches_below(base, r, target, o);
        let wm = integer_matches(base + o, w, target, aligned_positions(base + o, wl, size, k));
        if starts_aligned(base + o, wl, size, k) && w.subrange(k, k + size) == le_bytes(
            target.bits(),
            target.spec_size(),
        ) {
            assert(pre + wm.push(match_model(base + o, w, k, target)) =~= (pre + wm).push(
                match_model(base, r, o + k, target),
            ));
        }
    }
}

/// The chunk at offset `o` finds exactly the region's matches at the
/// positions from `o` up to the next chunk's start.
proof fn lemma_one_chunk(base: int, r: Seq<u8>, target: ScanValue, chunk: int, o: int)
    requires
        chunk > 0,
        0 <= o < r.len(),
    ensures
        region_matches_below(
            base,
            r,
            target,
            if o + chunk < r.len() { o + chunk } else { r.len() as int },
        ) == region_matches_below(base, r, target, o) + value_matches(
            base + o,
            chunk_bytes(r, chunk, target.spec_size() as int, o),
            target,
        ),
{
    let size = target.spec_size() as int;
    let len = r.len() as int;
    let w = chunk_bytes(r, chunk, size, o);
    let wl = w.len() as int;
    let m = if chunk < wl { chunk } else { wl };
    assert(size > 0) by {
        assert(target.spec_size() >= 1);
    }
    lemma_chunk_prefix(base, r, target, chunk, o, m);
    // Past `m`, nothing more starts inside the chunk.
    assert forall|j: int| m <= j < wl implies !#[trigger] starts_aligned(base + o, wl, size, j) by {}
    lemma_positions_unaligned(base + o, wl, size, m, wl);
}

/// Chunked scanning finds exactly what scanning the whole region at once
/// would: the chunks' overlap of `size - 1` bytes loses no value that
/// straddles two chunks, and no value is found twice.
pub proof fn chunks_find_what_the_whole_region_holds(
    base: int,
    r: Seq<u8>,
    target: ScanValue,
    chunk: int,
)
    requires
        chunk > 0,
    ensures
        chunked_matches(base, r, target, chunk, 0) == value_matches(base, r, target),
{
    lemma_chunks_from(base, r, target, chunk, 0);
}

proof fn lemma_chunks_from(base: int, r: Seq<u8>, target: ScanValue, chunk: int, o: int)
    requires
        chunk > 0,
        0 <= o,
    ensures
        o <= r.len() ==> region_matches_below(base, r, target, o) + chunked_matches(
            base,
            r,
            target,
            chunk,
            o,
        ) == region_matches_below(base, r, target, r.len() as int),
    decreases r.len() - o,
{
    if o < r.len() {
        lemma_one_chunk(base, r, target, chunk, o);
        if o + chunk < r.len() {
            lemma_chunks_from(base, r, target, chunk, o + chunk);
            let a = region_matches_below(base, r, target, o);
            let b = value_matches(base + o, chunk_bytes(r, chunk, target.spec_size() as int, o), target);
            let c = chunked_matches(base, r, target, chunk, o + chunk);
            assert(a + (b + c) =~= (a + b) + c);
        }
    } else if o == r.len() {
        assert(chunked_matches(base, r, target, chunk, o) =~= Seq::<ScanMatch>::empty());
        assert(region_matches_below(base, r, target, o) + Seq::<ScanMatch>::empty() =~= region_matches_below(base, r, target, o));
    }
}

proof fn lemma_region_matches_prefix(base: int, r: Seq<u8>, target: ScanValue, o: int, n: int)
    requires
        0 <= o <= n,
    ensures
        region_matches_below(base, r, target, o).len() <= region_matches_below(base, r, target, n).len(),
        region_matches_below(base, r, target, n).take(
            region_matches_below(base, r, target, o).len() as int,
        ) == region_matches_below(base, r, target, o),
    decreases n - o,
{
    let size = target.spec_size() as int;
    let len = r.len() as int;
    if n == o {
        assert(region_matches_below(base, r, target, n).take(
            region_matches_below(base, r, target, n).len() as int,
        ) =~= region_matches_below(base, r, target, n));
    } else {
        lemma_region_matches_prefix(base, r, target, o, n - 1);
        lemma_integer_matches_push(base, r, target, aligned_positions(base, len, size, n - 1), n - 1);
        let a = region_matches_below(base, r, target, o);
        let b = region_matches_below(base, r, target, n - 1);
        let c = region_matches_below(base, r, target, n);
        if c != b {
            assert(c.take(a.len() as int) =~= b.take(a.len() as int));
        }
    }
}

proof fn lemma_capped_concat(a: Seq<ScanMatch>, b: Seq<ScanMatch>, m: nat)
    ensures
        capped(capped(a, m) + b, m) == capped(a + b, m),
{
    if a.len() >= m {
        assert((a.take(m as int) + b).take(m as int) =~= (a + b).take(m as int));
    }
}

/// One chunk of a region scan keeps the scan's matches equal to the
/// region's own matches so far, cut to the limit: if they were the
/// region's matches below the chunk's offset, then adding what the chunk
/// finds (as [`ExactRegionScan::accept`] does) gives the region's matches
/// below the next chunk's offset.
pub proof fn a_region_scan_step_keeps_the_region_matches(
    before: Seq<ScanMatch>,
    base: int,
    r: Seq<u8>,
    target: ScanValue,
    chunk: int,
    o: int,
    max: nat,
)
    requires
        chunk > 0,
        0 <= o < r.len(),
        before == capped(region_matches_below(base, r, target, o), max),
    ensures
        capped(
            before + value_matches(base + o, chunk_bytes(r, chunk, target.spec_size() as int, o), target),
            max,
        ) == capped(
            region_matches_below(
                base,
                r,
                target,
                if o + chunk < r.len() { o + chunk } else { r.len() as int },
            ),
            max,
        ),
{
    lemma_one_chunk(base, r, target, chunk, o);
    lemma_capped_concat(
        region_matches_below(base, r, target, o),
        value_matches(base + o, chunk_bytes(r, chunk, target.spec_size() as int, o), target),
        max,
    );
}

/// A region scan that stops, having read the whole region or reached its
/// limit, with the region's matches so far cut to the limit, holds the
/// first `max` matches of the whole region: nothing missed, nothing twice.
pub proof fn a_finished_region_scan_holds_the_region_matches(
    ms: Seq<ScanMatch>,
    base: int,
    r: Seq<u8>,
    target: ScanValue,
    o: int,
    max: nat,
)
    requires
        0 <= o <= r.len(),
        ms == capped(region_matches_below(base, r, target, o), max),
        o == r.len() || ms.len() >= max,
    ensures
        ms == capped(value_matches(base, r, target), max),
{
    let len = r.len() as int;
    assert(region_matches_below(base, r, target, len) == value_matches(base, r, target));
    if o < len {
        lemma_region_matches_prefix(base, r, target, o, len);
        let a = region_matches_below(base, r, target, o);
        let w = region_matches_below(base, r, target, len);
        assert(a.len() >= max);
        assert(w.take(max as int) =~= a.take(max as int)) by {
            assert(w.take(a.len() as int) == a);
            assert forall|i: int| 0 <= i < max implies w[i] == a[i] by {
                assert(w.take(a.len() as int)[i] == w[i]);
            }
        }
    }
}

// ---- a region, chunk by chunk --------------------------------------------------

/// Scanning one region for a value, a chunk at a time: chunks start every
/// `chunk_size` bytes and are read `size - 1` bytes past their nominal end,
/// so a value straddling two chunks is still read whole. Stops once
/// `max_matches` matches are found.
pub struct ExactRegionScan {
    pub region: MemoryRegion,
    pub target: ScanValue,
    pub chunk_size: usize,
    pub max_matches: usize,
    pub offset: usize,
    pub matches: Vec<ScanMatch>,
}

/// `all`, cut to at most `max` matches.
pub open spec fn capped(all: Seq<ScanMatch>, max: nat) -> Seq<ScanMatch> {
    if all.len() < max {
        all
    } else {
        all.take(max as int)
    }
}

impl ExactRegionScan {
    /// The scan has nothing left to read.
    pub open spec fn finished(&self) -> bool {
        ||| self.offset >= self.region.size
        ||| self.matches@.len() >= self.max_matches
    }

    /// The chunk still to be read: where, and how many bytes.
    pub open spec fn chunk(&self) -> (int, int) {
        let remaining = self.region.size - self.offset;
        let want = self.chunk_size + self.target.spec_size() - 1;
        (
            self.region.base_address + self.offset,
            if remaining < want {
                remaining
            } else {
                want
            },
        )
    }

    pub open spec fn well_formed(&self) -> bool {
        &&& self.region.base_address + self.region.size <= usize::MAX
        &&& self.region.size + self.chunk_size <= usize::MAX
        &&& self.chunk_size + self.target.spec_size() <= usize::MAX
        &&& self.matches@.len() <= self.max_matches
    }

    /// Starts scanning `region` for `target`.
    pub fn new(region: MemoryRegion, target: ScanValue, options: ScanOptions, max_matches: usize) -> (s:
        Self)
        requires
            region.base_address + region.size <= usize::MAX,
            region.size + options.chunk_size <= usize::MAX,
            options.chunk_size + 8 <= usize::MAX,
        ensures
            s.well_formed(),
            s.region == region,
            s.target == target,
            s.chunk_size == options.chunk_size,
            s.max_matches == max_matches,
            s.offset == 0,
            s.matches@.len() == 0,
    {
        ExactRegionScan {
            region,
            target,
            chunk_size: options.chunk_size,
            max_matches,
            offset: 0,
            matches: Vec::new(),
        }
    }

    /// The next chunk to read, as `(address, length)`, or `None` once the
    /// scan is over.
    pub fn next_read(&self) -> (r: Option<(usize, usize)>)
        requires
            self.well_formed(),
        ensures
            match r {
                Some((a, l)) => !self.finished() && (a as int, l as int) == self.chunk(),
                None => self.finished(),
            },
    {
        if self.offset >= self.region.size || self.matches.len() >= self.max_matches {
            return None;
        }
        let remaining = self.region.size - self.offset;
        let want = self.chunk_size + (self.target.size() - 1);
        let len = if remaining < want {
            remaining
        } else {
            want
        };
        Some((self.region.base_address + self.offset, len))
    }

    /// Takes the matches found in the chunk [`Self::next_read`] named, as
    /// many as the limit leaves room for, and moves on to the next chunk.
    pub fn accept_matches(&mut self, found: Vec<ScanMatch>)
        requires
            old(self).well_formed(),
            !old(self).finished(),
        ensures
            final(self).region == old(self).region,
            final(self).target == old(self).target,
            final(self).chunk_size == old(self).chunk_size,
            final(self).max_matches == old(self).max_matches,
            final(self).offset == old(self).offset + old(self).chunk_size,
            final(self).matches@ == capped(old(self).matches@ + found@, old(self).max_matches as nat),
            final(self).well_formed(),
    {
        let ghost old_matches = self.matches@;
        let mut k: usize = 0;
        while k < found.len() && self.matches.len() < self.max_matches
            invariant
                k <= found@.len(),
                self.max_matches == old(self).max_matches,
                self.region == old(self).region,
                self.offset == old(self).offset,
                self.chunk_size == old(self).chunk_size,
                self.target == old(self).target,
                self.matches@.len() <= self.max_matches,
                self.matches@ == old_matches + found@.take(k as int),
            decreases found@.len() - k,
        {
            self.matches.push(found[k]);
            k = k + 1;
            assert(self.matches@ =~= old_matches + found@.take(k as int));
        }
        proof {
            let all = old_matches + found@;
            if all.len() < self.max_matches {
                assert(k == found@.len());
                assert(found@.take(k as int) =~= found@);
            } else {
                assert(old_matches + found@.take(k as int) =~= all.take(self.max_matches as int));
            }
        }
        self.offset = self.offset + self.chunk_size;
    }

    /// Takes the bytes read for the chunk [`Self::next_read`] named, or
    /// `None` if the read failed (the chunk is skipped, not the region),
    /// for an integer target, and moves on to the next chunk.
    pub fn accept(&mut self, bytes: Option<&[u8]>)
        requires
            old(self).well_formed(),
            !old(self).finished(),
            !old(self).target.is_float(),
            match bytes {
                Some(b) => b@.len() == old(self).chunk().1,
                None => true,
            },
        ensures
            final(self).region == old(self).region,
            final(self).target == old(self).target,
            final(self).chunk_size == old(self).chunk_size,
            final(self).max_matches == old(self).max_matches,
            final(self).offset == old(self).offset + old(self).chunk_size,
            final(self).matches@ == capped(
                old(self).matches@ + match bytes {
                    Some(b) => value_matches(old(self).chunk().0, b@, old(self).target),
                    None => Seq::<ScanMatch>::empty(),
                },
                old(self).max_matches as nat,
            ),
            final(self).well_formed(),
    {
        let found = match bytes {
            Some(b) => scan_bytes_for_value(self.region.base_address + self.offset, b, self.target),
            None => Vec::new(),
        };
        self.accept_matches(found);
    }
}

// ---- a whole first scan ---------------------------------------------------------

/// An exact-value first scan across every writable region, one region at a
/// time, each region given what is left of the result limit.
pub struct ExactFirstScan {
    pub target: ScanValue,
    pub options: ScanOptions,
    pub matches: Vec<ScanMatch>,
}

impl ExactFirstScan {
    pub fn new(target: ScanValue, options: ScanOptions) -> (s: Self)
        ensures
            s.target == target,
            s.options == options,
            s.matches@.len() == 0,
    {
        ExactFirstScan { target, options, matches: Vec::new() }
    }

    /// The scan of the next region, with what is left of the result limit
    /// as its own limit, or `None` once the limit is reached and no further
    /// region should be read.
    pub fn region_scan(&self, region: MemoryRegion) -> (r: Option<ExactRegionScan>)
        requires
            self.matches@.len() <= self.options.max_results,
            region.base_address + region.size <= usize::MAX,
            region.size + self.options.chunk_size <= usize::MAX,
            self.options.chunk_size + 8 <= usize::MAX,
        ensures
            match r {
                None => self.matches@.len() == self.options.max_results,
                Some(s) => {
                    &&& self.matches@.len() < self.options.max_results
                    &&& s.well_formed()
                    &&& s.region == region
                    &&& s.target == self.target
                    &&& s.chunk_size == self.options.chunk_size
                    &&& s.max_matches == self.options.max_results - self.matches@.len()
                    &&& s.offset == 0
                    &&& s.matches@.len() == 0
                },
            },
    {
        let budget = self.options.max_results - self.matches.len();
        if budget == 0 {
            return None;
        }
        Some(ExactRegionScan::new(region, self.target, self.options, budget))
    }

    /// Adds the matches a region scan found.
    pub fn absorb(&mut self, scan: ExactRegionScan)
        requires
            old(self).matches@.len() + scan.matches@.len() <= old(self).options.max_results,
        ensures
            final(self).target == old(self).target,
            final(self).options == old(self).options,
            final(self).matches@ == old(self).matches@ + scan.matches@,
            final(self).matches@.len() <= final(self).options.max_results,
    {
        let mut scan = scan;
        self.matches.append(&mut scan.matches);
    }

    /// The result: every match found, and whether the limit was reached.
    pub fn result(self) -> (r: FirstScanResult)
        ensures
            r.matches@ == self.matches@,
            r.capped == (self.matches@.len() >= self.options.max_results),
    {
        let capped = self.matches.len() >= self.options.max_results;
        FirstScanResult { matches: self.matches, capped }
    }
}

// ---- next scan -------------------------------------------------------------------

/// What a next scan keeps of one match, given what re-reading its value
/// gave (`None` when the read failed): a match that can't be re-read is
/// dropped; one whose new value passes the filter against the recorded one
/// keeps its address, takes the new value, and remembers the one it was
/// compared against.
pub open spec fn rescan_value(m: ScanMatch, reread: Option<Seq<u8>>, filter: ScanFilter) -> Option<
    ScanMatch,
> {
    match reread {
        None => None,
        Some(b) => {
            let new = m.value.with_bits(le_value(b));
            if passes(m.value, new, filter) {
                Some(ScanMatch { address: m.address, value: new, previous: m.value })
            } else {
                None
            }
        },
    }
}

/// The survivors among the first `n` matches, in order.
pub open spec fn value_survivors(
    ms: Seq<ScanMatch>,
    rereads: Seq<Option<Seq<u8>>>,
    filter: ScanFilter,
    n: int,
) -> Seq<ScanMatch>
    decreases n,
{
    if n <= 0 {
        seq![]
    } else {
        let rest = value_survivors(ms, rereads, filter, n - 1);
        match rescan_value(ms[n - 1], rereads[n - 1], filter) {
            Some(m) => rest.push(m),
            None => rest,
        }
    }
}

proof fn lemma_same_type_with_bits(v: ScanValue, n: nat)
    ensures
        same_type(v, v.with_bits(n)),
{
}

/// Re-checks previously matched addresses against `filter`. `rereads[i]` is
/// what re-reading `matches[i].value.size()` bytes at `matches[i].address`
/// gave. Surviving matches take the value found now, and the value they
/// were compared against becomes `previous`, so a second `Changed` scan
/// compares against what the first one found.
pub fn next_scan(matches: &[ScanMatch], rereads: &[Option<Vec<u8>>], filter: ScanFilter) -> (r: Vec<
    ScanMatch,
>)
    requires
        rereads@.len() == matches@.len(),
        forall|i: int|
            0 <= i < matches@.len() ==> (#[trigger] rereads@[i] matches Some(b) ==> b@.len()
                == matches@[i].value.spec_size()),
    ensures
        r@ == value_survivors(matches@, reread_views(rereads@), filter, matches@.len() as int),
{
    let ghost rs = reread_views(rereads@);
    let mut out: Vec<ScanMatch> = Vec::new();
    let mut i: usize = 0;
    while i < matches.len()
        invariant
            i <= matches@.len(),
            rereads@.len() == matches@.len(),
            rs == reread_views(rereads@),
            forall|i: int|
                0 <= i < matches@.len() ==> (#[trigger] rereads@[i] matches Some(b) ==> b@.len()
                    == matches@[i].value.spec_size()),
            out@ == value_survivors(matches@, rs, filter, i as int),
        decreases matches@.len() - i,
    {
        let m = matches[i];
        match &rereads[i] {
            None => {
                assert(rs[i as int] is None);
            },
            Some(bytes) => {
                assert(rs[i as int] == Some(bytes@));
                let new_value = m.value.from_le_bytes_like(bytes.as_slice());
                proof {
                    lemma_same_type_with_bits(m.value, le_value(bytes@));
                }
                if passes_filter(m.value, new_value, filter) {
                    out.push(ScanMatch { address: m.address, value: new_value, previous: m.value });
                }
            },
        }
        i = i + 1;
    }
    out
}

/// Everything a next scan keeps passed the filter against the value
/// recorded at its address, keeps that address, and remembers that value
/// as its previous one.
pub proof fn survivors_passed_against_the_recorded_value(
    ms: Seq<ScanMatch>,
    rereads: Seq<Option<Seq<u8>>>,
    filter: ScanFilter,
    n: int,
    j: int,
)
    requires
        0 <= n <= ms.len(),
        n <= rereads.len(),
        0 <= j < value_survivors(ms, rereads, filter, n).len(),
    ensures
        ({
            let s = value_survivors(ms, rereads, filter, n)[j];
            exists|i: int|
                0 <= i < n && s.address == (#[trigger] ms[i]).address && s.previous == ms[i].value
                    && passes(ms[i].value, s.value, filter)
        }),
    decreases n,
{
    let rest = value_survivors(ms, rereads, filter, n - 1);
    if j < rest.len() {
        survivors_passed_against_the_recorded_value(ms, rereads, filter, n - 1, j);
        let s = rest[j];
        let i = choose|i: int|
            0 <= i < n - 1 && s.address == (#[trigger] ms[i]).address && s.previous == ms[i].value
                && passes(ms[i].value, s.value, filter);
        assert(value_survivors(ms, rereads, filter, n)[j] == rest[j]);
        assert(0 <= i < n);
    } else {
        assert(value_survivors(ms, rereads, filter, n)[j] == rescan_value(
            ms[n - 1],
            rereads[n - 1],
            filter,
        )->0);
        assert(0 <= n - 1 < n);
    }
}

} // verus!
