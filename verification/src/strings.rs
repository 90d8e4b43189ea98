//! Character-sequence primitives shared by the parsers: whitespace and
//! trimming as `str` defines them, ASCII case folding, line splitting as
//! `str::lines` does it, and the conversions between `&str`, `Vec<char>` and
//! `String`.
use vstd::prelude::*;
use vstd::std_specs::iter::IteratorSpec;

verus! {

broadcast use vstd::string::group_string_axioms;

/// Unicode `White_Space`, the property `char::is_whitespace` tests.
pub open spec fn is_ws(c: char) -> bool {
    let u = c as u32;
    ||| 0x09 <= u <= 0x0D
    ||| u == 0x20
    ||| u == 0x85
    ||| u == 0xA0
    ||| u == 0x1680
    ||| 0x2000 <= u <= 0x200A
    ||| u == 0x2028
    ||| u == 0x2029
    ||| u == 0x202F
    ||| u == 0x205F
    ||| u == 0x3000
}

pub fn is_whitespace(c: char) -> (r: bool)
    ensures
        r == is_ws(c),
{
    let u = c as u32;
    (0x09 <= u && u <= 0x0D) || u == 0x20 || u == 0x85 || u == 0xA0 || u == 0x1680 || (0x2000
        <= u && u <= 0x200A) || u == 0x2028 || u == 0x2029 || u == 0x202F || u == 0x205F || u
        == 0x3000
}

/// `s` without its leading whitespace.
pub open spec fn trim_start(s: Seq<char>) -> Seq<char>
    decreases s.len(),
{
    if s.len() > 0 && is_ws(s[0]) {
        trim_start(s.drop_first())
    } else {
        s
    }
}

/// `s` without its trailing whitespace.
pub open spec fn trim_end(s: Seq<char>) -> Seq<char>
    decreases s.len(),
{
    if s.len() > 0 && is_ws(s.last()) {
        trim_end(s.drop_last())
    } else {
        s
    }
}

/// What `str::trim` leaves of `s`.
pub open spec fn trim(s: Seq<char>) -> Seq<char> {
    trim_end(trim_start(s))
}

pub proof fn lemma_trim_start_skip(s: Seq<char>, i: int)
    requires
        0 <= i <= s.len(),
        forall|k: int| 0 <= k < i ==> is_ws(#[trigger] s[k]),
    ensures
        trim_start(s) == trim_start(s.skip(i)),
    decreases i,
{
    if i > 0 {
        assert(s.drop_first().skip(i - 1) =~= s.skip(i));
        lemma_trim_start_skip(s.drop_first(), i - 1);
    } else {
        assert(s.skip(0) =~= s);
    }
}

pub proof fn lemma_trim_end_take(s: Seq<char>, j: int)
    requires
        0 <= j <= s.len(),
        forall|k: int| j <= k < s.len() ==> is_ws(#[trigger] s[k]),
    ensures
        trim_end(s) == trim_end(s.take(j)),
    decreases s.len() - j,
{
    if j < s.len() {
        assert(s.drop_last().take(j) =~= s.take(j));
        lemma_trim_end_take(s.drop_last(), j);
    } else {
        assert(s.take(j) =~= s);
    }
}

/// The bounds of `str::trim` within `s[from..to]`.
pub fn trim_bounds(s: &Vec<char>, from: usize, to: usize) -> (r: (usize, usize))
    requires
        from <= to <= s.len(),
    ensures
        from <= r.0 <= r.1 <= to,
        s@.subrange(r.0 as int, r.1 as int) == trim(s@.subrange(from as int, to as int)),
        r.0 == r.1 <==> trim(s@.subrange(from as int, to as int)).len() == 0,
{
    let ghost t = s@.subrange(from as int, to as int);
    let mut i = from;
    while i < to && is_whitespace(s[i])
        invariant
            from <= i <= to <= s.len(),
            t == s@.subrange(from as int, to as int),
            forall|k: int| from <= k < i ==> is_ws(#[trigger] s@[k]),
        decreases to - i,
    {
        i = i + 1;
    }
    proof {
        assert forall|k: int| 0 <= k < i - from implies is_ws(#[trigger] t[k]) by {
            assert(t[k] == s@[k + from]);
        }
        lemma_trim_start_skip(t, i - from);
        assert(t.skip(i - from) =~= s@.subrange(i as int, to as int));
    }
    let ghost u = s@.subrange(i as int, to as int);
    assert(i < to ==> !is_ws(u[0]));
    assert(trim_start(u) == u);
    let mut j = to;
    while j > i && is_whitespace(s[j - 1])
        invariant
            from <= i <= j <= to <= s.len(),
            u == s@.subrange(i as int, to as int),
            forall|k: int| j <= k < to ==> is_ws(#[trigger] s@[k]),
        decreases j - i,
    {
        j = j - 1;
    }
    proof {
        assert forall|k: int| j - i <= k < u.len() implies is_ws(#[trigger] u[k]) by {
            assert(u[k] == s@[k + i]);
        }
        lemma_trim_end_take(u, j - i);
        assert(u.take(j - i) =~= s@.subrange(i as int, j as int));
        let w = s@.subrange(i as int, j as int);
        if w.len() > 0 {
            assert(w.last() == s@[j - 1]);
        }
    }
    (i, j)
}

/// The ASCII-uppercase form of `c`, as `char::to_ascii_uppercase` gives it.
pub open spec fn upper_char(c: char) -> char {
    if 'a' <= c <= 'z' {
        ((c as u32) - 32) as char
    } else {
        c
    }
}

pub open spec fn upper(s: Seq<char>) -> Seq<char> {
    s.map_values(|c: char| upper_char(c))
}

/// The lowercase counterpart of [`upper_char`].
pub open spec fn lower_char(c: char) -> char {
    if 'A' <= c <= 'Z' {
        ((c as u32) + 32) as char
    } else {
        c
    }
}

pub open spec fn lower(s: Seq<char>) -> Seq<char> {
    s.map_values(|c: char| lower_char(c))
}

pub fn upper_char_exec(c: char) -> (r: char)
    ensures
        r == upper_char(c),
{
    if 'a' <= c && c <= 'z' {
        let u = (c as u32) - 32;
        assert(u < 128);
        char_from_ascii(u as u8)
    } else {
        c
    }
}

pub fn lower_char_exec(c: char) -> (r: char)
    ensures
        r == lower_char(c),
{
    if 'A' <= c && c <= 'Z' {
        let u = (c as u32) + 32;
        assert(u < 128);
        char_from_ascii(u as u8)
    } else {
        c
    }
}

/// The character with ASCII code `b`.
pub fn char_from_ascii(b: u8) -> (r: char)
    requires
        b < 128,
    ensures
        r == (b as u32) as char,
        r as u32 == b as u32,
{
    b as char
}

/// The characters of `s[from..to]`, ASCII-uppercased.
pub fn upper_range(s: &Vec<char>, from: usize, to: usize) -> (r: Vec<char>)
    requires
        from <= to <= s.len(),
    ensures
        r@ == upper(s@.subrange(from as int, to as int)),
{
    let mut r: Vec<char> = Vec::new();
    let mut i = from;
    while i < to
        invariant
            from <= i <= to <= s.len(),
            r@ == upper(s@.subrange(from as int, i as int)),
        decreases to - i,
    {
        r.push(upper_char_exec(s[i]));
        i = i + 1;
        assert(r@ =~= upper(s@.subrange(from as int, i as int)));
    }
    r
}

/// The characters of `s[from..to]`, ASCII-lowercased.
pub fn lower_range(s: &Vec<char>, from: usize, to: usize) -> (r: Vec<char>)
    requires
        from <= to <= s.len(),
    ensures
        r@ == lower(s@.subrange(from as int, to as int)),
{
    let mut r: Vec<char> = Vec::new();
    let mut i = from;
    while i < to
        invariant
            from <= i <= to <= s.len(),
            r@ == lower(s@.subrange(from as int, i as int)),
        decreases to - i,
    {
        r.push(lower_char_exec(s[i]));
        i = i + 1;
        assert(r@ =~= lower(s@.subrange(from as int, i as int)));
    }
    r
}

/// Whether `s` equals `t` (exactly as many characters, all equal).
pub fn same_chars(s: &Vec<char>, t: &Vec<char>) -> (r: bool)
    ensures
        r == (s@ == t@),
{
    if s.len() != t.len() {
        return false;
    }
    let mut i: usize = 0;
    while i < s.len()
        invariant
            s.len() == t.len(),
            0 <= i <= s.len(),
            s@.take(i as int) == t@.take(i as int),
        decreases s.len() - i,
    {
        if s[i] != t[i] {
            assert(s@[i as int] != t@[i as int]);
            return false;
        }
        i = i + 1;
        assert(s@.take(i as int) =~= t@.take(i as int));
    }
    assert(s@ =~= s@.take(i as int));
    assert(t@ =~= t@.take(i as int));
    true
}

/// Whether `s[at..]` starts with `pat`.
pub fn matches_at(s: &Vec<char>, at: usize, pat: &Vec<char>) -> (r: bool)
    requires
        at <= s.len(),
    ensures
        r == (at + pat.len() <= s.len() && s@.subrange(at as int, at + pat.len()) == pat@),
{
    if pat.len() > s.len() - at {
        return false;
    }
    let mut k: usize = 0;
    while k < pat.len()
        invariant
            at + pat.len() <= s.len(),
            0 <= k <= pat.len(),
            s@.subrange(at as int, at + k) == pat@.take(k as int),
        decreases pat.len() - k,
    {
        if s[at + k] != pat[k] {
            assert(s@.subrange(at as int, at + pat.len())[k as int] != pat@[k as int]);
            return false;
        }
        k = k + 1;
        assert(s@.subrange(at as int, at + k) =~= pat@.take(k as int));
    }
    assert(pat@.take(k as int) =~= pat@);
    true
}

/// The characters of `text`.
pub fn chars_of(text: &str) -> (out: Vec<char>)
    ensures
        out@ == text@,
{
    let mut out: Vec<char> = Vec::new();
    let mut it = text.chars();
    let ghost all = text@;
    loop
        invariant
            it.obeys_prophetic_iter_laws(),
            it.decrease() is Some,
            out@ + it.remaining() == all,
        ensures
            out@ == all,
        decreases it.decrease()->0,
    {
        match it.next() {
            Some(c) => {
                out.push(c);
                assert(out@ + it.remaining() =~= all);
            },
            None => {
                assert(out@ =~= all);
                break;
            },
        }
    }
    out
}

/// Appends `c` to `s`, through `String::push`.
#[verifier::external_body]
pub(crate) fn push_char(s: &mut String, c: char)
    ensures
        final(s)@ == old(s)@.push(c),
{
    s.push(c);
}

/// The string holding `chars[from..to]`.
pub fn string_of_range(chars: &Vec<char>, from: usize, to: usize) -> (s: String)
    requires
        from <= to <= chars.len(),
    ensures
        s@ == chars@.subrange(from as int, to as int),
{
    let mut s = String::new();
    let mut i = from;
    while i < to
        invariant
            from <= i <= to <= chars.len(),
            s@ == chars@.subrange(from as int, i as int),
        decreases to - i,
    {
        push_char(&mut s, chars[i]);
        i = i + 1;
        assert(s@ =~= chars@.subrange(from as int, i as int));
    }
    s
}

/// The string holding `chars`.
pub fn string_of(chars: &Vec<char>) -> (s: String)
    ensures
        s@ == chars@,
{
    let s = string_of_range(chars, 0, chars.len());
    assert(chars@.subrange(0, chars@.len() as int) =~= chars@);
    s
}

/// `s` followed by the characters of `tail`.
pub fn append_chars(s: &mut String, tail: &Vec<char>)
    ensures
        final(s)@ == old(s)@ + tail@,
{
    let mut i: usize = 0;
    while i < tail.len()
        invariant
            0 <= i <= tail.len(),
            s@ == old(s)@ + tail@.take(i as int),
        decreases tail.len() - i,
    {
        push_char(s, tail[i]);
        i = i + 1;
        assert(s@ =~= old(s)@ + tail@.take(i as int));
    }
    assert(tail@.take(i as int) =~= tail@);
}

/// A new string made of `a` and then `b`.
pub fn concat_str(a: &str, b: &str) -> (s: String)
    ensures
        s@ == a@ + b@,
{
    let mut s = String::new();
    append_chars(&mut s, &chars_of(a));
    append_chars(&mut s, &chars_of(b));
    assert(s@ =~= a@ + b@);
    s
}

/// The position of the first `c` in `s[from..]`.
pub open spec fn first_from(s: Seq<char>, from: int, c: char) -> Option<int>
    decreases s.len() - from,
{
    if from < 0 || from >= s.len() {
        None
    } else if s[from] == c {
        Some(from)
    } else {
        first_from(s, from + 1, c)
    }
}

pub proof fn lemma_first_from_none(s: Seq<char>, from: int, c: char)
    requires
        0 <= from <= s.len(),
        forall|k: int| from <= k < s.len() ==> s[k] != c,
    ensures
        first_from(s, from, c) is None,
    decreases s.len() - from,
{
    if from < s.len() {
        lemma_first_from_none(s, from + 1, c);
    }
}

pub proof fn lemma_first_from_some(s: Seq<char>, from: int, j: int, c: char)
    requires
        0 <= from <= j < s.len(),
        s[j] == c,
        forall|k: int| from <= k < j ==> s[k] != c,
    ensures
        first_from(s, from, c) == Some(j),
    decreases j - from,
{
    if from < j {
        lemma_first_from_some(s, from + 1, j, c);
    }
}

/// The position of the first `c` in `s[from..]`.
pub fn find_char(s: &Vec<char>, from: usize, c: char) -> (r: Option<usize>)
    requires
        from <= s.len(),
    ensures
        r matches Some(j) ==> j < s.len(),
        r == (match first_from(s@, from as int, c) {
            Some(j) => Some(j as usize),
            None => None,
        }),
{
    let mut j = from;
    while j < s.len()
        invariant
            from <= j <= s.len(),
            forall|k: int| from <= k < j ==> s@[k] != c,
        decreases s.len() - j,
    {
        if s[j] == c {
            proof {
                lemma_first_from_some(s@, from as int, j as int, c);
            }
            return Some(j);
        }
        j = j + 1;
    }
    proof {
        lemma_first_from_none(s@, from as int, c);
    }
    None
}

// ---- line splitting ----------------------------------------------------------

/// The pieces of `s[..n]` split on `'\n'`: the finished pieces, and the
/// piece still open at position `n`.
pub open spec fn split_state(s: Seq<char>, n: int) -> (Seq<Seq<char>>, Seq<char>)
    decreases n,
{
    if n <= 0 {
        (seq![], seq![])
    } else {
        let (done, cur) = split_state(s, n - 1);
        if s[n - 1] == '\n' {
            (done.push(cur), seq![])
        } else {
            (done, cur.push(s[n - 1]))
        }
    }
}

/// `line` without a `'\r'` that ends it.
pub open spec fn strip_cr(line: Seq<char>) -> Seq<char> {
    if line.len() > 0 && line.last() == '\r' {
        line.drop_last()
    } else {
        line
    }
}

/// What `str::lines` yields for `s`: the text split at each `'\n'`, each
/// line that a `'\n'` ends without the `'\r'` of a `"\r\n"` ending, and
/// no empty piece after a final line ending.
pub open spec fn lines(s: Seq<char>) -> Seq<Seq<char>> {
    let (done, cur) = split_state(s, s.len() as int);
    let ended = done.map_values(|l: Seq<char>| strip_cr(l));
    if cur.len() == 0 {
        ended
    } else {
        ended.push(cur)
    }
}

/// The views of a vector of character vectors.
pub open spec fn views(v: Seq<Vec<char>>) -> Seq<Seq<char>> {
    v.map_values(|l: Vec<char>| l@)
}

/// A copy of `v`.
pub fn clone_chars(v: &Vec<char>) -> (r: Vec<char>)
    ensures
        r@ == v@,
{
    let mut r: Vec<char> = Vec::new();
    let mut i: usize = 0;
    while i < v.len()
        invariant
            0 <= i <= v.len(),
            r@ == v@.take(i as int),
        decreases v.len() - i,
    {
        r.push(v[i]);
        i = i + 1;
        assert(r@ =~= v@.take(i as int));
    }
    assert(v@.take(i as int) =~= v@);
    r
}

/// `line` without a final `'\r'`.
pub fn strip_cr_vec(line: Vec<char>) -> (r: Vec<char>)
    ensures
        r@ == strip_cr(line@),
{
    let ghost orig = line@;
    let mut line = line;
    if line.len() > 0 && line[line.len() - 1] == '\r' {
        line.pop();
        assert(line@ =~= orig.drop_last());
    }
    line
}

/// The lines of `s`, as `str::lines` splits them.
pub fn lines_of(s: &Vec<char>) -> (r: Vec<Vec<char>>)
    ensures
        views(r@) == lines(s@),
{
    let mut done: Vec<Vec<char>> = Vec::new();
    let mut cur: Vec<char> = Vec::new();
    let mut i: usize = 0;
    while i < s.len()
        invariant
            0 <= i <= s.len(),
            views(done@) == split_state(s@, i as int).0.map_values(|l: Seq<char>| strip_cr(l)),
            cur@ == split_state(s@, i as int).1,
        decreases s.len() - i,
    {
        let ghost old_done = done@;
        let ghost prev = split_state(s@, i as int);
        if s[i] == '\n' {
            let piece = strip_cr_vec(cur);
            done.push(piece);
            cur = Vec::new();
            proof {
                assert(split_state(s@, i + 1) == (prev.0.push(prev.1), Seq::<char>::empty()));
                assert(views(done@) =~= views(old_done).push(strip_cr(prev.1)));
                assert(prev.0.push(prev.1).map_values(|l: Seq<char>| strip_cr(l)) =~= prev.0.map_values(
                    |l: Seq<char>| strip_cr(l),
                ).push(strip_cr(prev.1)));
            }
        } else {
            cur.push(s[i]);
            proof {
                assert(split_state(s@, i + 1) == (prev.0, prev.1.push(s@[i as int])));
            }
        }
        i = i + 1;
    }
    let ghost before = done@;
    if cur.len() > 0 {
        let ghost last = cur@;
        done.push(cur);
        assert(views(done@) =~= views(before).push(last));
    }
    done
}

// ---- searching from the end, and trimming one character -------------------------

/// The position of the last `c` in `s[..n]`.
pub open spec fn last_before(s: Seq<char>, n: int, c: char) -> Option<int>
    decreases n,
{
    if n <= 0 {
        None
    } else if s[n - 1] == c {
        Some(n - 1)
    } else {
        last_before(s, n - 1, c)
    }
}

pub proof fn lemma_last_before_range(s: Seq<char>, n: int, c: char)
    requires
        n <= s.len(),
    ensures
        last_before(s, n, c) matches Some(k) ==> 0 <= k < n && s[k] == c,
        last_before(s, n, c) is None ==> forall|k: int| 0 <= k < n ==> s[k] != c,
    decreases n,
{
    if n > 0 && s[n - 1] != c {
        lemma_last_before_range(s, n - 1, c);
    }
}

/// The position of the last `c` in `s`.
pub fn rfind_char(s: &Vec<char>, c: char) -> (r: Option<usize>)
    ensures
        r == (match last_before(s@, s@.len() as int, c) {
            Some(k) => Some(k as usize),
            None => None::<usize>,
        }),
        r matches Some(k) ==> k < s@.len() && s@[k as int] == c,
{
    let mut n = s.len();
    while n > 0
        invariant
            n <= s.len(),
            last_before(s@, s@.len() as int, c) == last_before(s@, n as int, c),
        decreases n,
    {
        if s[n - 1] == c {
            return Some(n - 1);
        }
        n = n - 1;
    }
    None
}

/// `s` without every `c` it starts with.
pub open spec fn drop_leading(s: Seq<char>, c: char) -> Seq<char>
    decreases s.len(),
{
    if s.len() > 0 && s[0] == c {
        drop_leading(s.drop_first(), c)
    } else {
        s
    }
}

/// `s` without every `c` it ends with.
pub open spec fn drop_trailing(s: Seq<char>, c: char) -> Seq<char>
    decreases s.len(),
{
    if s.len() > 0 && s.last() == c {
        drop_trailing(s.drop_last(), c)
    } else {
        s
    }
}

/// What `str::trim_matches(c)` leaves of `s`.
pub open spec fn trim_char(s: Seq<char>, c: char) -> Seq<char> {
    drop_trailing(drop_leading(s, c), c)
}

proof fn lemma_drop_leading_skip(s: Seq<char>, c: char, i: int)
    requires
        0 <= i <= s.len(),
        forall|k: int| 0 <= k < i ==> s[k] == c,
    ensures
        drop_leading(s, c) == drop_leading(s.skip(i), c),
    decreases i,
{
    if i > 0 {
        assert(s.drop_first().skip(i - 1) =~= s.skip(i));
        lemma_drop_leading_skip(s.drop_first(), c, i - 1);
    } else {
        assert(s.skip(0) =~= s);
    }
}

proof fn lemma_drop_trailing_take(s: Seq<char>, c: char, j: int)
    requires
        0 <= j <= s.len(),
        forall|k: int| j <= k < s.len() ==> s[k] == c,
    ensures
        drop_trailing(s, c) == drop_trailing(s.take(j), c),
    decreases s.len() - j,
{
    if j < s.len() {
        assert(s.drop_last().take(j) =~= s.take(j));
        lemma_drop_trailing_take(s.drop_last(), c, j);
    } else {
        assert(s.take(j) =~= s);
    }
}

/// The bounds of `str::trim_matches(c)` within `s[from..to]`.
pub fn trim_char_bounds(s: &Vec<char>, from: usize, to: usize, c: char) -> (r: (usize, usize))
    requires
        from <= to <= s.len(),
    ensures
        from <= r.0 <= r.1 <= to,
        s@.subrange(r.0 as int, r.1 as int) == trim_char(s@.subrange(from as int, to as int), c),
{
    let ghost t = s@.subrange(from as int, to as int);
    let mut i = from;
    while i < to && s[i] == c
        invariant
            from <= i <= to <= s.len(),
            forall|k: int| from <= k < i ==> s@[k] == c,
        decreases to - i,
    {
        i = i + 1;
    }
    proof {
        assert forall|k: int| 0 <= k < i - from implies t[k] == c by {
            assert(t[k] == s@[k + from]);
        }
        lemma_drop_leading_skip(t, c, i - from);
        assert(t.skip(i - from) =~= s@.subrange(i as int, to as int));
    }
    let ghost u = s@.subrange(i as int, to as int);
    assert(i < to ==> u[0] != c);
    assert(drop_leading(u, c) == u);
    let mut j = to;
    while j > i && s[j - 1] == c
        invariant
            from <= i <= j <= to <= s.len(),
            forall|k: int| j <= k < to ==> s@[k] == c,
        decreases j - i,
    {
        j = j - 1;
    }
    proof {
        assert forall|k: int| j - i <= k < u.len() implies u[k] == c by {
            assert(u[k] == s@[k + i]);
        }
        lemma_drop_trailing_take(u, c, j - i);
        assert(u.take(j - i) =~= s@.subrange(i as int, j as int));
        let w = s@.subrange(i as int, j as int);
        if w.len() > 0 {
            assert(w.last() == s@[j - 1]);
        }
    }
    (i, j)
}

// ---- debug formatting ---------------------------------------------------------------

/// What `{:?}` writes for a string: quoted, with escapes.
pub uninterp spec fn debug_str(s: Seq<char>) -> Seq<char>;

/// `s` as `{:?}` writes it, quotes and escapes included.
#[verifier::external_body]
pub(crate) fn str_debug_text(s: &str) -> (r: String)
    ensures
        r@ == debug_str(s@),
{
    format!("{s:?}")
}

} // verus!
