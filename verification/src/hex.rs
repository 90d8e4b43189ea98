//! Hex digits as `from_str_radix(_, 16)` reads them and as `{:X}` writes
//! them, decimal digits as `str::parse` reads them, and UTF-8 widths.
use vstd::prelude::*;

verus! {

pub open spec fn is_hex(c: char) -> bool {
    ('0' <= c <= '9') || ('a' <= c <= 'f') || ('A' <= c <= 'F')
}

pub open spec fn hex_val(c: char) -> nat {
    if '0' <= c <= '9' {
        ((c as u32) - 48) as nat
    } else if 'a' <= c <= 'f' {
        ((c as u32) - 87) as nat
    } else {
        ((c as u32) - 55) as nat
    }
}

pub fn is_hex_char(c: char) -> (r: bool)
    ensures
        r == is_hex(c),
{
    ('0' <= c && c <= '9') || ('a' <= c && c <= 'f') || ('A' <= c && c <= 'F')
}

pub fn hex_value(c: char) -> (r: u8)
    requires
        is_hex(c),
    ensures
        r == hex_val(c),
        r < 16,
{
    let u = c as u32;
    if '0' <= c && c <= '9' {
        (u - 48) as u8
    } else if 'a' <= c && c <= 'f' {
        (u - 87) as u8
    } else {
        (u - 55) as u8
    }
}

/// The uppercase hex digit for `n < 16`, as `{:X}` writes it.
pub open spec fn hex_digit(n: nat) -> char {
    if n < 10 {
        ((n + 48) as u32) as char
    } else {
        ((n + 55) as u32) as char
    }
}

pub fn hex_digit_char(n: u8) -> (r: char)
    requires
        n < 16,
    ensures
        r == hex_digit(n as nat),
        is_hex(r),
        hex_val(r) == n,
{
    if n < 10 {
        (n + 48) as char
    } else {
        (n + 55) as char
    }
}

pub proof fn lemma_hex_digit(n: nat)
    requires
        n < 16,
    ensures
        is_hex(hex_digit(n)),
        hex_val(hex_digit(n)) == n,
        (hex_digit(n) as u32) < 0x80,
{
}

/// The value of the hex digits `s`, most significant first.
pub open spec fn hex_num(s: Seq<char>) -> nat
    decreases s.len(),
{
    if s.len() == 0 {
        0
    } else {
        hex_num(s.drop_last()) * 16 + hex_val(s.last())
    }
}

pub open spec fn all_hex(s: Seq<char>) -> bool {
    forall|k: int| 0 <= k < s.len() ==> is_hex(#[trigger] s[k])
}

/// What `usize::from_str_radix(s, 16)` accepts: hex digits with an
/// optional leading `+`, at least one digit, and a value that fits.
pub open spec fn radix16_digits(s: Seq<char>) -> Seq<char> {
    if s.len() > 0 && s[0] == '+' {
        s.drop_first()
    } else {
        s
    }
}

pub open spec fn parse_radix16(s: Seq<char>) -> Option<nat> {
    let d = radix16_digits(s);
    if d.len() > 0 && all_hex(d) {
        Some(hex_num(d))
    } else {
        None
    }
}

/// `s` as an unsigned number in base 16, as `usize::from_str_radix` reads
/// it.
pub fn usize_from_hex(s: &Vec<char>, from: usize, to: usize) -> (r: Option<usize>)
    requires
        from <= to <= s.len(),
    ensures
        r == (match parse_radix16(s@.subrange(from as int, to as int)) {
            Some(v) => if v <= usize::MAX {
                Some(v as usize)
            } else {
                None
            },
            None => None,
        }),
{
    let ghost t = s@.subrange(from as int, to as int);
    let mut i = from;
    if i < to && s[i] == '+' {
        i = i + 1;
    }
    let ghost d = s@.subrange(i as int, to as int);
    assert(d =~= radix16_digits(t));
    if i == to {
        return None;
    }
    let mut value: usize = 0;
    let mut overflow = false;
    let start = i;
    while i < to
        invariant
            start <= i <= to <= s.len(),
            start < to,
            d == s@.subrange(start as int, to as int),
            d == radix16_digits(s@.subrange(from as int, to as int)),
            all_hex(s@.subrange(start as int, i as int)),
            !overflow ==> value == hex_num(s@.subrange(start as int, i as int)),
            overflow ==> hex_num(s@.subrange(start as int, i as int)) > usize::MAX,
        decreases to - i,
    {
        let c = s[i];
        if !is_hex_char(c) {
            assert(d[i - start] == c);
            assert(!is_hex(d[i - start]));
            return None;
        }
        let ghost prev = s@.subrange(start as int, i as int);
        let ghost next = s@.subrange(start as int, i + 1);
        assert(next.drop_last() =~= prev);
        assert(next.last() == c);
        let dv = hex_value(c);
        if !overflow {
            if value > (usize::MAX - (dv as usize)) / 16 {
                overflow = true;
                assert(hex_num(next) > usize::MAX) by (nonlinear_arith)
                    requires
                        hex_num(next) == value * 16 + dv,
                        value > (usize::MAX - (dv as usize)) / 16,
                        dv < 16,
                ;
            } else {
                assert(value * 16 + dv <= usize::MAX) by (nonlinear_arith)
                    requires
                        value <= (usize::MAX - (dv as usize)) / 16,
                        dv < 16,
                ;
                value = value * 16 + dv as usize;
            }
        } else {
            assert(hex_num(next) >= hex_num(prev) * 16) by (nonlinear_arith)
                requires
                    hex_num(next) == hex_num(prev) * 16 + hex_val(c),
            ;
            assert(hex_num(next) > usize::MAX) by (nonlinear_arith)
                requires
                    hex_num(next) >= hex_num(prev) * 16,
                    hex_num(prev) > usize::MAX,
            ;
        }
        i = i + 1;
        assert(all_hex(s@.subrange(start as int, i as int))) by {
            assert forall|k: int| 0 <= k < next.len() implies is_hex(#[trigger] next[k]) by {
                if k < prev.len() {
                    assert(next[k] == prev[k]);
                }
            }
        }
    }
    if overflow {
        None
    } else {
        Some(value)
    }
}

/// Whether `c` is an ASCII decimal digit.
pub open spec fn is_dec(c: char) -> bool {
    '0' <= c <= '9'
}

pub open spec fn dec_num(s: Seq<char>) -> nat
    decreases s.len(),
{
    if s.len() == 0 {
        0
    } else {
        dec_num(s.drop_last()) * 10 + ((s.last() as u32) - 48) as nat
    }
}

pub open spec fn all_dec(s: Seq<char>) -> bool {
    forall|k: int| 0 <= k < s.len() ==> is_dec(#[trigger] s[k])
}

/// What `s.parse::<usize>()` accepts: decimal digits with an optional
/// leading `+`, at least one digit, and a value that fits.
pub open spec fn parse_decimal(s: Seq<char>) -> Option<nat> {
    let d = radix16_digits(s);
    if d.len() > 0 && all_dec(d) {
        Some(dec_num(d))
    } else {
        None
    }
}

/// `s` as an unsigned decimal number, as `str::parse::<usize>` reads it.
pub fn usize_from_decimal(s: &Vec<char>, from: usize, to: usize) -> (r: Option<usize>)
    requires
        from <= to <= s.len(),
    ensures
        r == (match parse_decimal(s@.subrange(from as int, to as int)) {
            Some(v) => if v <= usize::MAX {
                Some(v as usize)
            } else {
                None
            },
            None => None,
        }),
{
    let ghost t = s@.subrange(from as int, to as int);
    let mut i = from;
    if i < to && s[i] == '+' {
        i = i + 1;
    }
    let ghost d = s@.subrange(i as int, to as int);
    assert(d =~= radix16_digits(t));
    if i == to {
        return None;
    }
    let mut value: usize = 0;
    let mut overflow = false;
    let start = i;
    while i < to
        invariant
            start <= i <= to <= s.len(),
            start < to,
            d == s@.subrange(start as int, to as int),
            d == radix16_digits(s@.subrange(from as int, to as int)),
            all_dec(s@.subrange(start as int, i as int)),
            !overflow ==> value == dec_num(s@.subrange(start as int, i as int)),
            overflow ==> dec_num(s@.subrange(start as int, i as int)) > usize::MAX,
        decreases to - i,
    {
        let c = s[i];
        if !('0' <= c && c <= '9') {
            assert(d[i - start] == c);
            assert(!is_dec(d[i - start]));
            return None;
        }
        let ghost prev = s@.subrange(start as int, i as int);
        let ghost next = s@.subrange(start as int, i + 1);
        assert(next.drop_last() =~= prev);
        assert(next.last() == c);
        let dv = ((c as u32) - 48) as usize;
        if !overflow {
            if value > (usize::MAX - dv) / 10 {
                overflow = true;
                assert(dec_num(next) > usize::MAX) by (nonlinear_arith)
                    requires
                        dec_num(next) == value * 10 + dv,
                        value > (usize::MAX - dv) / 10,
                        dv < 10,
                ;
            } else {
                assert(value * 10 + dv <= usize::MAX) by (nonlinear_arith)
                    requires
                        value <= (usize::MAX - dv) / 10,
                        dv < 10,
                ;
                value = value * 10 + dv;
            }
        } else {
            assert(dec_num(next) > usize::MAX) by (nonlinear_arith)
                requires
                    dec_num(next) == dec_num(prev) * 10 + ((c as u32) - 48) as nat,
                    dec_num(prev) > usize::MAX,
            ;
        }
        i = i + 1;
        assert(all_dec(s@.subrange(start as int, i as int))) by {
            assert forall|k: int| 0 <= k < next.len() implies is_dec(#[trigger] next[k]) by {
                if k < prev.len() {
                    assert(next[k] == prev[k]);
                }
            }
        }
    }
    if overflow {
        None
    } else {
        Some(value)
    }
}

/// The decimal digits of `n`, as `{}` writes it.
pub open spec fn decimal(n: nat) -> Seq<char>
    decreases n,
{
    if n < 10 {
        seq![((n + 48) as u32) as char]
    } else {
        decimal(n / 10).push((((n % 10) + 48) as u32) as char)
    }
}

/// `n` written in decimal.
pub fn decimal_string(n: usize) -> (r: Vec<char>)
    ensures
        r@ == decimal(n as nat),
    decreases n,
{
    if n < 10 {
        let mut r: Vec<char> = Vec::new();
        r.push(((n as u8) + 48) as char);
        assert(r@ =~= decimal(n as nat));
        r
    } else {
        let mut r = decimal_string(n / 10);
        r.push((((n % 10) as u8) + 48) as char);
        r
    }
}

/// The uppercase hex digits of `n`, as `{:X}` writes it.
pub open spec fn hex_upper(n: nat) -> Seq<char>
    decreases n,
{
    if n < 16 {
        seq![hex_digit(n)]
    } else {
        hex_upper(n / 16).push(hex_digit(n % 16))
    }
}

/// `{:X}` writes at least one digit, every one an uppercase hex digit, and
/// reading the digits back gives `n`.
pub proof fn lemma_hex_upper_reads_back(n: nat)
    ensures
        hex_upper(n).len() > 0,
        forall|k: int|
            0 <= k < hex_upper(n).len() ==> is_hex(#[trigger] hex_upper(n)[k]) && (hex_upper(n)[k]
                as u32) < 0x47 && ('0' <= hex_upper(n)[k] <= '9' || 'A' <= hex_upper(n)[k] <= 'F'),
        hex_num(hex_upper(n)) == n,
    decreases n,
{
    lemma_hex_digit(n % 16);
    if n < 16 {
        lemma_hex_digit(n);
        assert(hex_upper(n).drop_last() =~= Seq::<char>::empty());
        assert(hex_num(hex_upper(n)) == hex_num(Seq::<char>::empty()) * 16 + hex_val(hex_digit(n)));
    } else {
        lemma_hex_upper_reads_back(n / 16);
        let h = hex_upper(n);
        assert(h.drop_last() =~= hex_upper(n / 16));
        assert(h.last() == hex_digit(n % 16));
        assert(hex_num(h) == hex_num(hex_upper(n / 16)) * 16 + hex_val(hex_digit(n % 16)));
        vstd::arithmetic::div_mod::lemma_fundamental_div_mod(n as int, 16);
    }
}

/// `n` written in uppercase hex.
pub fn hex_upper_string(n: u64) -> (r: Vec<char>)
    ensures
        r@ == hex_upper(n as nat),
    decreases n,
{
    if n < 16 {
        let mut r: Vec<char> = Vec::new();
        r.push(hex_digit_char(n as u8));
        assert(r@ =~= hex_upper(n as nat));
        r
    } else {
        let mut r = hex_upper_string(n / 16);
        r.push(hex_digit_char((n % 16) as u8));
        r
    }
}

/// The number of bytes `c` takes in UTF-8.
pub open spec fn utf8_width(c: char) -> nat {
    let u = c as u32;
    if u < 0x80 {
        1
    } else if u < 0x800 {
        2
    } else if u < 0x10000 {
        3
    } else {
        4
    }
}

/// Hex digits are read whatever their case: `0`-`9` are worth 0-9, `a`-`f`
/// and `A`-`F` are worth 10-15, and nothing else is a hex digit.
pub proof fn hex_digits_are_read_in_either_case(c: char)
    ensures
        is_hex(c) <==> ('0' <= c <= '9' || 'a' <= c <= 'f' || 'A' <= c <= 'F'),
        '0' <= c <= '9' ==> hex_val(c) == (c as u32) - ('0' as u32),
        'a' <= c <= 'f' ==> hex_val(c) == (c as u32) - ('a' as u32) + 10,
        'A' <= c <= 'F' ==> hex_val(c) == (c as u32) - ('A' as u32) + 10,
        'a' <= c <= 'f' ==> is_hex(crate::strings::upper_char(c)) && hex_val(crate::strings::upper_char(c))
            == hex_val(c),
{
}

} // verus!
