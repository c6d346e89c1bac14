use vstd::prelude::*;

verus! {

/// Whether two strings hold the same characters.
pub fn str_eq(a: &str, b: &str) -> (r: bool)
    ensures
        r == (a@ == b@),
{
    let n = a.unicode_len();
    if n != b.unicode_len() {
        return false;
    }
    let mut i: usize = 0;
    while i < n
        invariant
            n == a@.len(),
            n == b@.len(),
            i <= n,
            forall|j: int| 0 <= j < i ==> a@[j] == b@[j],
        decreases n - i,
    {
        if a.get_char(i) != b.get_char(i) {
            return false;
        }
        i += 1;
    }
    assert(a@ =~= b@);
    true
}

/// The first position at or after `i` where `s` holds `c`.
pub open spec fn index_from(s: Seq<char>, c: char, i: nat) -> Option<nat>
    decreases s.len() - i,
{
    if i >= s.len() {
        None
    } else if s[i as int] == c {
        Some(i)
    } else {
        index_from(s, c, i + 1)
    }
}

pub proof fn lemma_index_from_bound(s: Seq<char>, c: char, i: nat)
    ensures
        index_from(s, c, i) matches Some(k) ==> i <= k < s.len() && s[k as int] == c,
    decreases s.len() - i,
{
    if i < s.len() && s[i as int] != c {
        lemma_index_from_bound(s, c, i + 1);
    }
}

/// The first position of `c` in `s`.
pub fn find_char(s: &str, c: char) -> (r: Option<usize>)
    ensures
        match r {
            Some(k) => index_from(s@, c, 0) == Some(k as nat),
            None => index_from(s@, c, 0) is None,
        },
{
    let n = s.unicode_len();
    let mut i: usize = 0;
    while i < n
        invariant
            n == s@.len(),
            i <= n,
            index_from(s@, c, 0) == index_from(s@, c, i as nat),
        decreases n - i,
    {
        if s.get_char(i) == c {
            return Some(i);
        }
        i += 1;
    }
    None
}

/// Splits `s` around the first `c`, as `str::split_once` does.
pub open spec fn split_once(s: Seq<char>, c: char) -> Option<(Seq<char>, Seq<char>)> {
    match index_from(s, c, 0) {
        Some(k) => Some((s.subrange(0, k as int), s.subrange(k + 1int, s.len() as int))),
        None => None,
    }
}

pub fn split_once_char<'a>(s: &'a str, c: char) -> (r: Option<(&'a str, &'a str)>)
    ensures
        match r {
            Some((a, b)) => split_once(s@, c) == Some((a@, b@)),
            None => split_once(s@, c) is None,
        },
{
    match find_char(s, c) {
        None => None,
        Some(k) => {
            proof {
                lemma_index_from_bound(s@, c, 0);
            }
            let n = s.unicode_len();
            let a = s.substring_char(0, k);
            let b = s.substring_char(k + 1, n);
            Some((a, b))
        },
    }
}

pub open spec fn is_digit(c: char) -> bool {
    '0' <= c && c <= '9'
}

pub open spec fn all_digits(d: Seq<char>) -> bool {
    forall|i: int| 0 <= i < d.len() ==> is_digit(#[trigger] d[i])
}

/// The value of a string of ASCII digits.
pub open spec fn digits_value(d: Seq<char>) -> nat
    decreases d.len(),
{
    if d.len() == 0 {
        0
    } else {
        10 * digits_value(d.drop_last()) + ((d.last() as int) - ('0' as int)) as nat
    }
}

/// The sign and magnitude of a decimal integer text as Rust's integer
/// parsing reads it: an optional `+` or `-`, then one or more ASCII digits.
pub open spec fn decimal_parts(s: Seq<char>) -> Option<(bool, nat)> {
    let signed = s.len() > 0 && (s[0] == '+' || s[0] == '-');
    let d = if signed { s.subrange(1, s.len() as int) } else { s };
    if d.len() > 0 && all_digits(d) {
        Some((signed && s[0] == '-', digits_value(d)))
    } else {
        None
    }
}

/// Magnitudes beyond every limit checked here read as this value.
pub open spec fn magnitude_cap() -> nat {
    0x1_0000_0000_0000_0000
}

pub open spec fn capped(v: nat) -> nat {
    if v < magnitude_cap() { v } else { magnitude_cap() }
}

/// What `str::parse::<i64>` gives for `s`.
pub open spec fn spec_parse_i64(s: Seq<char>) -> Option<i64> {
    match decimal_parts(s) {
        Some((neg, m)) => if neg {
            if m <= 0x8000_0000_0000_0000 { Some((-m) as i64) } else { None }
        } else if m <= i64::MAX {
            Some(m as i64)
        } else {
            None
        },
        None => None,
    }
}

/// What `str::parse` gives for an unsigned type whose largest value is
/// `max`: a leading `-` is refused.
pub open spec fn spec_parse_unsigned(s: Seq<char>, max: nat) -> Option<nat> {
    match decimal_parts(s) {
        Some((neg, m)) => if !neg && m <= max { Some(m) } else { None },
        None => None,
    }
}

proof fn lemma_digits_step(d: Seq<char>, k: int)
    requires
        0 <= k < d.len(),
        is_digit(d[k]),
    ensures
        digits_value(d.subrange(0, k + 1)) == 10 * digits_value(d.subrange(0, k)) + ((d[k] as int) - ('0' as int)),
{
    assert(d.subrange(0, k + 1).drop_last() =~= d.subrange(0, k));
}

/// The sign and the capped magnitude of a decimal integer text.
fn parse_decimal(s: &str) -> (r: Option<(bool, u128)>)
    ensures
        match r {
            Some((neg, m)) => decimal_parts(s@) matches Some((n2, v)) && n2 == neg && m == capped(v),
            None => decimal_parts(s@) is None,
        },
{
    let n = s.unicode_len();
    let signed = n > 0 && (s.get_char(0) == '+' || s.get_char(0) == '-');
    let neg = signed && s.get_char(0) == '-';
    let start: usize = if signed { 1 } else { 0 };
    let ghost d = if signed { s@.subrange(1, s@.len() as int) } else { s@ };
    assert(d =~= s@.subrange(start as int, n as int));
    if start >= n {
        return None;
    }
    let mut acc: u128 = 0;
    let mut i: usize = start;
    while i < n
        invariant
            n == s@.len(),
            start <= i <= n,
            d =~= s@.subrange(start as int, n as int),
            d.len() > 0,
            decimal_parts(s@) == (if all_digits(d) { Some((neg, digits_value(d))) } else { None::<(bool, nat)> }),
            all_digits(d.subrange(0, i - start)),
            acc == capped(digits_value(d.subrange(0, i - start))),
        decreases n - i,
    {
        let c = s.get_char(i);
        if !('0' <= c && c <= '9') {
            assert(!is_digit(d[i - start]));
            return None;
        }
        let digit = (c as u32 - '0' as u32) as u128;
        proof {
            lemma_digits_step(d, i - start);
            assert(d.subrange(0, i - start + 1).drop_last() =~= d.subrange(0, i - start));
        }
        let next = acc * 10 + digit;
        acc = if next < 0x1_0000_0000_0000_0000 { next } else { 0x1_0000_0000_0000_0000 };
        i += 1;
        assert forall|j: int| 0 <= j < i - start implies is_digit(#[trigger] d.subrange(0, i - start)[j]) by {
            if j < i - 1 - start {
                assert(d.subrange(0, i - start)[j] == d.subrange(0, i - 1 - start)[j]);
            }
        }
    }
    assert(d.subrange(0, n - start) =~= d);
    Some((neg, acc))
}

/// Parses a decimal `i64` as `str::parse::<i64>` does.
pub fn parse_i64(s: &str) -> (r: Option<i64>)
    ensures
        r == spec_parse_i64(s@),
{
    match parse_decimal(s) {
        None => None,
        Some((neg, m)) => {
            if neg {
                if m <= 0x8000_0000_0000_0000 {
                    if m == 0x8000_0000_0000_0000 {
                        Some(i64::MIN)
                    } else {
                        Some(-(m as i64))
                    }
                } else {
                    None
                }
            } else if m <= 0x7fff_ffff_ffff_ffff {
                Some(m as i64)
            } else {
                None
            }
        },
    }
}

/// Parses a decimal `u32` as `str::parse::<u32>` does.
pub fn parse_u32(s: &str) -> (r: Option<u32>)
    ensures
        match r {
            Some(v) => spec_parse_unsigned(s@, u32::MAX as nat) == Some(v as nat),
            None => spec_parse_unsigned(s@, u32::MAX as nat) is None,
        },
{
    match parse_decimal(s) {
        None => None,
        Some((neg, m)) => if !neg && m <= 0xffff_ffff {
            Some(m as u32)
        } else {
            None
        },
    }
}

/// Parses a decimal `usize` as `str::parse::<usize>` does.
pub fn parse_usize(s: &str) -> (r: Option<usize>)
    ensures
        match r {
            Some(v) => spec_parse_unsigned(s@, usize::MAX as nat) == Some(v as nat),
            None => spec_parse_unsigned(s@, usize::MAX as nat) is None,
        },
{
    match parse_decimal(s) {
        None => None,
        Some((neg, m)) => if !neg && m <= usize::MAX as u128 {
            Some(m as usize)
        } else {
            None
        },
    }
}

} // verus!
