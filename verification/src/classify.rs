//! The value classifier: infers a semantic kind for a raw string through an
//! ordered recognizer cascade.
//!
//! Every recognizer is a pure function of the character sequence, specified
//! exactly by a spec function and implemented by a verified scanner.  The
//! cascade tries, in order: IPv4 literal, unsigned 16-bit integer, signed
//! 64-bit integer, floating-point literal (kept as text), boolean literal,
//! remote path (`[user@]host:path`), local path (leading `./`, `../`, `/`,
//! or a bare filename with a recognized archive/script/image extension),
//! `http(s)://` URL, and a loose fallback pattern for IPv4/IPv6-looking
//! strings; the first success wins and `RawString` is the fallback.

use vstd::prelude::*;

use crate::parser_structs::{CLArgument, CLArgumentView};

verus! {

// ---------------------------------------------------------------------------
// Character classes
// ---------------------------------------------------------------------------

pub open spec fn is_digit(c: char) -> bool {
    '0' as u32 <= c as u32 && c as u32 <= '9' as u32
}

pub open spec fn is_lower(c: char) -> bool {
    'a' as u32 <= c as u32 && c as u32 <= 'z' as u32
}

pub open spec fn is_upper(c: char) -> bool {
    'A' as u32 <= c as u32 && c as u32 <= 'Z' as u32
}

pub open spec fn is_letter(c: char) -> bool {
    is_lower(c) || is_upper(c)
}

pub open spec fn is_alnum(c: char) -> bool {
    is_letter(c) || is_digit(c)
}

pub open spec fn is_hex_digit(c: char) -> bool {
    is_digit(c) || ('a' as u32 <= c as u32 && c as u32 <= 'f' as u32) || ('A' as u32 <= c as u32
        && c as u32 <= 'F' as u32)
}

/// Characters accepted in the path part of remote and local paths.
pub open spec fn is_path_char(c: char) -> bool {
    is_alnum(c) || c == '/' || c == '.' || c == '_' || c == '-'
}

fn digit(c: char) -> (b: bool)
    ensures
        b == is_digit(c),
{
    '0' <= c && c <= '9'
}

fn letter(c: char) -> (b: bool)
    ensures
        b == is_letter(c),
{
    ('a' <= c && c <= 'z') || ('A' <= c && c <= 'Z')
}

fn alnum(c: char) -> (b: bool)
    ensures
        b == is_alnum(c),
{
    letter(c) || digit(c)
}

fn hex_digit(c: char) -> (b: bool)
    ensures
        b == is_hex_digit(c),
{
    digit(c) || ('a' <= c && c <= 'f') || ('A' <= c && c <= 'F')
}

fn path_char(c: char) -> (b: bool)
    ensures
        b == is_path_char(c),
{
    alnum(c) || c == '/' || c == '.' || c == '_' || c == '-'
}

// ---------------------------------------------------------------------------
// Digit strings and their numeric value
// ---------------------------------------------------------------------------

pub open spec fn all_digits(s: Seq<char>) -> bool {
    forall|i: int| 0 <= i < s.len() ==> is_digit(#[trigger] s[i])
}

/// Value of a digit string read in base ten.
pub open spec fn digits_val(s: Seq<char>) -> int
    decreases s.len(),
{
    if s.len() == 0 {
        0
    } else {
        digits_val(s.drop_last()) * 10 + (s.last() as u32 - '0' as u32)
    }
}

pub proof fn lemma_digits_val_nonneg(s: Seq<char>)
    requires
        all_digits(s),
    ensures
        digits_val(s) >= 0,
    decreases s.len(),
{
    if s.len() > 0 {
        assert(all_digits(s.drop_last()));
        lemma_digits_val_nonneg(s.drop_last());
    }
}

/// Extending a digit string never decreases its value.
pub proof fn lemma_digits_val_prefix_le(s: Seq<char>, i: int)
    requires
        all_digits(s),
        0 <= i <= s.len(),
    ensures
        digits_val(s.take(i)) <= digits_val(s),
    decreases s.len() - i,
{
    if i < s.len() {
        lemma_digits_val_prefix_le(s, i + 1);
        let t = s.take(i + 1);
        assert(t.drop_last() =~= s.take(i));
        assert(all_digits(s.take(i)));
        lemma_digits_val_nonneg(s.take(i));
        assert(digits_val(t) == digits_val(s.take(i)) * 10 + (t.last() as u32 - '0' as u32));
        assert(digits_val(s.take(i)) <= digits_val(t)) by {
            assert(digits_val(s.take(i)) * 10 >= digits_val(s.take(i)));
        }
    } else {
        assert(s.take(i) =~= s);
    }
}

/// Reads `v[from..to]` as a base-ten value, cut off at `bound`: `None`
/// when a non-digit occurs in the run or the value exceeds the bound.
fn digits_value_capped(v: &[char], from: usize, to: usize, bound: u64) -> (r: Option<u64>)
    requires
        from <= to <= v@.len(),
    ensures
        match r {
            Some(n) => all_digits(v@.subrange(from as int, to as int)) && n as int == digits_val(
                v@.subrange(from as int, to as int),
            ) && n <= bound,
            None => !all_digits(v@.subrange(from as int, to as int)) || digits_val(
                v@.subrange(from as int, to as int),
            ) > bound,
        },
{
    let ghost whole = v@.subrange(from as int, to as int);
    let mut acc: u128 = 0;
    let mut i: usize = from;
    while i < to
        invariant
            from <= i <= to <= v@.len(),
            whole == v@.subrange(from as int, to as int),
            all_digits(v@.subrange(from as int, i as int)),
            acc as int == digits_val(v@.subrange(from as int, i as int)),
            acc <= bound,
        decreases to - i,
    {
        let c = v[i];
        if !digit(c) {
            proof {
                assert(whole[i - from] == c);
            }
            return None;
        }
        let d: u128 = (c as u32 as u128) - ('0' as u32 as u128);
        proof {
            assert(v@.subrange(from as int, (i + 1) as int).drop_last() =~= v@.subrange(
                from as int,
                i as int,
            ));
        }
        acc = acc * 10 + d;
        if acc > bound as u128 {
            proof {
                let p = v@.subrange(from as int, (i + 1) as int);
                assert(digits_val(p) == acc);
                if all_digits(whole) {
                    lemma_digits_val_prefix_le(whole, i + 1 - from);
                    assert(whole.take(i + 1 - from) =~= p);
                }
            }
            return None;
        }
        i = i + 1;
    }
    proof {
        assert(v@.subrange(from as int, i as int) =~= whole);
    }
    Some(acc as u64)
}

// ---------------------------------------------------------------------------
// Signs and integer recognizers
// ---------------------------------------------------------------------------

/// Digits of an integer literal after an optional single leading sign.
pub open spec fn strip_sign(s: Seq<char>) -> Seq<char> {
    if s.len() > 0 && (s[0] == '+' || s[0] == '-') {
        s.skip(1)
    } else {
        s
    }
}

pub open spec fn is_negative(s: Seq<char>) -> bool {
    s.len() > 0 && s[0] == '-'
}

/// An unsigned 16-bit integer literal: optional `+`, then digits, value at
/// most 65535.
pub open spec fn spec_is_u16(s: Seq<char>) -> bool {
    let d = if s.len() > 0 && s[0] == '+' {
        s.skip(1)
    } else {
        s
    };
    d.len() > 0 && all_digits(d) && digits_val(d) <= 65535 && !(s.len() > 0 && s[0] == '-')
}

pub open spec fn spec_u16_val(s: Seq<char>) -> int {
    digits_val(strip_sign(s))
}

/// A signed 64-bit integer literal: optional sign, then digits, value within
/// the `i64` range.
pub open spec fn spec_is_i64(s: Seq<char>) -> bool {
    let d = strip_sign(s);
    d.len() > 0 && all_digits(d) && (if is_negative(s) {
        digits_val(d) <= 0x8000_0000_0000_0000
    } else {
        digits_val(d) <= 0x7FFF_FFFF_FFFF_FFFF
    })
}

pub open spec fn spec_i64_val(s: Seq<char>) -> int {
    if is_negative(s) {
        -digits_val(strip_sign(s))
    } else {
        digits_val(strip_sign(s))
    }
}

pub fn parse_u16_chars(v: &[char]) -> (r: Option<u16>)
    ensures
        match r {
            Some(n) => spec_is_u16(v@) && n as int == spec_u16_val(v@),
            None => !spec_is_u16(v@),
        },
{
    let n = v.len();
    let from: usize = if n > 0 && v[0] == '+' {
        1
    } else {
        0
    };
    if n > 0 && v[0] == '-' {
        return None;
    }
    if from >= n {
        return None;
    }
    proof {
        assert(v@.subrange(from as int, n as int) =~= strip_sign(v@));
    }
    match digits_value_capped(v, from, n, 65535) {
        Some(val) => Some(val as u16),
        None => None,
    }
}

pub fn parse_i64_chars(v: &[char]) -> (r: Option<i64>)
    ensures
        match r {
            Some(n) => spec_is_i64(v@) && n as int == spec_i64_val(v@),
            None => !spec_is_i64(v@),
        },
{
    let n = v.len();
    let neg = n > 0 && v[0] == '-';
    let from: usize = if n > 0 && (v[0] == '+' || v[0] == '-') {
        1
    } else {
        0
    };
    if from >= n {
        return None;
    }
    proof {
        assert(v@.subrange(from as int, n as int) =~= strip_sign(v@));
    }
    let bound: u64 = if neg {
        0x8000_0000_0000_0000
    } else {
        0x7FFF_FFFF_FFFF_FFFF
    };
    match digits_value_capped(v, from, n, bound) {
        Some(val) => {
            if neg {
                if val == 0x8000_0000_0000_0000 {
                    Some(i64::MIN)
                } else {
                    Some(-(val as i64))
                }
            } else {
                Some(val as i64)
            }
        },
        None => None,
    }
}

// ---------------------------------------------------------------------------
// Boolean literals
// ---------------------------------------------------------------------------

/// Exactly `true` or `false`.
pub open spec fn spec_is_bool(s: Seq<char>) -> bool {
    s =~= seq!['t', 'r', 'u', 'e'] || s =~= seq!['f', 'a', 'l', 's', 'e']
}

pub open spec fn spec_bool_val(s: Seq<char>) -> bool {
    s =~= seq!['t', 'r', 'u', 'e']
}

pub fn parse_bool_chars(v: &[char]) -> (r: Option<bool>)
    ensures
        match r {
            Some(b) => spec_is_bool(v@) && b == spec_bool_val(v@),
            None => !spec_is_bool(v@),
        },
{
    if v.len() == 4 && v[0] == 't' && v[1] == 'r' && v[2] == 'u' && v[3] == 'e' {
        proof {
            assert(v@ =~= seq!['t', 'r', 'u', 'e']);
        }
        Some(true)
    } else if v.len() == 5 && v[0] == 'f' && v[1] == 'a' && v[2] == 'l' && v[3] == 's' && v[4]
        == 'e' {
        proof {
            assert(v@ =~= seq!['f', 'a', 'l', 's', 'e']);
        }
        Some(false)
    } else {
        None
    }
}

// ---------------------------------------------------------------------------
// First occurrences
// ---------------------------------------------------------------------------

/// Index of the first occurrence of `c` in `s`.
pub open spec fn find_first(s: Seq<char>, c: char) -> Option<int>
    decreases s.len(),
{
    if s.len() == 0 {
        None
    } else if s[0] == c {
        Some(0)
    } else {
        match find_first(s.skip(1), c) {
            None => None,
            Some(i) => Some(i + 1),
        }
    }
}

/// Index of the first occurrence of `c1` or `c2` in `s`.
pub open spec fn find_first2(s: Seq<char>, c1: char, c2: char) -> Option<int>
    decreases s.len(),
{
    if s.len() == 0 {
        None
    } else if s[0] == c1 || s[0] == c2 {
        Some(0)
    } else {
        match find_first2(s.skip(1), c1, c2) {
            None => None,
            Some(i) => Some(i + 1),
        }
    }
}

pub proof fn lemma_find_first(s: Seq<char>, c: char)
    ensures
        match find_first(s, c) {
            Some(i) => 0 <= i < s.len() && s[i] == c && forall|j: int|
                0 <= j < i ==> s[j] != c,
            None => forall|j: int| 0 <= j < s.len() ==> s[j] != c,
        },
    decreases s.len(),
{
    if s.len() > 0 && s[0] != c {
        lemma_find_first(s.skip(1), c);
        let t = s.skip(1);
        match find_first(t, c) {
            Some(i) => {
                assert(s[i + 1] == t[i]);
                assert forall|j: int| 0 <= j < i + 1 implies s[j] != c by {
                    if j > 0 {
                        assert(t[j - 1] != c);
                    }
                }
            },
            None => {
                assert forall|j: int| 0 <= j < s.len() implies s[j] != c by {
                    if j > 0 {
                        assert(t[j - 1] != c);
                    }
                }
            },
        }
    }
}

pub proof fn lemma_find_first2(s: Seq<char>, c1: char, c2: char)
    ensures
        match find_first2(s, c1, c2) {
            Some(i) => 0 <= i < s.len() && (s[i] == c1 || s[i] == c2) && forall|j: int|
                0 <= j < i ==> s[j] != c1 && s[j] != c2,
            None => forall|j: int| 0 <= j < s.len() ==> s[j] != c1 && s[j] != c2,
        },
    decreases s.len(),
{
    if s.len() > 0 && !(s[0] == c1 || s[0] == c2) {
        lemma_find_first2(s.skip(1), c1, c2);
        let t = s.skip(1);
        match find_first2(t, c1, c2) {
            Some(i) => {
                assert(s[i + 1] == t[i]);
                assert forall|j: int| 0 <= j < i + 1 implies s[j] != c1 && s[j] != c2 by {
                    if j > 0 {
                        assert(t[j - 1] != c1 && t[j - 1] != c2);
                    }
                }
            },
            None => {
                assert forall|j: int| 0 <= j < s.len() implies s[j] != c1 && s[j] != c2 by {
                    if j > 0 {
                        assert(t[j - 1] != c1 && t[j - 1] != c2);
                    }
                }
            },
        }
    }
}

/// First occurrence of `c` in `v[from..to]`, as an absolute index.
fn find_in_range(v: &[char], from: usize, to: usize, c: char) -> (r: Option<usize>)
    requires
        from <= to <= v@.len(),
    ensures
        match r {
            Some(i) => from <= i < to && v@[i as int] == c && forall|j: int|
                from <= j < i ==> v@[j] != c,
            None => forall|j: int| from <= j < to ==> v@[j] != c,
        },
{
    let mut i: usize = from;
    while i < to
        invariant
            from <= i <= to <= v@.len(),
            forall|j: int| from <= j < i ==> v@[j] != c,
        decreases to - i,
    {
        if v[i] == c {
            return Some(i);
        }
        i = i + 1;
    }
    None
}

/// Links a range search to `find_first` on the corresponding subrange.
pub proof fn lemma_find_first_in_subrange(s: Seq<char>, c: char, found: Option<int>)
    requires
        match found {
            Some(i) => 0 <= i < s.len() && s[i] == c && forall|j: int|
                0 <= j < i ==> s[j] != c,
            None => forall|j: int| 0 <= j < s.len() ==> s[j] != c,
        },
    ensures
        find_first(s, c) == found,
{
    lemma_find_first(s, c);
    match (find_first(s, c), found) {
        (Some(a), Some(b)) => {
            if a < b {
                assert(s[a] != c);
            } else if b < a {
                assert(s[b] != c);
            }
        },
        (Some(a), None) => {
            assert(s[a] != c);
        },
        (None, Some(b)) => {
            assert(s[b] != c);
        },
        (None, None) => {},
    }
}

// ---------------------------------------------------------------------------
// Floating-point literals (recognized by their text form only)
// ---------------------------------------------------------------------------

/// `a` equals `b` up to ASCII case, where `b` is already lower-case.
pub open spec fn lower_eq_char(a: char, b: char) -> bool {
    a == b || (is_upper(a) && a as u32 + 32 == b as u32)
}

fn lower_eq(a: char, b: char) -> (r: bool)
    ensures
        r == lower_eq_char(a, b),
{
    a == b || (('A' <= a && a <= 'Z') && a as u32 + 32 == b as u32)
}

/// `inf`, `infinity` or `nan`, ignoring ASCII case.
pub open spec fn spec_is_float_keyword(d: Seq<char>) -> bool {
    (d.len() == 3 && lower_eq_char(d[0], 'i') && lower_eq_char(d[1], 'n') && lower_eq_char(
        d[2],
        'f',
    )) || (d.len() == 8 && lower_eq_char(d[0], 'i') && lower_eq_char(d[1], 'n') && lower_eq_char(
        d[2],
        'f',
    ) && lower_eq_char(d[3], 'i') && lower_eq_char(d[4], 'n') && lower_eq_char(d[5], 'i')
        && lower_eq_char(d[6], 't') && lower_eq_char(d[7], 'y')) || (d.len() == 3 && lower_eq_char(
        d[0],
        'n',
    ) && lower_eq_char(d[1], 'a') && lower_eq_char(d[2], 'n'))
}

pub open spec fn dot_count(s: Seq<char>) -> int
    decreases s.len(),
{
    if s.len() == 0 {
        0
    } else {
        dot_count(s.drop_last()) + if s.last() == '.' {
            1int
        } else {
            0int
        }
    }
}

pub open spec fn has_digit(s: Seq<char>) -> bool {
    exists|i: int| 0 <= i < s.len() && is_digit(s[i])
}

/// The part of a number before any exponent: digits with at most one dot,
/// at least one digit.
pub open spec fn is_mantissa(m: Seq<char>) -> bool {
    m.len() > 0 && (forall|i: int|
        0 <= i < m.len() ==> is_digit(#[trigger] m[i]) || m[i] == '.') && dot_count(m) <= 1
        && has_digit(m)
}

/// An exponent after `e`/`E`: optional sign, then digits.
pub open spec fn is_exp_suffix(e: Seq<char>) -> bool {
    strip_sign(e).len() > 0 && all_digits(strip_sign(e))
}

/// A floating-point literal: optional sign, then a keyword or a number with
/// an optional exponent.
pub open spec fn spec_is_float(s: Seq<char>) -> bool {
    let d = strip_sign(s);
    spec_is_float_keyword(d) || match find_first2(d, 'e', 'E') {
        None => is_mantissa(d),
        Some(i) => is_mantissa(d.take(i)) && is_exp_suffix(d.skip(i + 1)),
    }
}

/// Checks `v[from..to]` against [`is_mantissa`].
fn mantissa_range(v: &[char], from: usize, to: usize) -> (r: bool)
    requires
        from <= to <= v@.len(),
    ensures
        r == is_mantissa(v@.subrange(from as int, to as int)),
{
    let ghost m = v@.subrange(from as int, to as int);
    if from == to {
        return false;
    }
    let mut dots: usize = 0;
    let mut saw_digit = false;
    let mut i: usize = from;
    while i < to
        invariant
            from <= i <= to <= v@.len(),
            m == v@.subrange(from as int, to as int),
            dots == dot_count(v@.subrange(from as int, i as int)),
            dots <= i,
            saw_digit == has_digit(v@.subrange(from as int, i as int)),
            forall|j: int| from <= j < i ==> is_digit(#[trigger] v@[j]) || v@[j] == '.',
        decreases to - i,
    {
        let c = v[i];
        proof {
            assert(v@.subrange(from as int, (i + 1) as int).drop_last() =~= v@.subrange(
                from as int,
                i as int,
            ));
            assert(v@.subrange(from as int, (i + 1) as int).last() == v@[i as int]);
        }
        if digit(c) {
            saw_digit = true;
        } else if c == '.' {
            dots = dots + 1;
        } else {
            proof {
                assert(m[i - from] == c);
            }
            return false;
        }
        proof {
            if is_digit(c) {
                assert(has_digit(v@.subrange(from as int, (i + 1) as int))) by {
                    assert(v@.subrange(from as int, (i + 1) as int)[i - from] == c);
                }
            } else {
                assert(forall|k: int|
                    0 <= k < v@.subrange(from as int, (i + 1) as int).len() ==> v@.subrange(
                        from as int,
                        (i + 1) as int,
                    )[k] == v@.subrange(from as int, i as int).push(v@[i as int])[k]);
                assert(v@.subrange(from as int, (i + 1) as int) =~= v@.subrange(
                    from as int,
                    i as int,
                ).push(v@[i as int]));
                if has_digit(v@.subrange(from as int, (i + 1) as int)) {
                    let k = choose|k: int|
                        0 <= k < v@.subrange(from as int, (i + 1) as int).len() && is_digit(
                            #[trigger] v@.subrange(from as int, (i + 1) as int)[k],
                        );
                    if k < i - from {
                        assert(is_digit(v@.subrange(from as int, i as int)[k]));
                    }
                }
            }
        }
        i = i + 1;
    }
    proof {
        assert(v@.subrange(from as int, i as int) =~= m);
        if dots <= 1 && saw_digit {
            assert(forall|j: int| 0 <= j < m.len() ==> is_digit(#[trigger] m[j]) || m[j] == '.')
                by {
                assert(forall|j: int|
                    0 <= j < m.len() ==> m[j] == #[trigger] v@[from + j] && (is_digit(
                        v@[from + j],
                    ) || v@[from + j] == '.'));
            }
        }
    }
    dots <= 1 && saw_digit
}

/// Checks `v[from..to]` against [`all_digits`] on the subrange.
fn all_digits_range(v: &[char], from: usize, to: usize) -> (r: bool)
    requires
        from <= to <= v@.len(),
    ensures
        r == all_digits(v@.subrange(from as int, to as int)),
{
    let ghost m = v@.subrange(from as int, to as int);
    let mut i: usize = from;
    while i < to
        invariant
            from <= i <= to <= v@.len(),
            m == v@.subrange(from as int, to as int),
            forall|j: int| from <= j < i ==> is_digit(#[trigger] v@[j]),
        decreases to - i,
    {
        if !digit(v[i]) {
            proof {
                assert(m[i - from] == v@[i as int]);
            }
            return false;
        }
        i = i + 1;
    }
    proof {
        assert(forall|j: int| 0 <= j < m.len() ==> m[j] == v@[from + j]);
    }
    true
}

/// Checks `v[from..to]` against [`is_exp_suffix`].
fn exp_suffix_range(v: &[char], from: usize, to: usize) -> (r: bool)
    requires
        from <= to <= v@.len(),
    ensures
        r == is_exp_suffix(v@.subrange(from as int, to as int)),
{
    let ghost e = v@.subrange(from as int, to as int);
    let start: usize = if from < to && (v[from] == '+' || v[from] == '-') {
        from + 1
    } else {
        from
    };
    proof {
        assert(strip_sign(e) =~= v@.subrange(start as int, to as int));
    }
    if start == to {
        return false;
    }
    all_digits_range(v, start, to)
}

/// Checks `v[from..]` (no sign expected any more) against the unsigned part
/// of [`spec_is_float`].
fn float_body_range(v: &[char], from: usize) -> (r: bool)
    requires
        from <= v@.len(),
    ensures
        r == {
            let d = v@.skip(from as int);
            spec_is_float_keyword(d) || match find_first2(d, 'e', 'E') {
                None => is_mantissa(d),
                Some(i) => is_mantissa(d.take(i)) && is_exp_suffix(d.skip(i + 1)),
            }
        },
{
    let ghost d = v@.skip(from as int);
    let n = v.len();
    let len = n - from;
    let kw = if len == 3 {
        (lower_eq(v[from], 'i') && lower_eq(v[from + 1], 'n') && lower_eq(v[from + 2], 'f')) || (
        lower_eq(v[from], 'n') && lower_eq(v[from + 1], 'a') && lower_eq(v[from + 2], 'n'))
    } else if len == 8 {
        lower_eq(v[from], 'i') && lower_eq(v[from + 1], 'n') && lower_eq(v[from + 2], 'f')
            && lower_eq(v[from + 3], 'i') && lower_eq(v[from + 4], 'n') && lower_eq(
            v[from + 5],
            'i',
        ) && lower_eq(v[from + 6], 't') && lower_eq(v[from + 7], 'y')
    } else {
        false
    };
    proof {
        assert(forall|k: int| 0 <= k < d.len() ==> d[k] == v@[from + k]);
        assert(kw == spec_is_float_keyword(d));
    }
    if kw {
        return true;
    }
    let e_idx = find_in_range(v, from, n, 'e');
    let e2_idx = find_in_range(v, from, n, 'E');
    let first_exp: Option<usize> = match (e_idx, e2_idx) {
        (Some(a), Some(b)) => if a < b {
            Some(a)
        } else {
            Some(b)
        },
        (Some(a), None) => Some(a),
        (None, Some(b)) => Some(b),
        (None, None) => None,
    };
    proof {
        let found: Option<int> = match first_exp {
            Some(i) => Some(i - from),
            None => None,
        };
        lemma_find_first2(d, 'e', 'E');
        match (find_first2(d, 'e', 'E'), found) {
            (Some(a), Some(b)) => {
                if a < b {
                    assert(d[a] == v@[from + a]);
                } else if b < a {
                    assert(d[b] != 'e' && d[b] != 'E');
                    assert(d[b] == v@[from + b]);
                }
            },
            (Some(a), None) => {
                assert(d[a] == v@[from + a]);
            },
            (None, Some(b)) => {
                assert(d[b] == v@[from + b]);
            },
            (None, None) => {},
        }
        assert(find_first2(d, 'e', 'E') == found);
    }
    match first_exp {
        None => {
            let r = mantissa_range(v, from, n);
            proof {
                assert(v@.subrange(from as int, n as int) =~= d);
            }
            r
        },
        Some(i) => {
            let r1 = mantissa_range(v, from, i);
            let r2 = exp_suffix_range(v, i + 1, n);
            proof {
                let gi = i - from;
                assert(v@.subrange(from as int, i as int) =~= d.take(gi));
                assert(v@.subrange((i + 1) as int, n as int) =~= d.skip(gi + 1));
            }
            r1 && r2
        },
    }
}

/// Checks a whole character sequence against [`spec_is_float`].
pub fn is_float_chars(v: &[char]) -> (r: bool)
    ensures
        r == spec_is_float(v@),
{
    let from: usize = if v.len() > 0 && (v[0] == '+' || v[0] == '-') {
        1
    } else {
        0
    };
    proof {
        assert(v@.skip(from as int) =~= strip_sign(v@));
    }
    float_body_range(v, from)
}

// ---------------------------------------------------------------------------
// Range scanners over character classes
// ---------------------------------------------------------------------------

pub open spec fn all_alnum(s: Seq<char>) -> bool {
    forall|i: int| 0 <= i < s.len() ==> is_alnum(#[trigger] s[i])
}

pub open spec fn all_path_chars(s: Seq<char>) -> bool {
    forall|i: int| 0 <= i < s.len() ==> is_path_char(#[trigger] s[i])
}

fn all_alnum_range(v: &[char], from: usize, to: usize) -> (r: bool)
    requires
        from <= to <= v@.len(),
    ensures
        r == all_alnum(v@.subrange(from as int, to as int)),
{
    let ghost m = v@.subrange(from as int, to as int);
    let mut i: usize = from;
    while i < to
        invariant
            from <= i <= to <= v@.len(),
            m == v@.subrange(from as int, to as int),
            forall|j: int| from <= j < i ==> is_alnum(#[trigger] v@[j]),
        decreases to - i,
    {
        if !alnum(v[i]) {
            proof {
                assert(m[i - from] == v@[i as int]);
            }
            return false;
        }
        i = i + 1;
    }
    proof {
        assert(forall|j: int| 0 <= j < m.len() ==> m[j] == #[trigger] v@[from + j]);
    }
    true
}

fn all_path_chars_range(v: &[char], from: usize, to: usize) -> (r: bool)
    requires
        from <= to <= v@.len(),
    ensures
        r == all_path_chars(v@.subrange(from as int, to as int)),
{
    let ghost m = v@.subrange(from as int, to as int);
    let mut i: usize = from;
    while i < to
        invariant
            from <= i <= to <= v@.len(),
            m == v@.subrange(from as int, to as int),
            forall|j: int| from <= j < i ==> is_path_char(#[trigger] v@[j]),
        decreases to - i,
    {
        if !path_char(v[i]) {
            proof {
                assert(m[i - from] == v@[i as int]);
            }
            return false;
        }
        i = i + 1;
    }
    proof {
        assert(forall|j: int| 0 <= j < m.len() ==> m[j] == #[trigger] v@[from + j]);
    }
    true
}

// ---------------------------------------------------------------------------
// IPv4 literals
// ---------------------------------------------------------------------------

/// One dotted group of an IPv4 literal: one to three digits, no redundant
/// leading zero, value at most 255.
pub open spec fn is_v4_group(g: Seq<char>) -> bool {
    1 <= g.len() <= 3 && all_digits(g) && digits_val(g) <= 255 && (g.len() > 1 ==> g[0] != '0')
}

/// Exactly `n` dot-separated IPv4 groups.
pub open spec fn is_v4_groups(s: Seq<char>, n: int) -> bool
    decreases n,
{
    if n <= 1 {
        is_v4_group(s)
    } else {
        match find_first(s, '.') {
            None => false,
            Some(i) => 0 <= i < s.len() && is_v4_group(s.take(i)) && is_v4_groups(
                s.skip(i + 1),
                n - 1,
            ),
        }
    }
}

/// A strict IPv4 literal, four groups.
pub open spec fn spec_is_ipv4(s: Seq<char>) -> bool {
    is_v4_groups(s, 4)
}

fn v4_group_range(v: &[char], from: usize, to: usize) -> (r: bool)
    requires
        from <= to <= v@.len(),
    ensures
        r == is_v4_group(v@.subrange(from as int, to as int)),
{
    let len = to - from;
    if len < 1 || len > 3 {
        return false;
    }
    if len > 1 && v[from] == '0' {
        return false;
    }
    match digits_value_capped(v, from, to, 255) {
        Some(_) => true,
        None => false,
    }
}

fn v4_groups_range(v: &[char], from: usize, n: u32) -> (r: bool)
    requires
        from <= v@.len(),
        1 <= n <= 4,
    ensures
        r == is_v4_groups(v@.skip(from as int), n as int),
    decreases n,
{
    let ghost s = v@.skip(from as int);
    proof {
        assert(forall|k: int| 0 <= k < s.len() ==> s[k] == #[trigger] v@[from + k]);
    }
    if n == 1 {
        let r = v4_group_range(v, from, v.len());
        proof {
            assert(v@.subrange(from as int, v@.len() as int) =~= s);
        }
        return r;
    }
    match find_in_range(v, from, v.len(), '.') {
        None => {
            proof {
                lemma_find_first_in_subrange(s, '.', None);
            }
            false
        },
        Some(i) => {
            proof {
                lemma_find_first_in_subrange(s, '.', Some(i - from));
                assert(s.take(i - from) =~= v@.subrange(from as int, i as int));
                assert(s.skip(i - from + 1) =~= v@.skip((i + 1) as int));
            }
            let g = v4_group_range(v, from, i);
            if !g {
                return false;
            }
            v4_groups_range(v, i + 1, n - 1)
        },
    }
}

pub fn is_ipv4_chars(v: &[char]) -> (r: bool)
    ensures
        r == spec_is_ipv4(v@),
{
    let r = v4_groups_range(v, 0, 4);
    proof {
        assert(v@.skip(0) =~= v@);
    }
    r
}

// ---------------------------------------------------------------------------
// Remote paths: `[user@]host:path`
// ---------------------------------------------------------------------------

/// A user name: a letter followed by letters and digits.
pub open spec fn is_user_part(s: Seq<char>) -> bool {
    s.len() > 0 && is_letter(s[0]) && all_alnum(s)
}

/// A host: non-empty alphanumeric segments separated by single dots.
pub open spec fn is_host_part(s: Seq<char>) -> bool
    decreases s.len(),
{
    match find_first(s, '.') {
        None => s.len() > 0 && all_alnum(s),
        Some(i) => 0 <= i < s.len() && i > 0 && all_alnum(s.take(i)) && is_host_part(
            s.skip(i + 1),
        ),
    }
}

/// The path after the colon: non-empty, path characters only.  It may not
/// open with a double slash: that shape belongs to URLs, which a later
/// step of the cascade recognizes.
pub open spec fn is_path_part(s: Seq<char>) -> bool {
    s.len() > 0 && all_path_chars(s) && !(s.len() >= 2 && s[0] == '/' && s[1] == '/')
}

/// `[user@]host:path`, split at the first colon and the first `@` sign.
pub open spec fn spec_is_remote_path(s: Seq<char>) -> bool {
    match find_first(s, ':') {
        None => false,
        Some(ci) => 0 <= ci < s.len() && {
            let hostpart = s.take(ci);
            let path = s.skip(ci + 1);
            is_path_part(path) && match find_first(hostpart, '@') {
                None => is_host_part(hostpart),
                Some(ai) => 0 <= ai < hostpart.len() && is_user_part(hostpart.take(ai))
                    && is_host_part(hostpart.skip(ai + 1)),
            }
        },
    }
}

fn host_part_range(v: &[char], from: usize, to: usize) -> (r: bool)
    requires
        from <= to <= v@.len(),
    ensures
        r == is_host_part(v@.subrange(from as int, to as int)),
    decreases to - from,
{
    let ghost s = v@.subrange(from as int, to as int);
    proof {
        assert(forall|k: int| 0 <= k < s.len() ==> s[k] == #[trigger] v@[from + k]);
    }
    match find_in_range(v, from, to, '.') {
        None => {
            proof {
                lemma_find_first_in_subrange(s, '.', None);
            }
            if from == to {
                false
            } else {
                all_alnum_range(v, from, to)
            }
        },
        Some(i) => {
            proof {
                lemma_find_first_in_subrange(s, '.', Some(i - from));
                assert(s.take(i - from) =~= v@.subrange(from as int, i as int));
                assert(s.skip(i - from + 1) =~= v@.subrange((i + 1) as int, to as int));
            }
            if i == from {
                return false;
            }
            let g = all_alnum_range(v, from, i);
            if !g {
                return false;
            }
            host_part_range(v, i + 1, to)
        },
    }
}

pub fn is_remote_path_chars(v: &[char]) -> (r: bool)
    ensures
        r == spec_is_remote_path(v@),
{
    let n = v.len();
    match find_in_range(v, 0, n, ':') {
        None => {
            proof {
                lemma_find_first_in_subrange(v@, ':', None);
            }
            false
        },
        Some(ci) => {
            proof {
                lemma_find_first_in_subrange(v@, ':', Some(ci as int));
                assert(v@.take(ci as int) =~= v@.subrange(0, ci as int));
                assert(v@.skip(ci as int + 1) =~= v@.subrange((ci + 1) as int, n as int));
            }
            let ghost hostpart = v@.take(ci as int);
            let ghost path = v@.skip(ci as int + 1);
            if ci + 1 >= n {
                proof {
                    assert(!is_path_part(path));
                }
                return false;
            }
            let p_ok = all_path_chars_range(v, ci + 1, n);
            if !p_ok {
                return false;
            }
            if ci + 2 < n && v[ci + 1] == '/' && v[ci + 2] == '/' {
                proof {
                    assert(path[0] == '/' && path[1] == '/');
                }
                return false;
            }
            proof {
                assert(is_path_part(path));
            }
            proof {
                assert(forall|k: int| 0 <= k < hostpart.len() ==> hostpart[k] == #[trigger] v@[k]);
            }
            match find_in_range(v, 0, ci, '@') {
                None => {
                    proof {
                        lemma_find_first_in_subrange(hostpart, '@', None);
                    }
                    let r = host_part_range(v, 0, ci);
                    proof {
                        assert(v@.subrange(0, ci as int) =~= hostpart);
                    }
                    r
                },
                Some(ai) => {
                    proof {
                        lemma_find_first_in_subrange(hostpart, '@', Some(ai as int));
                        assert(hostpart.take(ai as int) =~= v@.subrange(0, ai as int));
                        assert(hostpart.skip(ai as int + 1) =~= v@.subrange(
                            (ai + 1) as int,
                            ci as int,
                        ));
                    }
                    if ai == 0 {
                        proof {
                            assert(!is_user_part(hostpart.take(0)));
                        }
                        return false;
                    }
                    let u_first = letter(v[0]);
                    if !u_first {
                        return false;
                    }
                    let u_ok = all_alnum_range(v, 0, ai);
                    if !u_ok {
                        return false;
                    }
                    proof {
                        assert(hostpart.take(ai as int)[0] == v@[0]);
                    }
                    host_part_range(v, ai + 1, ci)
                },
            }
        },
    }
}

// ---------------------------------------------------------------------------
// Local paths and URLs
// ---------------------------------------------------------------------------

pub open spec fn has_prefix(s: Seq<char>, p: Seq<char>) -> bool {
    p.len() <= s.len() && forall|i: int| 0 <= i < p.len() ==> s[i] == #[trigger] p[i]
}

pub open spec fn has_suffix(s: Seq<char>, p: Seq<char>) -> bool {
    p.len() <= s.len() && forall|i: int|
        0 <= i < p.len() ==> s[s.len() - p.len() + i] == #[trigger] p[i]
}

/// A local path: path characters throughout, and either an explicit leading
/// `./`, `../` or `/`, or a bare filename carrying one of the recognized
/// extensions `.tar`, `.tar.gz`, `.tar.bz2`, `.png`, `.sh`.
pub open spec fn spec_is_local_path(s: Seq<char>) -> bool {
    all_path_chars(s) && (has_prefix(s, seq!['.', '/']) || has_prefix(s, seq!['.', '.', '/'])
        || has_prefix(s, seq!['/']) || (s.len() > 4 && has_suffix(s, seq!['.', 't', 'a', 'r'])) || (
    s.len() > 7 && has_suffix(s, seq!['.', 't', 'a', 'r', '.', 'g', 'z'])) || (s.len() > 8
        && has_suffix(s, seq!['.', 't', 'a', 'r', '.', 'b', 'z', '2'])) || (s.len() > 4
        && has_suffix(s, seq!['.', 'p', 'n', 'g'])) || (s.len() > 3 && has_suffix(
        s,
        seq!['.', 's', 'h'],
    )))
}

pub fn is_local_path_chars(v: &[char]) -> (r: bool)
    ensures
        r == spec_is_local_path(v@),
{
    let n = v.len();
    let chars_ok = all_path_chars_range(v, 0, n);
    proof {
        assert(v@.subrange(0, n as int) =~= v@);
    }
    if !chars_ok {
        return false;
    }
    let dot_slash = n >= 2 && v[0] == '.' && v[1] == '/';
    let dot_dot_slash = n >= 3 && v[0] == '.' && v[1] == '.' && v[2] == '/';
    let slash = n >= 1 && v[0] == '/';
    let tar = n > 4 && v[n - 4] == '.' && v[n - 3] == 't' && v[n - 2] == 'a' && v[n - 1] == 'r';
    let tar_gz = n > 7 && v[n - 7] == '.' && v[n - 6] == 't' && v[n - 5] == 'a' && v[n - 4] == 'r'
        && v[n - 3] == '.' && v[n - 2] == 'g' && v[n - 1] == 'z';
    let tar_bz2 = n > 8 && v[n - 8] == '.' && v[n - 7] == 't' && v[n - 6] == 'a' && v[n - 5] == 'r'
        && v[n - 4] == '.' && v[n - 3] == 'b' && v[n - 2] == 'z' && v[n - 1] == '2';
    let png = n > 4 && v[n - 4] == '.' && v[n - 3] == 'p' && v[n - 2] == 'n' && v[n - 1] == 'g';
    let sh = n > 3 && v[n - 3] == '.' && v[n - 2] == 's' && v[n - 1] == 'h';
    proof {
        assert(dot_slash == has_prefix(v@, seq!['.', '/']));
        assert(dot_dot_slash == has_prefix(v@, seq!['.', '.', '/']));
        assert(seq!['/'].len() == 1 && seq!['/'][0] == '/');
        assert(slash == has_prefix(v@, seq!['/']));
        assert(tar == (v@.len() > 4 && has_suffix(v@, seq!['.', 't', 'a', 'r'])));
        assert(tar_gz == (v@.len() > 7 && has_suffix(v@, seq!['.', 't', 'a', 'r', '.', 'g', 'z'])));
        assert(tar_bz2 == (v@.len() > 8 && has_suffix(
            v@,
            seq!['.', 't', 'a', 'r', '.', 'b', 'z', '2'],
        )));
        assert(png == (v@.len() > 4 && has_suffix(v@, seq!['.', 'p', 'n', 'g'])));
        assert(sh == (v@.len() > 3 && has_suffix(v@, seq!['.', 's', 'h'])));
    }
    dot_slash || dot_dot_slash || slash || tar || tar_gz || tar_bz2 || png || sh
}

/// An `http://` or `https://` URL with a non-empty remainder.
pub open spec fn spec_is_url(s: Seq<char>) -> bool {
    (s.len() > 7 && has_prefix(s, seq!['h', 't', 't', 'p', ':', '/', '/'])) || (s.len() > 8
        && has_prefix(s, seq!['h', 't', 't', 'p', 's', ':', '/', '/']))
}

pub fn is_url_chars(v: &[char]) -> (r: bool)
    ensures
        r == spec_is_url(v@),
{
    let n = v.len();
    let plain = n > 7 && v[0] == 'h' && v[1] == 't' && v[2] == 't' && v[3] == 'p' && v[4] == ':'
        && v[5] == '/' && v[6] == '/';
    let secure = n > 8 && v[0] == 'h' && v[1] == 't' && v[2] == 't' && v[3] == 'p' && v[4] == 's'
        && v[5] == ':' && v[6] == '/' && v[7] == '/';
    proof {
        assert(plain == (v@.len() > 7 && has_prefix(v@, seq!['h', 't', 't', 'p', ':', '/', '/'])));
        assert(secure == (v@.len() > 8 && has_prefix(
            v@,
            seq!['h', 't', 't', 'p', 's', ':', '/', '/'],
        )));
    }
    plain || secure
}

// ---------------------------------------------------------------------------
// Fallback IP-looking patterns
// ---------------------------------------------------------------------------

pub open spec fn count_char(s: Seq<char>, c: char) -> int
    decreases s.len(),
{
    if s.len() == 0 {
        0
    } else {
        count_char(s.drop_last(), c) + if s.last() == c {
            1int
        } else {
            0int
        }
    }
}

/// Exactly `n` dot-separated non-empty digit runs, values unconstrained.
pub open spec fn is_loose_v4_groups(s: Seq<char>, n: int) -> bool
    decreases n,
{
    if n <= 1 {
        s.len() > 0 && all_digits(s)
    } else {
        match find_first(s, '.') {
            None => false,
            Some(i) => 0 <= i < s.len() && i > 0 && all_digits(s.take(i)) && is_loose_v4_groups(
                s.skip(i + 1),
                n - 1,
            ),
        }
    }
}

/// The loose pattern behind the cascade's last IP check: something shaped
/// like a dotted quad (values unchecked), or hex digits, colons and dots
/// with at least two colons.
pub open spec fn spec_is_ip_pattern(s: Seq<char>) -> bool {
    is_loose_v4_groups(s, 4) || (s.len() > 0 && (forall|i: int|
        0 <= i < s.len() ==> is_hex_digit(#[trigger] s[i]) || s[i] == ':' || s[i] == '.')
        && count_char(s, ':') >= 2)
}

fn loose_v4_groups_range(v: &[char], from: usize, n: u32) -> (r: bool)
    requires
        from <= v@.len(),
        1 <= n <= 4,
    ensures
        r == is_loose_v4_groups(v@.skip(from as int), n as int),
    decreases n,
{
    let ghost s = v@.skip(from as int);
    proof {
        assert(forall|k: int| 0 <= k < s.len() ==> s[k] == #[trigger] v@[from + k]);
    }
    if n == 1 {
        if from == v.len() {
            return false;
        }
        let r = all_digits_range(v, from, v.len());
        proof {
            assert(v@.subrange(from as int, v@.len() as int) =~= s);
        }
        return r;
    }
    match find_in_range(v, from, v.len(), '.') {
        None => {
            proof {
                lemma_find_first_in_subrange(s, '.', None);
            }
            false
        },
        Some(i) => {
            proof {
                lemma_find_first_in_subrange(s, '.', Some(i - from));
                assert(s.take(i - from) =~= v@.subrange(from as int, i as int));
                assert(s.skip(i - from + 1) =~= v@.skip((i + 1) as int));
            }
            if i == from {
                return false;
            }
            let g = all_digits_range(v, from, i);
            if !g {
                return false;
            }
            loose_v4_groups_range(v, i + 1, n - 1)
        },
    }
}

pub fn is_ip_pattern_chars(v: &[char]) -> (r: bool)
    ensures
        r == spec_is_ip_pattern(v@),
{
    let loose = loose_v4_groups_range(v, 0, 4);
    proof {
        assert(v@.skip(0) =~= v@);
    }
    if loose {
        return true;
    }
    let n = v.len();
    if n == 0 {
        return false;
    }
    let mut colons: usize = 0;
    let mut i: usize = 0;
    while i < n
        invariant
            i <= n,
            n == v@.len(),
            !is_loose_v4_groups(v@, 4),
            colons == count_char(v@.subrange(0, i as int), ':'),
            colons <= i,
            forall|j: int|
                0 <= j < i ==> is_hex_digit(#[trigger] v@[j]) || v@[j] == ':' || v@[j] == '.',
        decreases n - i,
    {
        let c = v[i];
        proof {
            assert(v@.subrange(0, (i + 1) as int).drop_last() =~= v@.subrange(0, i as int));
            assert(v@.subrange(0, (i + 1) as int).last() == v@[i as int]);
        }
        if c == ':' {
            colons = colons + 1;
        } else if !hex_digit(c) && c != '.' {
            proof {
                assert(!(is_hex_digit(v@[i as int]) || v@[i as int] == ':' || v@[i as int]
                    == '.'));
            }
            return false;
        }
        i = i + 1;
    }
    proof {
        assert(v@.subrange(0, n as int) =~= v@);
    }
    colons >= 2
}

// ---------------------------------------------------------------------------
// The cascade
// ---------------------------------------------------------------------------

/// The classifier cascade: the first matching recognizer decides the
/// variant; `RawString` is the fallback.  Opaque: parse-level proofs carry
/// classified values as a whole and never look inside this cascade.
#[verifier::opaque]
pub open spec fn spec_classify(s: Seq<char>) -> CLArgumentView {
    if spec_is_ipv4(s) {
        CLArgumentView::IPAddress(s)
    } else if spec_is_u16(s) {
        CLArgumentView::U16(spec_u16_val(s) as u16)
    } else if spec_is_i64(s) {
        CLArgumentView::Integer(spec_i64_val(s) as i64)
    } else if spec_is_float(s) {
        CLArgumentView::Float(s)
    } else if spec_is_bool(s) {
        CLArgumentView::Boolean(spec_bool_val(s))
    } else if spec_is_remote_path(s) {
        CLArgumentView::RemotePath(s)
    } else if spec_is_local_path(s) {
        CLArgumentView::LocalPath(s)
    } else if spec_is_url(s) {
        CLArgumentView::URL(s)
    } else if spec_is_ip_pattern(s) {
        CLArgumentView::IPAddress(s)
    } else {
        CLArgumentView::RawString(s)
    }
}

/// Classifies a character sequence; the returned value's view is exactly
/// what [`spec_classify`] assigns to it.
pub fn classify_chars(v: &[char]) -> (r: CLArgument)
    ensures
        r@ == spec_classify(v@),
{
    proof {
        reveal(spec_classify);
    }
    if is_ipv4_chars(v) {
        return CLArgument::IPAddress(crate::chars_util::chars_to_string(v));
    }
    match parse_u16_chars(v) {
        Some(n) => {
            proof {
                lemma_digits_val_nonneg(strip_sign(v@));
            }
            return CLArgument::U16(n);
        },
        None => {},
    }
    match parse_i64_chars(v) {
        Some(n) => {
            return CLArgument::Integer(n);
        },
        None => {},
    }
    if is_float_chars(v) {
        return CLArgument::Float(crate::chars_util::chars_to_string(v));
    }
    match parse_bool_chars(v) {
        Some(b) => {
            return CLArgument::Boolean(b);
        },
        None => {},
    }
    if is_remote_path_chars(v) {
        return CLArgument::RemotePath(crate::chars_util::chars_to_string(v));
    }
    if is_local_path_chars(v) {
        return CLArgument::LocalPath(crate::chars_util::chars_to_string(v));
    }
    if is_url_chars(v) {
        return CLArgument::URL(crate::chars_util::chars_to_string(v));
    }
    if is_ip_pattern_chars(v) {
        return CLArgument::IPAddress(crate::chars_util::chars_to_string(v));
    }
    CLArgument::RawString(crate::chars_util::chars_to_string(v))
}

/// Classifies an owned string.
pub fn classify_string(s: String) -> (r: CLArgument)
    ensures
        r@ == spec_classify(s@),
{
    let v = crate::chars_util::str_to_chars(s.as_str());
    classify_chars(v.as_slice())
}

/// Classification is total and deterministic: it is a function of the
/// character sequence alone, every sequence receives exactly one variant,
/// and a sequence no recognizer matches keeps its text as `RawString`.
pub proof fn lemma_classification_total(s: Seq<char>)
    ensures
        !(spec_is_ipv4(s) || spec_is_u16(s) || spec_is_i64(s) || spec_is_float(s) || spec_is_bool(
            s,
        ) || spec_is_remote_path(s) || spec_is_local_path(s) || spec_is_url(s)
            || spec_is_ip_pattern(s)) ==> spec_classify(s) == CLArgumentView::RawString(s),
        spec_is_ipv4(s) ==> spec_classify(s) == CLArgumentView::IPAddress(s),
{
    reveal(spec_classify);
}

} // verus!
