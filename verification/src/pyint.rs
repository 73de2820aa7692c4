//! Python's `int()` on strings, and the integral value of a constant.

use vstd::prelude::*;

use crate::text::{
    chars_of, digit_char, int_string, int_text, is_white_space, radix_digits, string_from, string_of,
    trim, trim_chars, trim_end, trim_start,
};
use crate::value::{SpecValue, ValueObj};

verus! {

/// Outcome of parsing a string the way Python's `int(s, base)` does.
#[derive(PartialEq, Eq, Structural, Clone, Copy, Debug)]
pub enum IntParse {
    Parsed(i128),
    /// The digits are valid, but the value does not fit `i128`.
    TooLarge,
    /// `int()` would raise `ValueError`.
    Invalid,
}

/// The value of the digit `c` in radix `b`, as `char::to_digit` gives it:
/// `0`-`9`, then `a`-`z` or `A`-`Z` for 10 to 35.
pub open spec fn digit_value(c: char, b: nat) -> Option<nat> {
    let u = c as u32;
    let v: int = if 48 <= u <= 57 {
        u - 48
    } else if 97 <= u <= 122 {
        u - 87
    } else if 65 <= u <= 90 {
        u - 55
    } else {
        36
    };
    if v < b {
        Some(v as nat)
    } else {
        None
    }
}

/// Reads the digits `d` in radix `b` after the magnitude `acc` already
/// read, stopping at the first character that is not a digit (`Invalid`)
/// or the first digit that takes the magnitude past `limit` (`TooLarge`).
pub open spec fn radix_fold(d: Seq<char>, b: nat, acc: nat, limit: nat) -> Result<nat, IntParse>
    decreases d.len(),
{
    if d.len() == 0 {
        Ok(acc)
    } else {
        match digit_value(d[0], b) {
            None => Err(IntParse::Invalid),
            Some(v) => if acc * b + v > limit {
                Err(IntParse::TooLarge)
            } else {
                radix_fold(d.drop_first(), b, acc * b + v, limit)
            },
        }
    }
}

/// The unsigned digit string `d` in radix `b`, read as a magnitude of at
/// most `limit`: at least one digit is needed.
pub open spec fn from_digits(d: Seq<char>, b: nat, limit: nat) -> Result<nat, IntParse> {
    if d.len() == 0 {
        Err(IntParse::Invalid)
    } else {
        radix_fold(d, b, 0, limit)
    }
}

/// The largest magnitude an `i128` of the given sign holds: `2^127` for a
/// negative one, `2^127 - 1` otherwise.
pub open spec fn magnitude_limit(neg: bool) -> nat {
    if neg {
        (i128::MAX + 1) as nat
    } else {
        i128::MAX as nat
    }
}

/// `s` without its `_` characters.
pub open spec fn without_underscores(s: Seq<char>) -> Seq<char>
    decreases s.len(),
{
    if s.len() == 0 {
        s
    } else if s.last() == '_' {
        without_underscores(s.drop_last())
    } else {
        without_underscores(s.drop_last()).push(s.last())
    }
}

/// Each `_` of `d` stands between two non-`_` characters, or, when the
/// digits follow a radix prefix, right at the start; without a prefix, at
/// least one character is needed.
pub open spec fn underscores_well_placed(d: Seq<char>, prefixed: bool) -> bool {
    &&& forall|i: int|
        0 <= i < d.len() && #[trigger] d[i] == '_' ==> i + 1 < d.len() && d[i + 1] != '_' && (
        i == 0 ==> prefixed)
    &&& !prefixed ==> d.len() > 0
}

/// `body` starts with `0` and then `lo` or `up`.
pub open spec fn has_radix_prefix(body: Seq<char>, lo: char, up: char) -> bool {
    body.len() >= 2 && body[0] == '0' && (body[1] == lo || body[1] == up)
}

/// Every character of `s` is `0` or `_`.
pub open spec fn zeros_and_underscores(s: Seq<char>) -> bool {
    forall|i: int| 0 <= i < s.len() ==> s[i] == '0' || s[i] == '_'
}

/// The digits after the sign and the prefix, read in radix `b`.
pub open spec fn parse_digits(neg: bool, b: nat, digits: Seq<char>, prefixed: bool) -> IntParse {
    if !underscores_well_placed(digits, prefixed) {
        IntParse::Invalid
    } else {
        let d = without_underscores(digits);
        if d.len() > 0 && (d[0] == '+' || d[0] == '-') {
            IntParse::Invalid
        } else {
            match from_digits(d, b, magnitude_limit(neg)) {
                Ok(m) => IntParse::Parsed(
                    if neg {
                        (-m) as i128
                    } else {
                        m as i128
                    },
                ),
                Err(e) => e,
            }
        }
    }
}

/// Python's `int(src, base)`; base `0` takes the radix from a `0x`, `0o`
/// or `0b` prefix and otherwise reads decimal digits without redundant
/// leading zeros.
pub open spec fn spec_parse_py_int(src: Seq<char>, base: nat) -> IntParse {
    if base != 0 && !(2 <= base <= 36) {
        IntParse::Invalid
    } else {
        let t = trim(src);
        let neg = t.len() > 0 && t[0] == '-';
        let body = if t.len() > 0 && (t[0] == '-' || t[0] == '+') {
            t.drop_first()
        } else {
            t
        };
        if (base == 16 || base == 0) && has_radix_prefix(body, 'x', 'X') {
            parse_digits(neg, 16, body.skip(2), true)
        } else if (base == 8 || base == 0) && has_radix_prefix(body, 'o', 'O') {
            parse_digits(neg, 8, body.skip(2), true)
        } else if (base == 2 || base == 0) && has_radix_prefix(body, 'b', 'B') {
            parse_digits(neg, 2, body.skip(2), true)
        } else if base == 0 {
            if body.len() > 0 && body[0] == '0' && !zeros_and_underscores(body) {
                IntParse::Invalid
            } else {
                parse_digits(neg, 10, body, false)
            }
        } else {
            parse_digits(neg, base, body, false)
        }
    }
}

fn digit_value_of(c: char, b: u32) -> (r: Option<u32>)
    requires
        2 <= b <= 36,
    ensures
        match r {
            Some(v) => digit_value(c, b as nat) == Some(v as nat),
            None => digit_value(c, b as nat) is None,
        },
{
    let u = c as u32;
    let v: u32 = if 48 <= u && u <= 57 {
        u - 48
    } else if 97 <= u && u <= 122 {
        u - 87
    } else if 65 <= u && u <= 90 {
        u - 55
    } else {
        36
    };
    if v < b {
        Some(v)
    } else {
        None
    }
}

fn from_digit_chars(d: &Vec<char>, b: u32, limit: u128) -> (r: Result<u128, IntParse>)
    requires
        2 <= b <= 36,
        i128::MAX <= limit <= i128::MAX + 1,
    ensures
        match r {
            Ok(m) => from_digits(d@, b as nat, limit as nat) == Ok::<nat, IntParse>(m as nat),
            Err(e) => from_digits(d@, b as nat, limit as nat) == Err::<nat, IntParse>(e),
        },
        r matches Ok(m) ==> m <= limit,
{
    if d.len() == 0 {
        return Err(IntParse::Invalid);
    }
    let mut acc: u128 = 0;
    let mut i: usize = 0;
    assert(d@.skip(0) =~= d@);
    while i < d.len()
        invariant
            2 <= b <= 36,
            i128::MAX <= limit <= i128::MAX + 1,
            d@.len() > 0,
            i <= d.len(),
            acc <= limit,
            from_digits(d@, b as nat, limit as nat) == radix_fold(
                d@.skip(i as int),
                b as nat,
                acc as nat,
                limit as nat,
            ),
        decreases d.len() - i,
    {
        assert(d@.skip(i as int)[0] == d@[i as int]);
        assert(d@.skip(i as int).drop_first() =~= d@.skip(i + 1));
        match digit_value_of(d[i], b) {
            None => {
                return Err(IntParse::Invalid);
            },
            Some(v) => {
                let bb = b as u128;
                let vv = v as u128;
                let room = (limit - vv) / bb;
                if acc > room {
                    assert(acc * b + v > limit) by (nonlinear_arith)
                        requires
                            acc > room,
                            room == (limit - vv) as int / bb as int,
                            bb == b,
                            vv == v,
                            bb >= 2,
                            0 <= vv < 36,
                            limit >= 36,
                    ;
                    return Err(IntParse::TooLarge);
                }
                assert(acc * b + v <= limit) by (nonlinear_arith)
                    requires
                        acc <= room,
                        room == (limit - vv) as int / bb as int,
                        bb == b,
                        vv == v,
                        bb >= 2,
                        0 <= vv < 36,
                        acc >= 0,
                        limit >= 36,
                ;
                acc = acc * bb + vv;
            },
        }
        i = i + 1;
    }
    assert(d@.skip(i as int).len() == 0);
    Ok(acc)
}

fn strip_underscores(d: &Vec<char>) -> (r: Vec<char>)
    ensures
        r@ == without_underscores(d@),
{
    let mut r: Vec<char> = Vec::new();
    let mut i: usize = 0;
    while i < d.len()
        invariant
            i <= d.len(),
            r@ == without_underscores(d@.subrange(0, i as int)),
        decreases d.len() - i,
    {
        assert(d@.subrange(0, i + 1).drop_last() =~= d@.subrange(0, i as int));
        if d[i] != '_' {
            r.push(d[i]);
        }
        i = i + 1;
    }
    assert(d@.subrange(0, d@.len() as int) =~= d@);
    r
}

fn underscores_ok(d: &Vec<char>, prefixed: bool) -> (r: bool)
    ensures
        r == underscores_well_placed(d@, prefixed),
{
    let mut prev = !prefixed;
    let mut i: usize = 0;
    while i < d.len()
        invariant
            i <= d.len(),
            prev == if i == 0 {
                !prefixed
            } else {
                d@[i - 1] == '_'
            },
            forall|j: int|
                0 <= j && j + 1 < i && #[trigger] d@[j] == '_' ==> d@[j + 1] != '_',
            i > 0 && d@[0] == '_' ==> prefixed,
        decreases d.len() - i,
    {
        if d[i] == '_' {
            if prev {
                if i > 0 {
                    assert(d@[i - 1] == '_');
                }
                return false;
            }
            prev = true;
        } else {
            prev = false;
        }
        i = i + 1;
    }
    if prev {
        if d.len() > 0 {
            assert(d@[d.len() - 1] == '_');
        }
        return false;
    }
    assert forall|j: int| 0 <= j < d@.len() && #[trigger] d@[j] == '_' implies j + 1 < d@.len()
        && d@[j + 1] != '_' && (j == 0 ==> prefixed) by {
        if j + 1 == d@.len() {
            assert(d@[d.len() - 1] == '_');
        }
    }
    true
}

fn parse_digit_part(neg: bool, b: u32, digits: &Vec<char>, prefixed: bool) -> (r: IntParse)
    requires
        2 <= b <= 36,
    ensures
        r == parse_digits(neg, b as nat, digits@, prefixed),
{
    if !underscores_ok(digits, prefixed) {
        return IntParse::Invalid;
    }
    let d = strip_underscores(digits);
    if d.len() > 0 && (d[0] == '+' || d[0] == '-') {
        return IntParse::Invalid;
    }
    let limit: u128 = if neg {
        (i128::MAX as u128) + 1
    } else {
        i128::MAX as u128
    };
    match from_digit_chars(&d, b, limit) {
        Ok(m) => IntParse::Parsed(
            if !neg {
                m as i128
            } else if m == (i128::MAX as u128) + 1 {
                i128::MIN
            } else {
                -(m as i128)
            },
        ),
        Err(e) => e,
    }
}

fn skip_chars(v: &Vec<char>, k: usize) -> (r: Vec<char>)
    requires
        k <= v.len(),
    ensures
        r@ == v@.skip(k as int),
{
    let mut r: Vec<char> = Vec::new();
    let mut i: usize = k;
    while i < v.len()
        invariant
            k <= i <= v.len(),
            r@ == v@.subrange(k as int, i as int),
        decreases v.len() - i,
    {
        r.push(v[i]);
        i = i + 1;
        assert(r@ =~= v@.subrange(k as int, i as int));
    }
    r
}

/// Python's `int(src, base)`. `base` 0 means "detect from the
/// `0x`/`0o`/`0b` prefix".
pub fn parse_py_int(src: &str, base: u32) -> (r: IntParse)
    ensures
        r == spec_parse_py_int(src@, base as nat),
{
    if base != 0 && !(2 <= base && base <= 36) {
        return IntParse::Invalid;
    }
    let cs = chars_of(src);
    let t = trim_chars(&cs);
    let neg = t.len() > 0 && t[0] == '-';
    let body = if t.len() > 0 && (t[0] == '-' || t[0] == '+') {
        skip_chars(&t, 1)
    } else {
        skip_chars(&t, 0)
    };
    assert(t@.skip(0) =~= t@);
    if t.len() > 0 {
        assert(t@.skip(1) =~= t@.drop_first());
    }
    let p2 = body.len() >= 2 && body[0] == '0';
    if (base == 16 || base == 0) && p2 && (body[1] == 'x' || body[1] == 'X') {
        return parse_digit_part(neg, 16, &skip_chars(&body, 2), true);
    }
    if (base == 8 || base == 0) && p2 && (body[1] == 'o' || body[1] == 'O') {
        return parse_digit_part(neg, 8, &skip_chars(&body, 2), true);
    }
    if (base == 2 || base == 0) && p2 && (body[1] == 'b' || body[1] == 'B') {
        return parse_digit_part(neg, 2, &skip_chars(&body, 2), true);
    }
    if base == 0 {
        if body.len() > 0 && body[0] == '0' {
            let mut i: usize = 0;
            #[verifier::loop_isolation(false)]
            while i < body.len()
                invariant
                    i <= body.len(),
                    forall|j: int| 0 <= j < i ==> body@[j] == '0' || body@[j] == '_',
                decreases body.len() - i,
            {
                if body[i] != '0' && body[i] != '_' {
                    assert(body@[i as int] != '0' && body@[i as int] != '_');
                    return IntParse::Invalid;
                }
                i = i + 1;
            }
        }
        return parse_digit_part(neg, 10, &body, false);
    }
    parse_digit_part(neg, base, &body, false)
}

/// `c` is one of `0`-`9`.
pub open spec fn is_ascii_digit(c: char) -> bool {
    '0' <= c <= '9'
}

/// Each `_` of `s` stands between two ASCII digits, which is where Python
/// accepts a digit separator.
pub open spec fn separators_between_digits(s: Seq<char>) -> bool {
    forall|i: int|
        0 <= i < s.len() && #[trigger] s[i] == '_' ==> 0 < i && is_ascii_digit(s[i - 1]) && i + 1
            < s.len() && is_ascii_digit(s[i + 1])
}

/// Removes Python's `_` digit separators, or `None` if one is misplaced.
pub fn strip_py_separators(s: &str) -> (r: Option<String>)
    ensures
        match r {
            Some(t) => separators_between_digits(s@) && t@ == without_underscores(s@),
            None => !separators_between_digits(s@),
        },
{
    let cs = chars_of(s);
    let n = cs.len();
    let mut i: usize = 0;
    while i < n
        invariant
            n == cs@.len(),
            cs@ == s@,
            i <= n,
            forall|j: int|
                0 <= j < i && #[trigger] cs@[j] == '_' ==> 0 < j && is_ascii_digit(cs@[j - 1]) && j
                    + 1 < cs@.len() && is_ascii_digit(cs@[j + 1]),
        decreases n - i,
    {
        if cs[i] == '_' {
            let before = i > 0 && '0' <= cs[i - 1] && cs[i - 1] <= '9';
            let after = i + 1 < n && '0' <= cs[i + 1] && cs[i + 1] <= '9';
            if !(before && after) {
                assert(cs@[i as int] == '_');
                return None;
            }
        }
        i = i + 1;
    }
    Some(string_of(&strip_underscores(&cs)))
}

/// The quotient of `n` by `d`, rounded towards zero, as Rust's `/` gives it.
pub open spec fn trunc_div(n: int, d: int) -> int {
    if n >= 0 {
        n / d
    } else {
        -((-n) / d)
    }
}

/// The integral value of a constant under Python's `int()`: a `Ratio`
/// truncates towards zero and a `Str` is read as decimal.
pub open spec fn spec_py_int(v: SpecValue) -> Option<int> {
    match v {
        SpecValue::Int(i) => Some(i as int),
        SpecValue::Nat(n) => Some(n as int),
        SpecValue::Bool(b) => Some(
            if b {
                1
            } else {
                0
            },
        ),
        SpecValue::Ratio(n, d) => if 0 < d <= i128::MAX {
            Some(trunc_div(n as int, d as int))
        } else {
            None
        },
        SpecValue::Str(s) => match spec_parse_py_int(s, 10) {
            IntParse::Parsed(i) => Some(i as int),
            _ => None,
        },
        _ => None,
    }
}

/// The integral value of `val` under Python's `int()`; `None` if
/// `int(val)` would raise. A `Ratio` with a zero denominator, which no
/// constant holds, has no integral value.
pub fn py_int(val: &ValueObj) -> (r: Option<i128>)
    ensures
        match r {
            Some(i) => spec_py_int(val@) == Some(i as int),
            None => spec_py_int(val@) is None,
        },
{
    match val {
        ValueObj::Int(i) => Some(*i as i128),
        ValueObj::Nat(n) => Some(*n as i128),
        ValueObj::Bool(b) => Some(
            if *b {
                1
            } else {
                0
            },
        ),
        ValueObj::Ratio(n, d) => {
            if *d == 0 || *d > i128::MAX as u128 {
                None
            } else {
                let dd = *d as i128;
                let q = if *n >= 0 {
                    *n / dd
                } else {
                    let m = unsigned_mag(*n);
                    let qm = m / (dd as u128);
                    assert(qm <= m);
                    assert(qm <= i128::MAX + 1) by (nonlinear_arith)
                        requires
                            qm == m / (dd as u128),
                            m <= i128::MAX + 1,
                            dd >= 1,
                    ;
                    if qm == (i128::MAX as u128) + 1 {
                        i128::MIN
                    } else {
                        -(qm as i128)
                    }
                };
                Some(q)
            }
        },
        ValueObj::Str(s) => match parse_py_int(s.as_str(), 10) {
            IntParse::Parsed(i) => Some(i),
            _ => None,
        },
        _ => None,
    }
}

fn unsigned_mag(i: i128) -> (r: u128)
    ensures
        r as int == if i < 0 { -i } else { i as int },
{
    if i < 0 {
        ((-(i + 1)) as u128) + 1
    } else {
        i as u128
    }
}

/// Python's `str()` of a constant whose text is the same at compile time
/// and at run time; `None` for the others.
pub open spec fn spec_py_str(v: SpecValue) -> Option<Seq<char>> {
    match v {
        SpecValue::Str(s) => Some(s),
        SpecValue::Int(i) => Some(int_text(i as int)),
        SpecValue::Nat(n) => Some(int_text(n as int)),
        SpecValue::Bool(b) => Some(
            if b {
                "True"@
            } else {
                "False"@
            },
        ),
        SpecValue::NoneObj => Some("None"@),
        SpecValue::Ratio(n, d) => Some(
            if d == 1 {
                int_text(n as int)
            } else {
                int_text(n as int) + seq!['/'] + radix_digits(d as nat, 10)
            },
        ),
        _ => None,
    }
}

/// Python's `str()` of `val`, restricted to the values whose text is
/// guaranteed to be the same at compile time and at run time; a `Ratio`
/// prints as `Fraction.__str__` does.
pub fn py_str(val: &ValueObj) -> (r: Option<String>)
    ensures
        match r {
            Some(t) => spec_py_str(val@) == Some(t@),
            None => spec_py_str(val@) is None,
        },
{
    match val {
        ValueObj::Str(s) => Some(s.clone()),
        ValueObj::Int(i) => Some(int_string(*i as i128)),
        ValueObj::Nat(n) => Some(int_string(*n as i128)),
        ValueObj::Bool(b) => Some(
            if *b {
                string_from("True")
            } else {
                string_from("False")
            },
        ),
        ValueObj::NoneObj => Some(string_from("None")),
        ValueObj::Ratio(n, d) => {
            if *d == 1 {
                Some(int_string(*n))
            } else {
                let mut t = int_string(*n);
                t.push('/');
                let ds = crate::text::radix_chars(*d, 10);
                let mut i: usize = 0;
                let ghost t0 = t@;
                while i < ds.len()
                    invariant
                        i <= ds.len(),
                        t@ == t0 + ds@.subrange(0, i as int),
                    decreases ds.len() - i,
                {
                    t.push(ds[i]);
                    i = i + 1;
                    assert(t@ =~= t0 + ds@.subrange(0, i as int));
                }
                assert(ds@.subrange(0, ds@.len() as int) =~= ds@);
                Some(t)
            }
        },
        _ => None,
    }
}

proof fn lemma_digit_char_value(d: nat, b: nat)
    requires
        d < b <= 36,
    ensures
        digit_value(digit_char(d), b) == Some(d),
{
}

/// Every character of the digits of `n` in radix `b` is a digit in radix `b`.
pub(crate) proof fn lemma_radix_digits_are_digits(n: nat, b: nat)
    requires
        2 <= b <= 36,
    ensures
        radix_digits(n, b).len() >= 1,
        forall|k: int|
            0 <= k < radix_digits(n, b).len() ==> (#[trigger] digit_value(
                radix_digits(n, b)[k],
                b,
            )) is Some,
    decreases n,
{
    if n < b {
        lemma_digit_char_value(n, b);
    } else {
        assert(n / b < n) by (nonlinear_arith)
            requires
                b >= 2,
                n >= b,
        ;
        lemma_radix_digits_are_digits(n / b, b);
        assert(n % b < b) by (nonlinear_arith)
            requires
                b >= 2,
        ;
        lemma_digit_char_value(n % b, b);
    }
}

/// Reading one more character after `s`.
proof fn lemma_fold_push(s: Seq<char>, c: char, b: nat, acc: nat, limit: nat)
    requires
        acc <= limit,
    ensures
        radix_fold(s.push(c), b, acc, limit) == match radix_fold(s, b, acc, limit) {
            Ok(v) => match digit_value(c, b) {
                None => Err(IntParse::Invalid),
                Some(dv) => if v * b + dv > limit {
                    Err(IntParse::TooLarge)
                } else {
                    Ok(v * b + dv)
                },
            },
            Err(e) => Err(e),
        },
    decreases s.len(),
{
    if s.len() == 0 {
        assert(s.push(c).drop_first() =~= Seq::<char>::empty());
        if let Some(dv) = digit_value(c, b) {
            assert(s.push(c)[0] == c);
            if acc * b + dv <= limit {
                assert(radix_fold(s.push(c), b, acc, limit) == radix_fold(
                    Seq::<char>::empty(),
                    b,
                    acc * b + dv,
                    limit,
                ));
            }
        }
    } else {
        assert(s.push(c)[0] == s[0]);
        assert(s.push(c).drop_first() =~= s.drop_first().push(c));
        if let Some(v) = digit_value(s[0], b) {
            if acc * b + v <= limit {
                lemma_fold_push(s.drop_first(), c, b, acc * b + v, limit);
            }
        }
    }
}

/// The digits of `n` read back give `n`.
proof fn lemma_fold_digits(n: nat, b: nat, limit: nat)
    requires
        2 <= b <= 36,
        n <= limit,
    ensures
        radix_fold(radix_digits(n, b), b, 0, limit) == Ok::<nat, IntParse>(n),
    decreases n,
{
    if n < b {
        lemma_digit_char_value(n, b);
        assert(radix_digits(n, b).drop_first() =~= Seq::<char>::empty());
        assert(0 * b + n == n);
        assert(radix_fold(radix_digits(n, b), b, 0, limit) == radix_fold(
            Seq::<char>::empty(),
            b,
            n,
            limit,
        ));
    } else {
        let q = n / b;
        let r = n % b;
        assert(q < n && q * b + r == n && r < b) by (nonlinear_arith)
            requires
                b >= 2,
                n >= b,
                q == n / b,
                r == n % b,
        ;
        lemma_fold_digits(q, b, limit);
        lemma_fold_push(radix_digits(q, b), digit_char(r), b, 0, limit);
        lemma_digit_char_value(r, b);
        assert(radix_digits(n, b) == radix_digits(q, b).push(digit_char(r)));
    }
}

proof fn lemma_without_underscores_id(s: Seq<char>)
    requires
        forall|k: int| 0 <= k < s.len() ==> s[k] != '_',
    ensures
        without_underscores(s) == s,
    decreases s.len(),
{
    if s.len() > 0 {
        lemma_without_underscores_id(s.drop_last());
        assert(s.drop_last().push(s.last()) =~= s);
    }
}

/// The digits of `n` in radix `b` are read back as `n` by `parse_digits`.
pub(crate) proof fn lemma_parse_digits_of(neg: bool, n: nat, b: nat, prefixed: bool)
    requires
        2 <= b <= 36,
        n <= i128::MAX,
    ensures
        parse_digits(neg, b, radix_digits(n, b), prefixed) == IntParse::Parsed(
            if neg {
                (-n) as i128
            } else {
                n as i128
            },
        ),
{
    let d = radix_digits(n, b);
    lemma_radix_digits_are_digits(n, b);
    assert forall|k: int| 0 <= k < d.len() implies d[k] != '_' by {
        assert(digit_value(d[k], b) is Some);
    }
    lemma_without_underscores_id(d);
    assert(digit_value(d[0], b) is Some);
    lemma_fold_digits(n, b, magnitude_limit(neg));
}

/// `int(str(i)) == i` for every `Int` constant `i`: the decimal text that
/// `str` gives is read back by `int` as the same integer.
pub proof fn law_int_of_str_int(i: i64)
    ensures
        spec_py_str(SpecValue::Int(i)) matches Some(t) && spec_py_int(SpecValue::Str(t)) == Some(
            i as int,
        ),
{
    lemma_decimal_text_parses(i as int);
}

/// `int(str(n)) == n` for every `Nat` constant `n`.
pub proof fn law_int_of_str_nat(n: u64)
    ensures
        spec_py_str(SpecValue::Nat(n)) matches Some(t) && spec_py_int(SpecValue::Str(t)) == Some(
            n as int,
        ),
{
    lemma_decimal_text_parses(n as int);
}

proof fn lemma_decimal_text_parses(i: int)
    requires
        -i128::MAX <= i <= i128::MAX,
    ensures
        spec_parse_py_int(int_text(i), 10) == IntParse::Parsed(i as i128),
{
    let m: nat = if i < 0 { (-i) as nat } else { i as nat };
    let d = radix_digits(m, 10);
    lemma_radix_digits_are_digits(m, 10);
    let t = int_text(i);
    assert(digit_value(d[0], 10) is Some);
    assert(digit_value(d.last(), 10) is Some);
    assert(!is_white_space(t[0]));
    assert(trim_start(t) == t);
    assert(t.last() == d.last());
    assert(!is_white_space(t.last()));
    assert(trim_end(t) == t);
    assert(trim(t) == t);
    lemma_parse_digits_of(i < 0, m, 10, false);
    if i < 0 {
        assert(t.drop_first() =~= d);
    }
}

proof fn lemma_fold_wider_limit(d: Seq<char>, b: nat, acc: nat, l1: nat, l2: nat, m: nat)
    requires
        radix_fold(d, b, acc, l1) == Ok::<nat, IntParse>(m),
        l1 <= l2,
    ensures
        radix_fold(d, b, acc, l2) == Ok::<nat, IntParse>(m),
        m <= l1 || d.len() == 0,
    decreases d.len(),
{
    if d.len() > 0 {
        let v = digit_value(d[0], b)->0;
        lemma_fold_wider_limit(d.drop_first(), b, acc * b + v, l1, l2, m);
    }
}

/// The magnitude read by a successful fold stays within the limit.
proof fn lemma_fold_within_limit(d: Seq<char>, b: nat, acc: nat, l: nat, m: nat)
    requires
        radix_fold(d, b, acc, l) == Ok::<nat, IntParse>(m),
        acc <= l,
    ensures
        m <= l,
    decreases d.len(),
{
    if d.len() > 0 {
        let v = digit_value(d[0], b)->0;
        lemma_fold_within_limit(d.drop_first(), b, acc * b + v, l, m);
    }
}

/// A fold that fails fails with `Invalid` or `TooLarge`.
proof fn lemma_fold_err_not_parsed(d: Seq<char>, b: nat, acc: nat, l: nat)
    ensures
        radix_fold(d, b, acc, l) matches Err(e) ==> !(e is Parsed),
    decreases d.len(),
{
    if d.len() > 0 {
        if let Some(v) = digit_value(d[0], b) {
            lemma_fold_err_not_parsed(d.drop_first(), b, acc * b + v, l);
        }
    }
}

/// Digits read as a non-negative number are read as its negation after a
/// `-`.
proof fn lemma_parse_digits_negated(b: nat, digits: Seq<char>, prefixed: bool, i: i128)
    requires
        parse_digits(false, b, digits, prefixed) == IntParse::Parsed(i),
    ensures
        parse_digits(true, b, digits, prefixed) == IntParse::Parsed((-i) as i128),
        -i128::MAX <= -i,
{
    let d = without_underscores(digits);
    assert(underscores_well_placed(digits, prefixed));
    assert(!(d.len() > 0 && (d[0] == '+' || d[0] == '-')));
    lemma_fold_err_not_parsed(d, b, 0, magnitude_limit(false));
    assert(from_digits(d, b, magnitude_limit(false)) is Ok);
    assert(d.len() > 0);
    let m = from_digits(d, b, magnitude_limit(false))->Ok_0;
    assert(radix_fold(d, b, 0, magnitude_limit(false)) == Ok::<nat, IntParse>(m));
    lemma_fold_within_limit(d, b, 0, magnitude_limit(false), m);
    lemma_fold_wider_limit(d, b, 0, magnitude_limit(false), magnitude_limit(true), m);
    assert(i == m);
}

proof fn lemma_trim_start_len(s: Seq<char>)
    ensures
        trim_start(s).len() <= s.len(),
    decreases s.len(),
{
    if s.len() > 0 && is_white_space(s[0]) {
        lemma_trim_start_len(s.drop_first());
    }
}

proof fn lemma_trim_end_len(s: Seq<char>)
    ensures
        trim_end(s).len() <= s.len(),
    decreases s.len(),
{
    if s.len() > 0 && is_white_space(s.last()) {
        lemma_trim_end_len(s.drop_last());
    }
}

/// A sign put before text that is already trimmed keeps it trimmed.
proof fn lemma_trim_after_sign(s: Seq<char>, sign: char)
    requires
        trim(s) == s,
        s.len() > 0,
        sign == '-' || sign == '+',
    ensures
        trim(seq![sign] + s) == seq![sign] + s,
{
    if is_white_space(s[0]) {
        lemma_trim_start_len(s.drop_first());
        lemma_trim_end_len(trim_start(s));
    }
    assert(trim_start(s) == s);
    if is_white_space(s.last()) {
        lemma_trim_end_len(s.drop_last());
    }
    let x = seq![sign] + s;
    assert(x[0] == sign);
    assert(!is_white_space(x[0]));
    assert(trim_start(x) == x);
    assert(x.last() == s.last());
}

/// `int("-" + s) == -int(s)` and `int("+" + s) == int(s)`: a sign before
/// the trimmed, unsigned text `s` negates, or keeps, the integer that `s`
/// is read as.
pub proof fn law_sign_negates_or_keeps(s: Seq<char>, base: nat, i: i128)
    requires
        trim(s) == s,
        s.len() > 0 ==> s[0] != '-' && s[0] != '+',
        spec_parse_py_int(s, base) == IntParse::Parsed(i),
    ensures
        spec_parse_py_int(seq!['-'] + s, base) == IntParse::Parsed((-i) as i128),
        spec_parse_py_int(seq!['+'] + s, base) == IntParse::Parsed(i),
        -i128::MAX <= -i,
{
    if s.len() == 0 {
        assert(spec_parse_py_int(s, base) == IntParse::Invalid) by {
            assert(without_underscores(s) =~= s);
        }
    }
    lemma_trim_after_sign(s, '-');
    lemma_trim_after_sign(s, '+');
    let neg = seq!['-'] + s;
    let pos = seq!['+'] + s;
    assert(neg.drop_first() =~= s);
    assert(pos.drop_first() =~= s);
    if (base == 16 || base == 0) && has_radix_prefix(s, 'x', 'X') {
        lemma_parse_digits_negated(16, s.skip(2), true, i);
    } else if (base == 8 || base == 0) && has_radix_prefix(s, 'o', 'O') {
        lemma_parse_digits_negated(8, s.skip(2), true, i);
    } else if (base == 2 || base == 0) && has_radix_prefix(s, 'b', 'B') {
        lemma_parse_digits_negated(2, s.skip(2), true, i);
    } else if base == 0 {
        lemma_parse_digits_negated(10, s, false, i);
    } else {
        lemma_parse_digits_negated(base, s, false, i);
    }
}

proof fn lemma_trim_end_after(p: Seq<char>, d: Seq<char>)
    requires
        p.len() > 0,
        !is_white_space(p.last()),
    ensures
        trim_end(p + d) == p + trim_end(d),
    decreases d.len(),
{
    if d.len() == 0 {
        assert(p + d =~= p);
        assert(trim_end(p) == p);
    } else {
        assert((p + d).last() == d.last());
        if is_white_space(d.last()) {
            assert((p + d).drop_last() =~= p + d.drop_last());
            lemma_trim_end_after(p, d.drop_last());
        }
    }
}

/// The text `"0" + [c] + d` trimmed is `"0" + [c]` and the trimmed end of
/// `d`, for a letter `c`.
proof fn lemma_trim_prefixed(c: char, d: Seq<char>)
    requires
        c == 'x' || c == 'X' || c == 'o' || c == 'O' || c == 'b' || c == 'B',
    ensures
        trim(seq!['0', c] + d) == seq!['0', c] + trim_end(d),
{
    let p = seq!['0', c];
    let s = p + d;
    assert(s[0] == '0');
    assert(!is_white_space(s[0]));
    assert(trim_start(s) == s);
    assert(p.last() == c);
    lemma_trim_end_after(p, d);
}

/// The letter of a radix prefix may be written in either case: for any
/// text `d`, `int("0X" + d, b) == int("0x" + d, b)` in base 16 or 0, and
/// likewise `0O`/`0o` in base 8 or 0 and `0B`/`0b` in base 2 or 0.
pub proof fn law_radix_prefix_ignores_case(d: Seq<char>, base: nat)
    ensures
        (base == 16 || base == 0) ==> spec_parse_py_int(seq!['0', 'X'] + d, base)
            == spec_parse_py_int(seq!['0', 'x'] + d, base),
        (base == 8 || base == 0) ==> spec_parse_py_int(seq!['0', 'O'] + d, base)
            == spec_parse_py_int(seq!['0', 'o'] + d, base),
        (base == 2 || base == 0) ==> spec_parse_py_int(seq!['0', 'B'] + d, base)
            == spec_parse_py_int(seq!['0', 'b'] + d, base),
{
    lemma_trim_prefixed('x', d);
    lemma_trim_prefixed('X', d);
    lemma_trim_prefixed('o', d);
    lemma_trim_prefixed('O', d);
    lemma_trim_prefixed('b', d);
    lemma_trim_prefixed('B', d);
    let t = trim_end(d);
    assert((seq!['0', 'x'] + t).skip(2) =~= t);
    assert((seq!['0', 'X'] + t).skip(2) =~= t);
    assert((seq!['0', 'o'] + t).skip(2) =~= t);
    assert((seq!['0', 'O'] + t).skip(2) =~= t);
    assert((seq!['0', 'b'] + t).skip(2) =~= t);
    assert((seq!['0', 'B'] + t).skip(2) =~= t);
}

/// A radix prefix sets the radix: `int("0x" + d, 16) == int("0x" + d, 0)`,
/// and likewise for `0o` in base 8 and `0b` in base 2.
pub proof fn law_prefix_sets_the_radix(d: Seq<char>)
    ensures
        spec_parse_py_int(seq!['0', 'x'] + d, 16) == spec_parse_py_int(seq!['0', 'x'] + d, 0),
        spec_parse_py_int(seq!['0', 'o'] + d, 8) == spec_parse_py_int(seq!['0', 'o'] + d, 0),
        spec_parse_py_int(seq!['0', 'b'] + d, 2) == spec_parse_py_int(seq!['0', 'b'] + d, 0),
{
    lemma_trim_prefixed('x', d);
    lemma_trim_prefixed('o', d);
    lemma_trim_prefixed('b', d);
}

} // verus!
