//! Character-level text helpers: conversions between strings and character
//! vectors, Unicode white space, and digit strings in a radix.

use vstd::prelude::*;

verus! {

/// `String::push` appends one character.
pub assume_specification[ String::push ](string: &mut String, ch: char)
    ensures
        final(string)@ == old(string)@.push(ch),
;

/// The characters of `s`, in order.
pub fn chars_of(s: &str) -> (r: Vec<char>)
    ensures
        r@ == s@,
{
    let n = s.unicode_len();
    let mut r: Vec<char> = Vec::new();
    let mut i: usize = 0;
    while i < n
        invariant
            n == s@.len(),
            i <= n,
            r@ == s@.subrange(0, i as int),
        decreases n - i,
    {
        r.push(s.get_char(i));
        i = i + 1;
        assert(r@ =~= s@.subrange(0, i as int));
    }
    assert(r@ =~= s@);
    r
}

/// The string made of the characters `cs`, in order.
pub fn string_of(cs: &Vec<char>) -> (r: String)
    ensures
        r@ == cs@,
{
    let mut r = String::new();
    let mut i: usize = 0;
    while i < cs.len()
        invariant
            i <= cs.len(),
            r@ == cs@.subrange(0, i as int),
        decreases cs.len() - i,
    {
        r.push(cs[i]);
        i = i + 1;
        assert(r@ =~= cs@.subrange(0, i as int));
    }
    assert(r@ =~= cs@);
    r
}

/// A string holding the text of `s`.
pub fn string_from(s: &str) -> (r: String)
    ensures
        r@ == s@,
{
    s.to_owned()
}

/// Unicode white space, as `char::is_whitespace` and `str::trim` define it
/// (the `White_Space` property).
pub open spec fn is_white_space(c: char) -> bool {
    let u = c as u32;
    ||| 0x9 <= u <= 0xD
    ||| u == 0x20
    ||| u == 0x85
    ||| u == 0xA0
    ||| u == 0x1680
    ||| 0x2000 <= u <= 0x200A
    ||| u == 0x2028
    ||| u == 0x2029
    ||| u == 0x202F
    ||| u == 0x205F
    ||| u == 0x3000
}

pub fn is_white_space_char(c: char) -> (r: bool)
    ensures
        r == is_white_space(c),
{
    let u = c as u32;
    (0x9 <= u && u <= 0xD) || u == 0x20 || u == 0x85 || u == 0xA0 || u == 0x1680 || (0x2000 <= u
        && u <= 0x200A) || u == 0x2028 || u == 0x2029 || u == 0x202F || u == 0x205F || u == 0x3000
}

/// `s` without its leading white space.
pub open spec fn trim_start(s: Seq<char>) -> Seq<char>
    decreases s.len(),
{
    if s.len() > 0 && is_white_space(s[0]) {
        trim_start(s.drop_first())
    } else {
        s
    }
}

/// `s` without its trailing white space.
pub open spec fn trim_end(s: Seq<char>) -> Seq<char>
    decreases s.len(),
{
    if s.len() > 0 && is_white_space(s.last()) {
        trim_end(s.drop_last())
    } else {
        s
    }
}

/// `s` without leading and trailing white space, as `str::trim` gives it.
pub open spec fn trim(s: Seq<char>) -> Seq<char> {
    trim_end(trim_start(s))
}

/// The trimmed text of `s`.
pub fn trim_chars(s: &Vec<char>) -> (r: Vec<char>)
    ensures
        r@ == trim(s@),
{
    let mut a: usize = 0;
    assert(s@.subrange(0, s@.len() as int) =~= s@);
    while a < s.len() && is_white_space_char(s[a])
        invariant
            a <= s.len(),
            trim_start(s@) == trim_start(s@.subrange(a as int, s@.len() as int)),
        decreases s.len() - a,
    {
        assert(s@.subrange(a as int, s@.len() as int).drop_first() =~= s@.subrange(
            a + 1,
            s@.len() as int,
        ));
        a = a + 1;
    }
    let ghost t = s@.subrange(a as int, s@.len() as int);
    assert(trim_start(s@) == t);
    let mut b: usize = s.len();
    while b > a && is_white_space_char(s[b - 1])
        invariant
            a <= b <= s.len(),
            trim_end(t) == trim_end(s@.subrange(a as int, b as int)),
        decreases b,
    {
        assert(s@.subrange(a as int, b as int).drop_last() =~= s@.subrange(a as int, b - 1));
        b = b - 1;
    }
    let mut r: Vec<char> = Vec::new();
    let mut i: usize = a;
    while i < b
        invariant
            a <= i <= b <= s.len(),
            r@ == s@.subrange(a as int, i as int),
        decreases b - i,
    {
        r.push(s[i]);
        i = i + 1;
        assert(r@ =~= s@.subrange(a as int, i as int));
    }
    r
}

/// The digit character for `d` in radices up to 36: `0`-`9`, then `a`-`z`.
pub open spec fn digit_char(d: nat) -> char {
    if d < 10 {
        (d + 48) as char
    } else {
        (d + 87) as char
    }
}

fn digit_of(d: u32) -> (c: char)
    requires
        d < 36,
    ensures
        c == digit_char(d as nat),
{
    if d < 10 {
        ((d as u8) + 48) as char
    } else {
        ((d as u8) + 87) as char
    }
}

/// The digits of `n` in radix `r`, most significant first, without leading
/// zeros (`0` is the single digit `0`).
pub open spec fn radix_digits(n: nat, r: nat) -> Seq<char>
    decreases n,
{
    if r < 2 || n < r {
        seq![digit_char(n)]
    } else {
        proof {
            assert(n / r < n) by (nonlinear_arith)
                requires
                    r >= 2,
                    n >= r,
            ;
        }
        radix_digits(n / r, r).push(digit_char(n % r))
    }
}

/// The digits of `n` in radix `radix`.
pub fn radix_chars(n: u128, radix: u32) -> (r: Vec<char>)
    requires
        2 <= radix <= 36,
    ensures
        r@ == radix_digits(n as nat, radix as nat),
{
    let rad = radix as u128;
    let mut cur = n;
    let mut tail: Vec<char> = Vec::new();
    while cur >= rad
        invariant
            rad == radix as u128,
            2 <= radix <= 36,
            radix_digits(n as nat, radix as nat) == radix_digits(cur as nat, radix as nat) + tail@,
        decreases cur,
    {
        let d = (cur % rad) as u32;
        let q = cur / rad;
        assert(q < cur) by (nonlinear_arith)
            requires
                q == cur / rad,
                rad >= 2,
                cur >= rad,
        ;
        let ghost old_tail = tail@;
        tail.insert(0, digit_of(d));
        assert(radix_digits(cur as nat, radix as nat) == radix_digits(q as nat, radix as nat).push(
            digit_char(d as nat),
        ));
        assert(tail@ =~= seq![digit_char(d as nat)] + old_tail);
        assert(radix_digits(q as nat, radix as nat).push(digit_char(d as nat)) + old_tail
            =~= radix_digits(q as nat, radix as nat) + tail@);
        cur = q;
    }
    let mut r: Vec<char> = Vec::new();
    r.push(digit_of(cur as u32));
    assert(r@ == radix_digits(cur as nat, radix as nat));
    let mut i: usize = 0;
    while i < tail.len()
        invariant
            i <= tail.len(),
            r@ == radix_digits(cur as nat, radix as nat) + tail@.subrange(0, i as int),
        decreases tail.len() - i,
    {
        r.push(tail[i]);
        i = i + 1;
        assert(r@ =~= radix_digits(cur as nat, radix as nat) + tail@.subrange(0, i as int));
    }
    assert(tail@.subrange(0, tail@.len() as int) =~= tail@);
    r
}

/// The decimal text of the integer `i`, with a leading `-` when negative.
pub open spec fn int_text(i: int) -> Seq<char> {
    if i < 0 {
        seq!['-'] + radix_digits((-i) as nat, 10)
    } else {
        radix_digits(i as nat, 10)
    }
}

/// The magnitude of `i`, without overflow.
pub fn unsigned_abs(i: i128) -> (r: u128)
    ensures
        r as int == if i < 0 { -i } else { i as int },
{
    if i < 0 {
        ((-(i + 1)) as u128) + 1
    } else {
        i as u128
    }
}

/// The decimal text of `i`.
pub fn int_string(i: i128) -> (r: String)
    ensures
        r@ == int_text(i as int),
{
    let digits = radix_chars(unsigned_abs(i), 10);
    if i < 0 {
        let mut cs: Vec<char> = Vec::new();
        cs.push('-');
        let mut j: usize = 0;
        while j < digits.len()
            invariant
                j <= digits.len(),
                cs@ == seq!['-'] + digits@.subrange(0, j as int),
            decreases digits.len() - j,
        {
            cs.push(digits[j]);
            j = j + 1;
            assert(cs@ =~= seq!['-'] + digits@.subrange(0, j as int));
        }
        assert(digits@.subrange(0, digits@.len() as int) =~= digits@);
        string_of(&cs)
    } else {
        string_of(&digits)
    }
}

} // verus!
