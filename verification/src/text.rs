//! Character and string building blocks shared by the parser and the renderer.

use vstd::prelude::*;

verus! {

/// `String::push` appends one character.
pub assume_specification[ String::push ](s: &mut String, ch: char)
    ensures
        final(s)@ == old(s)@.push(ch),
;

/// A Unicode scalar value: at most U+10FFFF and not a surrogate.
pub open spec fn is_scalar(u: int) -> bool {
    0 <= u <= 0x10FFFF && !(0xD800 <= u <= 0xDFFF)
}

/// `char::from_u32` gives the character with that code point, or `None` for a
/// number that is not a Unicode scalar value.
pub assume_specification[ char::from_u32 ](i: u32) -> (r: Option<char>)
    ensures
        r == (if is_scalar(i as int) { Some(i as char) } else { None::<char> }),
;

/// The Unicode `White_Space` property, which `char::is_whitespace` tests.
pub open spec fn is_white_space(c: char) -> bool {
    let u = c as u32;
    ||| 0x09 <= u <= 0x0D
    ||| u == 0x20
    ||| u == 0x85
    ||| u == 0xA0
    ||| u == 0x1680
    ||| 0x2000 <= u <= 0x200A
    ||| u == 0x2028
    ||| u == 0x2029
    ||| u == 0x202F
    ||| u == 0x205F
    ||| u == 0x3000
}

pub fn white_space(c: char) -> (r: bool)
    ensures
        r == is_white_space(c),
{
    let u = c as u32;
    (0x09 <= u && u <= 0x0D) || u == 0x20 || u == 0x85 || u == 0xA0 || u == 0x1680 || (0x2000
        <= u && u <= 0x200A) || u == 0x2028 || u == 0x2029 || u == 0x202F || u == 0x205F || u
        == 0x3000
}

/// The character of a decimal digit.
pub open spec fn digit_char(d: nat) -> char {
    if d == 0 {
        '0'
    } else if d == 1 {
        '1'
    } else if d == 2 {
        '2'
    } else if d == 3 {
        '3'
    } else if d == 4 {
        '4'
    } else if d == 5 {
        '5'
    } else if d == 6 {
        '6'
    } else if d == 7 {
        '7'
    } else if d == 8 {
        '8'
    } else {
        '9'
    }
}

/// The decimal spelling of a natural number, as `{}` formats an unsigned integer.
pub open spec fn decimal(n: nat) -> Seq<char>
    decreases n,
{
    if n < 10 {
        seq![digit_char(n)]
    } else {
        decimal(n / 10).push(digit_char(n % 10))
    }
}

fn digit(d: u64) -> (c: char)
    requires
        d < 10,
    ensures
        c == digit_char(d as nat),
{
    if d == 0 {
        '0'
    } else if d == 1 {
        '1'
    } else if d == 2 {
        '2'
    } else if d == 3 {
        '3'
    } else if d == 4 {
        '4'
    } else if d == 5 {
        '5'
    } else if d == 6 {
        '6'
    } else if d == 7 {
        '7'
    } else if d == 8 {
        '8'
    } else {
        '9'
    }
}

/// Appends the decimal spelling of `n`.
pub fn push_decimal(s: &mut String, n: u64)
    ensures
        final(s)@ == old(s)@ + decimal(n as nat),
{
    let mut rev: Vec<char> = Vec::new();
    let mut m: u64 = n;
    let ghost mut rest: nat = n as nat;
    // rev holds the low digits, last digit first
    loop
        invariant_except_break
            m as nat == rest,
            decimal(n as nat) == decimal(rest) + rev@.reverse(),
        ensures
            decimal(n as nat) == rev@.reverse(),
        decreases m,
    {
        if m < 10 {
            let ghost old_rev = rev@;
            rev.push(digit(m));
            proof {
                assert(rev@.reverse() =~= seq![digit_char(rest)] + old_rev.reverse());
            }
            break;
        }
        let d = m % 10;
        let c = digit(d);
        proof {
            assert(decimal(rest) == decimal(rest / 10).push(digit_char(rest % 10)));
        }
        let ghost old_rev = rev@;
        rev.push(c);
        proof {
            assert(rev@.reverse() =~= seq![c] + old_rev.reverse());
            assert(decimal(n as nat) =~= decimal(rest / 10) + rev@.reverse());
        }
        m = m / 10;
        proof { rest = rest / 10; }
    }
    let ghost start = s@;
    let mut i = rev.len();
    while i > 0
        invariant
            i <= rev.len(),
            s@ == start + rev@.reverse().take((rev.len() - i) as int),
            decimal(n as nat) == rev@.reverse(),
        decreases i,
    {
        i = i - 1;
        let ghost before = s@;
        s.push(rev[i]);
        proof {
            assert(rev@.reverse()[(rev.len() - 1 - i) as int] == rev@[i as int]);
            assert(rev@.reverse().take((rev.len() - i) as int) =~= rev@.reverse().take(
                (rev.len() - 1 - i) as int,
            ).push(rev@[i as int]));
        }
    }
    proof { assert(rev@.reverse().take(rev.len() as int) =~= rev@.reverse()); }
}

/// Appends each character of a slice.
pub fn push_chars(s: &mut String, cs: &[char])
    ensures
        final(s)@ == old(s)@ + cs@,
{
    let ghost start = s@;
    for i in 0..cs.len()
        invariant
            s@ == start + cs@.take(i as int),
    {
        s.push(cs[i]);
        proof { assert(cs@.take(i + 1) =~= cs@.take(i as int).push(cs@[i as int])); }
    }
    proof { assert(cs@.take(cs.len() as int) =~= cs@); }
}

/// The characters of a string slice.
pub fn chars_of(s: &str) -> (v: Vec<char>)
    ensures
        v@ == s@,
{
    let mut v: Vec<char> = Vec::new();
    for c in it: s.chars()
        invariant
            v@ == it.seq().take(it.index() as int),
    {
        v.push(c);
    }
    v
}

/// A string made of the given characters.
pub fn string_of(cs: &[char]) -> (s: String)
    ensures
        s@ == cs@,
{
    let mut s = String::new();
    push_chars(&mut s, cs);
    s
}

} // verus!
