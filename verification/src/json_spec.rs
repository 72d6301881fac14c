//! The JSON grammar this crate reads, stated over sequences of characters.
//!
//! Every parse function takes the text and a start position and returns what it read with
//! the number of characters it consumed, or the error it stops on. Numbers are kept as the
//! literal text that spelled them; that text always has the shape of a Rust float literal.

use vstd::prelude::*;
use crate::text::{decimal, is_scalar, is_white_space};

verus! {

/// What a JSON text denotes.
pub enum JsonValue {
    Null,
    Bool(bool),
    Num(Seq<char>),
    Str(Seq<char>),
    Arr(Seq<JsonValue>),
    Obj(Map<Seq<char>, JsonValue>),
}

/// Why a text is not read as JSON, with the character positions the messages name.
pub enum SyntaxError {
    UnexpectedEnd,
    InvalidLiteral(nat),
    Expected(char, char, nat),
    ExpectedAtEnd(char),
    MalformedObject(nat),
    MalformedArray(nat),
    Unterminated,
    BadEscape(Option<char>),
    TruncatedEscape,
    BadHexDigit(char),
    BadNumber(Seq<char>),
    TrailingInput(nat),
}

/// How `{:?}` writes an optional character (`None`, `Some('x')`).
pub uninterp spec fn debug_text(c: Option<char>) -> Seq<char>;

/// Writes an optional character with `{:?}`: `None` is written `None`. The text of
/// `Some(c)` is named, not spelled out: Rust's `Debug` escapes characters by Unicode tables
/// that are not restated here.
#[verifier::external_body]
pub fn debug_char(c: Option<char>) -> (r: String)
    ensures
        r@ == debug_text(c),
        c is None ==> r@ == "None"@,
{
    format!("{:?}", c)
}

/// The message that reports an error.
pub open spec fn message(e: SyntaxError) -> Seq<char> {
    match e {
        SyntaxError::UnexpectedEnd => "unexpected end of input"@,
        SyntaxError::InvalidLiteral(i) => "invalid literal at "@ + decimal(i),
        SyntaxError::Expected(c, got, i) => "expected `"@ + seq![c] + "`, found `"@ + seq![got]
            + "` at "@ + decimal(i),
        SyntaxError::ExpectedAtEnd(c) => "expected `"@ + seq![c] + "`, found end of input"@,
        SyntaxError::MalformedObject(i) => "malformed object near "@ + decimal(i),
        SyntaxError::MalformedArray(i) => "malformed array near "@ + decimal(i),
        SyntaxError::Unterminated => "unterminated string"@,
        SyntaxError::BadEscape(c) => "bad escape `\\"@ + (match c {
            None => "None"@,
            Some(_) => debug_text(c),
        }) + "`"@,
        SyntaxError::TruncatedEscape => "truncated \\u escape"@,
        SyntaxError::BadHexDigit(c) => "bad hex digit `"@ + seq![c] + "`"@,
        SyntaxError::BadNumber(t) => "bad number `"@ + t + "`"@,
        SyntaxError::TrailingInput(i) => "trailing input at char "@ + decimal(i),
    }
}

/// Adds `k` consumed characters to a successful result.
pub open spec fn shift<T>(k: nat, r: Result<(T, nat), SyntaxError>) -> Result<(T, nat), SyntaxError> {
    match r {
        Ok((t, n)) => Ok((t, n + k)),
        Err(e) => Err(e),
    }
}

/// The number of whitespace characters from `i` on.
pub open spec fn ws_len(s: Seq<char>, i: nat) -> nat
    decreases s.len() - i,
{
    if i < s.len() && is_white_space(s[i as int]) {
        1 + ws_len(s, i + 1)
    } else {
        0
    }
}

pub proof fn lemma_ws_len(s: Seq<char>, i: nat)
    ensures
        i <= s.len() ==> i + ws_len(s, i) <= s.len(),
        i + ws_len(s, i) < s.len() ==> !is_white_space(s[(i + ws_len(s, i)) as int]),
        forall|k: int| i <= k < i + ws_len(s, i) ==> is_white_space(#[trigger] s[k]),
    decreases s.len() - i,
{
    if i < s.len() && is_white_space(s[i as int]) {
        lemma_ws_len(s, i + 1);
    }
}

pub open spec fn is_ascii_digit(c: char) -> bool {
    '0' <= c <= '9'
}

/// The characters a number is scanned over.
pub open spec fn is_number_char(c: char) -> bool {
    is_ascii_digit(c) || c == '-' || c == '+' || c == '.' || c == 'e' || c == 'E'
}

pub open spec fn number_run(s: Seq<char>, i: nat) -> nat
    decreases s.len() - i,
{
    if i < s.len() && is_number_char(s[i as int]) {
        1 + number_run(s, i + 1)
    } else {
        0
    }
}

pub open spec fn digit_run(t: Seq<char>, i: nat) -> nat
    decreases t.len() - i,
{
    if i < t.len() && is_ascii_digit(t[i as int]) {
        1 + digit_run(t, i + 1)
    } else {
        0
    }
}

pub open spec fn sign_len(t: Seq<char>, i: nat) -> nat {
    if i < t.len() && (t[i as int] == '+' || t[i as int] == '-') {
        1
    } else {
        0
    }
}

/// The shape of a Rust float literal without `inf` and `nan`:
/// `[+-]? (d+ | d+ '.' d* | d* '.' d+) ([eE] [+-]? d+)?`.
pub open spec fn is_float_text(t: Seq<char>) -> bool {
    let k = sign_len(t, 0);
    let a = k + digit_run(t, k);
    let has_point = a < t.len() && t[a as int] == '.';
    let b: nat = if has_point { a + 1 + digit_run(t, a + 1) } else { a };
    let mantissa = a > k || (has_point && b > a + 1);
    mantissa && (b == t.len() || (b < t.len() && (t[b as int] == 'e' || t[b as int] == 'E') && {
        let f = b + 1 + sign_len(t, b + 1);
        let g = f + digit_run(t, f);
        g > f && g == t.len()
    }))
}

pub open spec fn number(s: Seq<char>, i: nat) -> Result<(JsonValue, nat), SyntaxError> {
    let n = number_run(s, i);
    let t = s.subrange(i as int, (i + n) as int);
    if is_float_text(t) {
        Ok((JsonValue::Num(t), n))
    } else {
        Err(SyntaxError::BadNumber(t))
    }
}

pub open spec fn literal(s: Seq<char>, i: nat, word: Seq<char>, v: JsonValue) -> Result<
    (JsonValue, nat),
    SyntaxError,
> {
    if i + word.len() <= s.len() && s.subrange(i as int, (i + word.len()) as int) == word {
        Ok((v, word.len()))
    } else {
        Err(SyntaxError::InvalidLiteral(i))
    }
}

/// The value of a hexadecimal digit, as `char::to_digit(16)` gives it.
pub open spec fn hex_value(c: char) -> Option<nat> {
    if '0' <= c <= '9' {
        Some((c as u32 - '0' as u32) as nat)
    } else if 'a' <= c <= 'f' {
        Some((c as u32 - 'a' as u32 + 10) as nat)
    } else if 'A' <= c <= 'F' {
        Some((c as u32 - 'A' as u32 + 10) as nat)
    } else {
        None
    }
}

/// The hex digits are the sixteen characters `0`-`9`, `a`-`f` and `A`-`F`, as
/// `char::to_digit(16)` takes them: the `d`-th of `0123456789abcdef` and the `d`-th of
/// `0123456789ABCDEF` both have the value `d`, and no other character has one.
pub proof fn law_hex_digits_are_base_sixteen(c: char)
    ensures
        hex_value(c) is Some <==> ("0123456789abcdef"@.contains(c) || "0123456789ABCDEF"@.contains(c)),
        forall|d: int| 0 <= d < 16 ==> hex_value(#[trigger] "0123456789abcdef"@[d]) == Some(d as nat),
        forall|d: int| 0 <= d < 16 ==> hex_value(#[trigger] "0123456789ABCDEF"@[d]) == Some(d as nat),
{
    reveal_strlit("0123456789abcdef");
    reveal_strlit("0123456789ABCDEF");
    let lo = "0123456789abcdef"@;
    let up = "0123456789ABCDEF"@;
    assert(lo =~= seq!['0', '1', '2', '3', '4', '5', '6', '7', '8', '9', 'a', 'b', 'c', 'd', 'e', 'f']);
    assert(up =~= seq!['0', '1', '2', '3', '4', '5', '6', '7', '8', '9', 'A', 'B', 'C', 'D', 'E', 'F']);
    if hex_value(c) is Some {
        let d: int = hex_value(c)->Some_0 as int;
        assert(0 <= d < 16);
        if 'A' <= c <= 'F' {
            assert(up[d] == c);
        } else {
            assert(lo[d] == c);
        }
    }
}

/// The case of a hex letter does not matter: `A`-`F` have the values of `a`-`f`.
pub proof fn law_hex_digit_case_is_ignored(c: char)
    requires
        'a' <= c <= 'f',
    ensures
        hex_value(((c as u32) - 32) as char) == hex_value(c),
        hex_value(c) is Some,
{
}

/// Reads the hex digits `k..4` of an escape whose digits start at `i`.
pub open spec fn hex_run(s: Seq<char>, i: nat, k: nat, acc: nat) -> Result<nat, SyntaxError>
    decreases 4 - k,
{
    if k >= 4 {
        Ok(acc)
    } else if i + k >= s.len() {
        Err(SyntaxError::TruncatedEscape)
    } else {
        match hex_value(s[(i + k) as int]) {
            None => Err(SyntaxError::BadHexDigit(s[(i + k) as int])),
            Some(d) => hex_run(s, i, k + 1, acc * 16 + d),
        }
    }
}

pub open spec fn hex4(s: Seq<char>, i: nat) -> Result<nat, SyntaxError> {
    hex_run(s, i, 0, 0)
}

pub open spec fn replacement() -> char {
    '\u{FFFD}'
}

pub open spec fn char_or_replacement(u: int) -> char {
    if is_scalar(u) {
        u as char
    } else {
        replacement()
    }
}

/// The character of a `\u` escape whose hex digits start at `i`: a surrogate pair
/// combines, and a lone surrogate reads as U+FFFD. An escape after a high surrogate that
/// is not a low surrogate is left to be read on its own.
pub open spec fn unicode_escape(s: Seq<char>, i: nat) -> Result<(char, nat), SyntaxError> {
    match hex4(s, i) {
        Err(e) => Err(e),
        Ok(hi) => if 0xD800 <= hi < 0xDC00 {
            let j = i + 4;
            if j + 1 < s.len() && s[j as int] == '\\' && s[(j + 1) as int] == 'u' {
                match hex4(s, j + 2) {
                    Err(e) => Err(e),
                    Ok(lo) => if 0xDC00 <= lo < 0xE000 {
                        Ok(
                            (
                                char_or_replacement(
                                    0x10000 + (hi - 0xD800) * 1024 + (lo - 0xDC00),
                                ),
                                10,
                            ),
                        )
                    } else {
                        Ok((replacement(), 4))
                    },
                }
            } else {
                Ok((replacement(), 4))
            }
        } else {
            Ok((char_or_replacement(hi as int), 4))
        },
    }
}

/// The character a one-letter escape `\c` stands for.
pub open spec fn simple_escape(c: char) -> Option<char> {
    if c == '"' {
        Some('"')
    } else if c == '\\' {
        Some('\\')
    } else if c == '/' {
        Some('/')
    } else if c == 'n' {
        Some('\n')
    } else if c == 't' {
        Some('\t')
    } else if c == 'r' {
        Some('\r')
    } else if c == 'b' {
        Some('\u{8}')
    } else if c == 'f' {
        Some('\u{c}')
    } else {
        None
    }
}

pub proof fn lemma_hex_run(s: Seq<char>, i: nat, k: nat, acc: nat)
    requires
        k <= 4,
    ensures
        hex_run(s, i, k, acc) is Ok && k < 4 ==> i + 4 <= s.len(),
    decreases 4 - k,
{
    if k < 4 && i + k < s.len() {
        if let Some(d) = hex_value(s[(i + k) as int]) {
            lemma_hex_run(s, i, k + 1, acc * 16 + d);
        }
    }
}

pub proof fn lemma_unicode_escape(s: Seq<char>, i: nat)
    ensures
        unicode_escape(s, i) matches Ok((c, n)) ==> i + n <= s.len() && n >= 4,
{
    lemma_hex_run(s, i, 0, 0);
    lemma_hex_run(s, i + 6, 0, 0);
}

/// The rest of a string literal from `i` (after the opening quote), with `acc` read so
/// far; consumes the closing quote.
pub open spec fn string_body(s: Seq<char>, i: nat, acc: Seq<char>) -> Result<
    (Seq<char>, nat),
    SyntaxError,
>
    decreases s.len() - i,
{
    if i >= s.len() {
        Err(SyntaxError::Unterminated)
    } else if s[i as int] == '"' {
        Ok((acc, 1))
    } else if s[i as int] == '\\' {
        if i + 1 >= s.len() {
            Err(SyntaxError::BadEscape(None))
        } else {
            let e = s[(i + 1) as int];
            match simple_escape(e) {
                Some(c) => shift(2, string_body(s, i + 2, acc.push(c))),
                None => if e == 'u' {
                    match unicode_escape(s, i + 2) {
                        Err(x) => Err(x),
                        Ok((c, n)) => {
                            proof {
                                lemma_unicode_escape(s, i + 2);
                            }
                            shift(2 + n, string_body(s, i + 2 + n, acc.push(c)))
                        },
                    }
                } else {
                    Err(SyntaxError::BadEscape(Some(e)))
                },
            }
        }
    } else {
        shift(1, string_body(s, i + 1, acc.push(s[i as int])))
    }
}

/// A string literal at `i`, opening quote included.
pub open spec fn string_at(s: Seq<char>, i: nat) -> Result<(Seq<char>, nat), SyntaxError> {
    if i >= s.len() {
        Err(SyntaxError::ExpectedAtEnd('"'))
    } else if s[i as int] != '"' {
        Err(SyntaxError::Expected('"', s[i as int], i))
    } else {
        shift(1, string_body(s, i + 1, seq![]))
    }
}

/// A JSON value at `i`.
pub open spec fn value(s: Seq<char>, i: nat) -> Result<(JsonValue, nat), SyntaxError>
    decreases s.len() - i, 0int,
{
    if i >= s.len() {
        Err(SyntaxError::UnexpectedEnd)
    } else {
        let c = s[i as int];
        if c == '{' {
            shift(1, object(s, i + 1))
        } else if c == '[' {
            shift(1, array(s, i + 1))
        } else if c == '"' {
            match string_at(s, i) {
                Ok((t, n)) => Ok((JsonValue::Str(t), n)),
                Err(e) => Err(e),
            }
        } else if c == 't' {
            literal(s, i, seq!['t', 'r', 'u', 'e'], JsonValue::Bool(true))
        } else if c == 'f' {
            literal(s, i, seq!['f', 'a', 'l', 's', 'e'], JsonValue::Bool(false))
        } else if c == 'n' {
            literal(s, i, seq!['n', 'u', 'l', 'l'], JsonValue::Null)
        } else {
            number(s, i)
        }
    }
}

/// An object after its opening brace.
pub open spec fn object(s: Seq<char>, i: nat) -> Result<(JsonValue, nat), SyntaxError>
    decreases s.len() - i, 2int,
{
    let j = i + ws_len(s, i);
    proof {
        lemma_ws_len(s, i);
    }
    if j < s.len() && s[j as int] == '}' {
        Ok((JsonValue::Obj(Map::empty()), ws_len(s, i) + 1))
    } else if i <= s.len() {
        shift(ws_len(s, i), members(s, j, Map::empty()))
    } else {
        Err(SyntaxError::UnexpectedEnd)
    }
}

/// The members of an object from `i`, with `acc` read so far; consumes the closing brace.
/// A key given twice keeps its last value.
pub open spec fn members(s: Seq<char>, i: nat, acc: Map<Seq<char>, JsonValue>) -> Result<
    (JsonValue, nat),
    SyntaxError,
>
    decreases s.len() - i, 1int,
{
    let j = i + ws_len(s, i);
    match string_at(s, j) {
        Err(e) => Err(e),
        Ok((k, n1)) => {
            let p = j + n1;
            let p1 = p + ws_len(s, p);
            if p1 >= s.len() {
                Err(SyntaxError::ExpectedAtEnd(':'))
            } else if s[p1 as int] != ':' {
                Err(SyntaxError::Expected(':', s[p1 as int], p1))
            } else {
                let p2 = p1 + 1;
                let p3 = p2 + ws_len(s, p2);
                proof {
                    lemma_ws_len(s, p2);
                }
                match value(s, p3) {
                    Err(e) => Err(e),
                    Ok((v, n2)) => {
                        let acc2 = acc.insert(k, v);
                        let p4 = p3 + n2;
                        let p5 = p4 + ws_len(s, p4);
                        if p5 < s.len() && s[p5 as int] == ',' {
                            shift((p5 + 1 - i) as nat, members(s, p5 + 1, acc2))
                        } else if p5 < s.len() && s[p5 as int] == '}' {
                            Ok((JsonValue::Obj(acc2), (p5 + 1 - i) as nat))
                        } else if p5 < s.len() {
                            Err(SyntaxError::MalformedObject(p5 + 1))
                        } else {
                            Err(SyntaxError::MalformedObject(p5))
                        }
                    },
                }
            }
        },
    }
}

/// An array after its opening bracket.
pub open spec fn array(s: Seq<char>, i: nat) -> Result<(JsonValue, nat), SyntaxError>
    decreases s.len() - i, 2int,
{
    let j = i + ws_len(s, i);
    proof {
        lemma_ws_len(s, i);
    }
    if j < s.len() && s[j as int] == ']' {
        Ok((JsonValue::Arr(seq![]), ws_len(s, i) + 1))
    } else if i <= s.len() {
        shift(ws_len(s, i), elements(s, j, seq![]))
    } else {
        Err(SyntaxError::UnexpectedEnd)
    }
}

/// The elements of an array from `i`, with `acc` read so far; consumes the closing bracket.
pub open spec fn elements(s: Seq<char>, i: nat, acc: Seq<JsonValue>) -> Result<
    (JsonValue, nat),
    SyntaxError,
>
    decreases s.len() - i, 1int,
{
    let j = i + ws_len(s, i);
    proof {
        lemma_ws_len(s, i);
    }
    if i > s.len() {
        Err(SyntaxError::UnexpectedEnd)
    } else {
        match value(s, j) {
            Err(e) => Err(e),
            Ok((v, n)) => {
                let acc2 = acc.push(v);
                let p = j + n;
                let q = p + ws_len(s, p);
                if q < s.len() && s[q as int] == ',' {
                    shift((q + 1 - i) as nat, elements(s, q + 1, acc2))
                } else if q < s.len() && s[q as int] == ']' {
                    Ok((JsonValue::Arr(acc2), (q + 1 - i) as nat))
                } else if q < s.len() {
                    Err(SyntaxError::MalformedArray(q + 1))
                } else {
                    Err(SyntaxError::MalformedArray(q))
                }
            },
        }
    }
}

/// A whole JSON text: one value with optional whitespace around it.
pub open spec fn parse_text(s: Seq<char>) -> Result<JsonValue, SyntaxError> {
    let i = ws_len(s, 0);
    match value(s, i) {
        Err(e) => Err(e),
        Ok((v, n)) => {
            let p = i + n;
            let q = p + ws_len(s, p);
            if q == s.len() {
                Ok(v)
            } else {
                Err(SyntaxError::TrailingInput(q))
            }
        },
    }
}

} // verus!
