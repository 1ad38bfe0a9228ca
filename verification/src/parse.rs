//! Parsing of JSON text.
//!
//! The grammar is defined by spec functions over `Seq<char>`; the executable
//! parser is proved to return exactly what they say. A failure is either
//! [`ParseError::UnexpectedEnd`] — the text ran out mid-token, which for
//! NDJSON streams signals clean exhaustion — or [`ParseError::Bad`].
//!
//! Numbers must be integers in the 64-bit signed range; string escapes are
//! the ones the serializer emits (`\" \\ \/ \b \f \n \r \t`).
use crate::json::{jv_of, jv_of_members, jv_of_seq, lemma_jv_of_members, lemma_jv_of_seq, Json,
    JsonV};
use crate::strutil::{chars_of, push_char};
use vstd::prelude::*;

verus! {

/// Why a parse failed.
#[derive(Debug, Clone, Copy, PartialEq, Eq, Structural)]
pub enum ParseError {
    /// The text ended in the middle of a value.
    UnexpectedEnd,
    /// The text does not follow the grammar, or a number is out of range.
    Bad,
}

/// A whitespace character.
pub open spec fn is_ws(c: char) -> bool {
    c == ' ' || c == '\n' || c == '\r' || c == '\t'
}

/// A decimal digit character.
pub open spec fn is_digit(c: char) -> bool {
    c == '0' || c == '1' || c == '2' || c == '3' || c == '4' || c == '5' || c == '6' || c == '7'
        || c == '8' || c == '9'
}

/// The numeric value of a digit character.
pub open spec fn digit_val(c: char) -> int {
    if c == '0' {
        0
    } else if c == '1' {
        1
    } else if c == '2' {
        2
    } else if c == '3' {
        3
    } else if c == '4' {
        4
    } else if c == '5' {
        5
    } else if c == '6' {
        6
    } else if c == '7' {
        7
    } else if c == '8' {
        8
    } else {
        9
    }
}

/// The value of a digit string, most significant first.
pub open spec fn dec_val(digs: Seq<char>) -> int
    decreases digs.len(),
{
    if digs.len() == 0 {
        0
    } else {
        dec_val(digs.subrange(0, digs.len() - 1)) * 10 + digit_val(digs.last())
    }
}

/// The first place at or after `i` holding a non-whitespace character.
pub open spec fn skip_ws(s: Seq<char>, i: int) -> int
    decreases s.len() - i,
    when 0 <= i <= s.len()
{
    if i < s.len() && is_ws(s[i]) {
        skip_ws(s, i + 1)
    } else {
        i
    }
}

pub proof fn lemma_skip_ws(s: Seq<char>, i: int)
    requires
        0 <= i <= s.len(),
    ensures
        i <= skip_ws(s, i) <= s.len(),
        skip_ws(s, i) < s.len() ==> !is_ws(s[skip_ws(s, i)]),
        forall|k: int| i <= k < skip_ws(s, i) ==> is_ws(s[k]),
    decreases s.len() - i,
{
    if i < s.len() && is_ws(s[i]) {
        lemma_skip_ws(s, i + 1);
    }
}

/// Whether the word `w` stands at place `i` of `s`.
pub open spec fn has_word(s: Seq<char>, i: int, w: Seq<char>) -> bool {
    0 <= i && i + w.len() <= s.len() && s.subrange(i, i + w.len() as int) == w
}

/// The first place at or after `i` holding a non-digit character.
pub open spec fn digits_end(s: Seq<char>, i: int) -> int
    decreases s.len() - i,
    when 0 <= i <= s.len()
{
    if i < s.len() && is_digit(s[i]) {
        digits_end(s, i + 1)
    } else {
        i
    }
}

pub proof fn lemma_digits_end(s: Seq<char>, i: int)
    requires
        0 <= i <= s.len(),
    ensures
        i <= digits_end(s, i) <= s.len(),
        digits_end(s, i) < s.len() ==> !is_digit(s[digits_end(s, i)]),
        forall|k: int| i <= k < digits_end(s, i) ==> is_digit(s[k]),
    decreases s.len() - i,
{
    if i < s.len() && is_digit(s[i]) {
        lemma_digits_end(s, i + 1);
    }
}

/// Parse of a number starting at `i` (`s[i]` is a digit or a minus sign).
pub open spec fn sp_number(s: Seq<char>, i: int) -> Result<(JsonV, int), ParseError> {
    let neg = s[i] == '-';
    let lo = if neg {
        i + 1
    } else {
        i
    };
    let hi = digits_end(s, lo);
    if hi == lo {
        if lo >= s.len() {
            Err(ParseError::UnexpectedEnd)
        } else {
            Err(ParseError::Bad)
        }
    } else if hi - lo > 1 && s[lo] == '0' {
        Err(ParseError::Bad)
    } else if hi - lo > 19 {
        Err(ParseError::Bad)
    } else {
        let val = dec_val(s.subrange(lo, hi));
        if neg {
            if val > 9223372036854775808 {
                Err(ParseError::Bad)
            } else {
                Ok((JsonV::Num(-val), hi))
            }
        } else {
            if val > 9223372036854775807 {
                Err(ParseError::Bad)
            } else {
                Ok((JsonV::Num(val), hi))
            }
        }
    }
}

/// Parse of a string body starting at `i`, just after the opening quote;
/// ends after the closing quote.
pub open spec fn sp_string(s: Seq<char>, i: int) -> Result<(Seq<char>, int), ParseError>
    decreases s.len() - i,
    when 0 <= i <= s.len()
{
    if i >= s.len() {
        Err(ParseError::UnexpectedEnd)
    } else {
        let c = s[i];
        if c == '"' {
            Ok((Seq::empty(), i + 1))
        } else if c == '\\' {
            if i + 1 >= s.len() {
                Err(ParseError::UnexpectedEnd)
            } else {
                let e = s[i + 1];
                if e == '"' || e == '\\' || e == '/' || e == 'n' || e == 'r' || e == 't' || e == 'b'
                    || e == 'f' {
                    let d = if e == '"' {
                        '"'
                    } else if e == '\\' {
                        '\\'
                    } else if e == '/' {
                        '/'
                    } else if e == 'n' {
                        '\n'
                    } else if e == 'r' {
                        '\r'
                    } else if e == 't' {
                        '\t'
                    } else if e == 'b' {
                        '\u{8}'
                    } else {
                        '\u{c}'
                    };
                    match sp_string(s, i + 2) {
                        Ok((rest, k)) => Ok((seq![d] + rest, k)),
                        Err(e) => Err(e),
                    }
                } else {
                    Err(ParseError::Bad)
                }
            }
        } else {
            match sp_string(s, i + 1) {
                Ok((rest, k)) => Ok((seq![c] + rest, k)),
                Err(e) => Err(e),
            }
        }
    }
}

pub proof fn lemma_sp_string(s: Seq<char>, i: int)
    requires
        0 <= i <= s.len(),
    ensures
        sp_string(s, i) matches Ok((body, k)) ==> i < k <= s.len(),
    decreases s.len() - i,
{
    if i < s.len() {
        if s[i] == '\\' && i + 1 < s.len() {
            lemma_sp_string(s, i + 2);
        } else if s[i] != '"' {
            lemma_sp_string(s, i + 1);
        }
    }
}

/// Parse of a value whose first non-whitespace character is at or after `i`.
pub open spec fn sp_value(s: Seq<char>, i: int) -> Result<(JsonV, int), ParseError>
    decreases s.len() - i, 2int,
    when 0 <= i <= s.len()
{
    let j = skip_ws(s, i);
    proof {
        lemma_skip_ws(s, i);
    }
    if j >= s.len() {
        Err(ParseError::UnexpectedEnd)
    } else {
        let c = s[j];
        if c == 'n' {
            if has_word(s, j, seq!['n', 'u', 'l', 'l']) {
                Ok((JsonV::Null, j + 4))
            } else {
                Err(ParseError::Bad)
            }
        } else if c == 't' {
            if has_word(s, j, seq!['t', 'r', 'u', 'e']) {
                Ok((JsonV::Bool(true), j + 4))
            } else {
                Err(ParseError::Bad)
            }
        } else if c == 'f' {
            if has_word(s, j, seq!['f', 'a', 'l', 's', 'e']) {
                Ok((JsonV::Bool(false), j + 5))
            } else {
                Err(ParseError::Bad)
            }
        } else if c == '"' {
            match sp_string(s, j + 1) {
                Ok((body, k)) => Ok((JsonV::Str(body), k)),
                Err(e) => Err(e),
            }
        } else if c == '-' || is_digit(c) {
            sp_number(s, j)
        } else if c == '[' {
            let j2 = skip_ws(s, j + 1);
            proof {
                lemma_skip_ws(s, j + 1);
            }
            if j2 >= s.len() {
                Err(ParseError::UnexpectedEnd)
            } else if s[j2] == ']' {
                Ok((JsonV::Arr(Seq::empty()), j2 + 1))
            } else {
                match sp_items(s, j2) {
                    Ok((xs, k)) => Ok((JsonV::Arr(xs), k)),
                    Err(e) => Err(e),
                }
            }
        } else if c == '{' {
            let j2 = skip_ws(s, j + 1);
            proof {
                lemma_skip_ws(s, j + 1);
            }
            if j2 >= s.len() {
                Err(ParseError::UnexpectedEnd)
            } else if s[j2] == '}' {
                Ok((JsonV::Obj(Seq::empty()), j2 + 1))
            } else {
                match sp_members(s, j2) {
                    Ok((ms, k)) => Ok((JsonV::Obj(ms), k)),
                    Err(e) => Err(e),
                }
            }
        } else {
            Err(ParseError::Bad)
        }
    }
}

/// Parse of one or more comma-separated array elements from `i`, the
/// closing bracket included.
pub open spec fn sp_items(s: Seq<char>, i: int) -> Result<(Seq<JsonV>, int), ParseError>
    decreases s.len() - i, 3int,
    when 0 <= i <= s.len()
{
    match sp_value(s, i) {
        Err(e) => Err(e),
        Ok((v, k)) => if !(i < k && k <= s.len()) {
            Err(ParseError::Bad)
        } else {
            let k2 = skip_ws(s, k);
            proof {
                lemma_skip_ws(s, k);
            }
            if k2 >= s.len() {
                Err(ParseError::UnexpectedEnd)
            } else if s[k2] == ']' {
                Ok((seq![v], k2 + 1))
            } else if s[k2] == ',' {
                match sp_items(s, k2 + 1) {
                    Ok((rest, k3)) => Ok((seq![v] + rest, k3)),
                    Err(e) => Err(e),
                }
            } else {
                Err(ParseError::Bad)
            }
        },
    }
}

/// Parse of one or more comma-separated object members from `i`, the
/// closing brace included.
pub open spec fn sp_members(s: Seq<char>, i: int) -> Result<
    (Seq<(Seq<char>, JsonV)>, int),
    ParseError,
>
    decreases s.len() - i, 3int,
    when 0 <= i <= s.len()
{
    let j = skip_ws(s, i);
    proof {
        lemma_skip_ws(s, i);
    }
    if j >= s.len() {
        Err(ParseError::UnexpectedEnd)
    } else if s[j] != '"' {
        Err(ParseError::Bad)
    } else {
        match sp_string(s, j + 1) {
            Err(e) => Err(e),
            Ok((name, k)) => {
                proof {
                    lemma_sp_string(s, j + 1);
                }
                let k2 = skip_ws(s, k);
                proof {
                    lemma_skip_ws(s, k);
                }
                if k2 >= s.len() {
                    Err(ParseError::UnexpectedEnd)
                } else if s[k2] != ':' {
                    Err(ParseError::Bad)
                } else {
                    match sp_value(s, k2 + 1) {
                        Err(e) => Err(e),
                        Ok((v, k3)) => if !(k2 < k3 && k3 <= s.len()) {
                            Err(ParseError::Bad)
                        } else {
                            let k4 = skip_ws(s, k3);
                            proof {
                                lemma_skip_ws(s, k3);
                            }
                            if k4 >= s.len() {
                                Err(ParseError::UnexpectedEnd)
                            } else if s[k4] == '}' {
                                Ok((seq![(name, v)], k4 + 1))
                            } else if s[k4] == ',' {
                                match sp_members(s, k4 + 1) {
                                    Ok((rest, k5)) => Ok((seq![(name, v)] + rest, k5)),
                                    Err(e) => Err(e),
                                }
                            } else {
                                Err(ParseError::Bad)
                            }
                        },
                    }
                }
            },
        }
    }
}

/// Progress of [`sp_value`]: a parsed value ends after where it began and
/// within the text.
pub proof fn lemma_sp_value(s: Seq<char>, i: int)
    requires
        0 <= i <= s.len(),
    ensures
        sp_value(s, i) matches Ok((v, k)) ==> i < k <= s.len(),
    decreases s.len() - i, 2int,
{
    lemma_skip_ws(s, i);
    let j = skip_ws(s, i);
    if j < s.len() {
        let c = s[j];
        if c == '"' {
            lemma_sp_string(s, j + 1);
        } else if c == '-' || is_digit(c) {
            if c == '-' {
                lemma_digits_end(s, j + 1);
            } else {
                lemma_digits_end(s, j);
            }
        } else if c == '[' {
            lemma_skip_ws(s, j + 1);
            let j2 = skip_ws(s, j + 1);
            if j2 < s.len() && s[j2] != ']' {
                lemma_sp_items(s, j2);
            }
        } else if c == '{' {
            lemma_skip_ws(s, j + 1);
            let j2 = skip_ws(s, j + 1);
            if j2 < s.len() && s[j2] != '}' {
                lemma_sp_members(s, j2);
            }
        }
    }
}

/// Progress of [`sp_items`].
pub proof fn lemma_sp_items(s: Seq<char>, i: int)
    requires
        0 <= i <= s.len(),
    ensures
        sp_items(s, i) matches Ok((xs, k)) ==> i < k <= s.len() && xs.len() > 0,
    decreases s.len() - i, 3int,
{
    lemma_sp_value(s, i);
    if let Ok((v, k)) = sp_value(s, i) {
        lemma_skip_ws(s, k);
        let k2 = skip_ws(s, k);
        if k2 < s.len() && s[k2] == ',' {
            lemma_sp_items(s, k2 + 1);
        }
    }
}

/// Progress of [`sp_members`].
pub proof fn lemma_sp_members(s: Seq<char>, i: int)
    requires
        0 <= i <= s.len(),
    ensures
        sp_members(s, i) matches Ok((ms, k)) ==> i < k <= s.len() && ms.len() > 0,
    decreases s.len() - i, 3int,
{
    lemma_skip_ws(s, i);
    let j = skip_ws(s, i);
    if j < s.len() && s[j] == '"' {
        lemma_sp_string(s, j + 1);
        if let Ok((name, k)) = sp_string(s, j + 1) {
            lemma_skip_ws(s, k);
            let k2 = skip_ws(s, k);
            if k2 < s.len() && s[k2] == ':' {
                lemma_sp_value(s, k2 + 1);
                if let Ok((v, k3)) = sp_value(s, k2 + 1) {
                    lemma_skip_ws(s, k3);
                    let k4 = skip_ws(s, k3);
                    if k4 < s.len() && s[k4] == ',' {
                        lemma_sp_members(s, k4 + 1);
                    }
                }
            }
        }
    }
}

/// Parse of a whole text: one value, nothing but whitespace after it.
pub open spec fn sp_doc(s: Seq<char>) -> Result<JsonV, ParseError> {
    match sp_value(s, 0) {
        Err(e) => Err(e),
        Ok((v, k)) => if 0 <= k <= s.len() && skip_ws(s, k) >= s.len() {
            Ok(v)
        } else {
            Err(ParseError::Bad)
        },
    }
}

/// Ten to the power `n`.
pub open spec fn pow10(n: int) -> int
    decreases n,
{
    if n <= 0 {
        1
    } else {
        10 * pow10(n - 1)
    }
}

/// A digit string's value is below ten to its length.
pub(crate) proof fn lemma_dec_val_bound(digs: Seq<char>)
    ensures
        0 <= dec_val(digs) < pow10(digs.len() as int),
    decreases digs.len(),
{
    if digs.len() > 0 {
        lemma_dec_val_bound(digs.subrange(0, digs.len() - 1));
    }
}

pub(crate) proof fn lemma_pow10_19()
    ensures
        pow10(19) == 10_000_000_000_000_000_000,
{
    assert(pow10(0) == 1);
    assert(pow10(1) == 10);
    assert(pow10(2) == 100);
    assert(pow10(3) == 1000);
    assert(pow10(4) == 10000);
    assert(pow10(5) == 100000);
    assert(pow10(6) == 1000000);
    assert(pow10(7) == 10000000);
    assert(pow10(8) == 100000000);
    assert(pow10(9) == 1000000000);
    assert(pow10(10) == 10000000000);
    assert(pow10(11) == 100000000000);
    assert(pow10(12) == 1000000000000);
    assert(pow10(13) == 10000000000000);
    assert(pow10(14) == 100000000000000);
    assert(pow10(15) == 1000000000000000);
    assert(pow10(16) == 10000000000000000);
    assert(pow10(17) == 100000000000000000);
    assert(pow10(18) == 1000000000000000000);
    assert(pow10(19) == 10000000000000000000);
}

/// Whitespace test on a character.
fn is_ws_exec(c: char) -> (r: bool)
    ensures
        r == is_ws(c),
{
    c == ' ' || c == '\n' || c == '\r' || c == '\t'
}

/// Digit test on a character.
fn is_digit_exec(c: char) -> (r: bool)
    ensures
        r == is_digit(c),
{
    c == '0' || c == '1' || c == '2' || c == '3' || c == '4' || c == '5' || c == '6' || c == '7'
        || c == '8' || c == '9'
}

/// The numeric value of a digit character.
fn digit_val_exec(c: char) -> (r: u64)
    requires
        is_digit(c),
    ensures
        r as int == digit_val(c),
        r < 10,
{
    if c == '0' {
        0
    } else if c == '1' {
        1
    } else if c == '2' {
        2
    } else if c == '3' {
        3
    } else if c == '4' {
        4
    } else if c == '5' {
        5
    } else if c == '6' {
        6
    } else if c == '7' {
        7
    } else if c == '8' {
        8
    } else {
        9
    }
}

/// Advances past whitespace.
fn skip_ws_exec(s: &Vec<char>, i: usize) -> (r: usize)
    requires
        i <= s@.len(),
    ensures
        r as int == skip_ws(s@, i as int),
        i <= r <= s@.len(),
{
    let mut cur = i;
    while cur < s.len() && is_ws_exec(s[cur])
        invariant
            i <= cur <= s@.len(),
            skip_ws(s@, i as int) == skip_ws(s@, cur as int),
        decreases s@.len() - cur,
    {
        cur = cur + 1;
    }
    cur
}

/// Advances past decimal digits.
fn digits_end_exec(s: &Vec<char>, i: usize) -> (r: usize)
    requires
        i <= s@.len(),
    ensures
        r as int == digits_end(s@, i as int),
        i <= r <= s@.len(),
{
    let mut cur = i;
    while cur < s.len() && is_digit_exec(s[cur])
        invariant
            i <= cur <= s@.len(),
            digits_end(s@, i as int) == digits_end(s@, cur as int),
        decreases s@.len() - cur,
    {
        cur = cur + 1;
    }
    cur
}

/// Parses a number at `i` (`s[i]` is a digit or a minus sign).
fn p_number(s: &Vec<char>, i: usize) -> (r: Result<(Json, usize), ParseError>)
    requires
        i < s@.len(),
        s@[i as int] == '-' || is_digit(s@[i as int]),
    ensures
        match r {
            Ok((v, k)) => sp_number(s@, i as int) == Ok::<(JsonV, int), ParseError>(
                (v@, k as int),
            ) && i < k <= s@.len(),
            Err(e) => sp_number(s@, i as int) == Err::<(JsonV, int), ParseError>(e),
        },
{
    let slen = s.len();
    let neg = s[i] == '-';
    let lo = if neg {
        i + 1
    } else {
        i
    };
    let hi = digits_end_exec(s, lo);
    proof {
        lemma_digits_end(s@, lo as int);
    }
    if hi == lo {
        if lo >= slen {
            return Err(ParseError::UnexpectedEnd);
        } else {
            return Err(ParseError::Bad);
        }
    }
    if hi - lo > 1 && s[lo] == '0' {
        return Err(ParseError::Bad);
    }
    if hi - lo > 19 {
        return Err(ParseError::Bad);
    }
    let ghost digs = s@.subrange(lo as int, hi as int);
    let mut val: u64 = 0;
    let mut cur = lo;
    while cur < hi
        invariant
            lo <= cur <= hi <= s@.len(),
            hi - lo <= 19,
            digs == s@.subrange(lo as int, hi as int),
            forall|k: int| lo <= k < hi ==> is_digit(s@[k]),
            val as int == dec_val(s@.subrange(lo as int, cur as int)),
        decreases hi - cur,
    {
        proof {
            lemma_dec_val_bound(s@.subrange(lo as int, cur as int));
            lemma_pow10_19();
            assert(pow10((cur - lo) as int) <= pow10(18)) by {
                lemma_pow10_mono((cur - lo) as int, 18);
            }
        }
        let d = digit_val_exec(s[cur]);
        let next = val * 10 + d;
        proof {
            let pre = s@.subrange(lo as int, cur as int);
            let post = s@.subrange(lo as int, cur + 1 as int);
            assert(post.subrange(0, post.len() - 1) =~= pre);
            assert(post.last() == s@[cur as int]);
        }
        val = next;
        cur = cur + 1;
    }
    proof {
        assert(s@.subrange(lo as int, cur as int) =~= digs);
    }
    if neg {
        if val > 9223372036854775808u64 {
            Err(ParseError::Bad)
        } else {
            let n: i64 = if val == 9223372036854775808u64 {
                i64::MIN
            } else {
                -(val as i64)
            };
            Ok((Json::Num(n), hi))
        }
    } else {
        if val > 9223372036854775807u64 {
            Err(ParseError::Bad)
        } else {
            Ok((Json::Num(val as i64), hi))
        }
    }
}

/// `pow10` grows with its argument.
pub(crate) proof fn lemma_pow10_mono(a: int, b: int)
    requires
        a <= b,
    ensures
        pow10(a) <= pow10(b),
    decreases b - a,
{
    if a < b {
        lemma_pow10_mono(a, b - 1);
        lemma_pow10_pos(b - 1);
        if b > 0 {
            assert(pow10(b) == 10 * pow10(b - 1));
        }
    }
}

/// `pow10` is positive.
pub(crate) proof fn lemma_pow10_pos(n: int)
    ensures
        pow10(n) > 0,
    decreases n,
{
    if n > 0 {
        lemma_pow10_pos(n - 1);
    }
}

/// Parses a string body at `i`, just after the opening quote; appends the
/// decoded characters to `out`.
fn p_string_into(s: &Vec<char>, i: usize, out: &mut String) -> (r: Result<usize, ParseError>)
    requires
        i <= s@.len(),
    ensures
        match r {
            Ok(k) => sp_string(s@, i as int) matches Ok((body, kk)) && kk == k as int && final(out)@
                == old(out)@ + body && i < k <= s@.len(),
            Err(e) => sp_string(s@, i as int) == Err::<(Seq<char>, int), ParseError>(e),
        },
{
    let mut cur = i;
    loop
        invariant
            i <= cur <= s@.len(),
            out@.len() >= old(out)@.len(),
            out@.subrange(0, old(out)@.len() as int) == old(out)@,
            match (sp_string(s@, i as int), sp_string(s@, cur as int)) {
                (Ok((bi, ki)), Ok((bc, kc))) => ki == kc && bi == out@.subrange(
                    old(out)@.len() as int,
                    out@.len() as int,
                ) + bc,
                (Err(e1), Err(e2)) => e1 == e2,
                _ => false,
            },
        decreases s@.len() - cur,
    {
        let ghost added = out@.subrange(old(out)@.len() as int, out@.len() as int);
        if cur >= s.len() {
            return Err(ParseError::UnexpectedEnd);
        }
        let c = s[cur];
        if c == '"' {
            proof {
                let res = sp_string(s@, cur as int);
                assert(res == Ok::<(Seq<char>, int), ParseError>((Seq::empty(), cur + 1 as int)));
                assert(added + Seq::<char>::empty() =~= added);
                assert(out@ =~= old(out)@ + added);
            }
            return Ok(cur + 1);
        } else if c == '\\' {
            if cur + 1 >= s.len() {
                return Err(ParseError::UnexpectedEnd);
            }
            let e = s[cur + 1];
            let d: char = if e == '"' {
                '"'
            } else if e == '\\' {
                '\\'
            } else if e == '/' {
                '/'
            } else if e == 'n' {
                '\n'
            } else if e == 'r' {
                '\r'
            } else if e == 't' {
                '\t'
            } else if e == 'b' {
                '\u{8}'
            } else if e == 'f' {
                '\u{c}'
            } else {
                return Err(ParseError::Bad);
            };
            push_char(out, d);
            proof {
                assert(out@.subrange(old(out)@.len() as int, out@.len() as int) =~= added + seq![d]);
                assert(out@.subrange(0, old(out)@.len() as int) =~= old(out)@);
                let res2 = sp_string(s@, cur + 2 as int);
                if res2 is Ok {
                    let (bc2, kc2) = res2->Ok_0;
                    assert(sp_string(s@, cur as int) == Ok::<(Seq<char>, int), ParseError>(
                        (seq![d] + bc2, kc2),
                    ));
                    assert(added + (seq![d] + bc2) =~= (added + seq![d]) + bc2);
                }
            }
            cur = cur + 2;
        } else {
            push_char(out, c);
            proof {
                assert(out@.subrange(old(out)@.len() as int, out@.len() as int) =~= added + seq![c]);
                assert(out@.subrange(0, old(out)@.len() as int) =~= old(out)@);
                let res2 = sp_string(s@, cur + 1 as int);
                if res2 is Ok {
                    let (bc2, kc2) = res2->Ok_0;
                    assert(sp_string(s@, cur as int) == Ok::<(Seq<char>, int), ParseError>(
                        (seq![c] + bc2, kc2),
                    ));
                    assert(added + (seq![c] + bc2) =~= (added + seq![c]) + bc2);
                }
            }
            cur = cur + 1;
        }
    }
}

/// Parses one value whose first non-whitespace character is at or after `i`.
fn p_value(s: &Vec<char>, i: usize) -> (r: Result<(Json, usize), ParseError>)
    requires
        i <= s@.len(),
    ensures
        match r {
            Ok((v, k)) => sp_value(s@, i as int) == Ok::<(JsonV, int), ParseError>((v@, k as int))
                && i < k <= s@.len(),
            Err(e) => sp_value(s@, i as int) == Err::<(JsonV, int), ParseError>(e),
        },
    decreases s@.len() - i, 2int,
{
    let j = skip_ws_exec(s, i);
    if j >= s.len() {
        return Err(ParseError::UnexpectedEnd);
    }
    let c = s[j];
    if c == 'n' {
        if s.len() - j >= 4 && s[j + 1] == 'u' && s[j + 2] == 'l' && s[j + 3] == 'l' {
            proof {
                assert(s@.subrange(j as int, j + 4 as int) =~= seq!['n', 'u', 'l', 'l']);
            }
            Ok((Json::Null, j + 4))
        } else {
            proof {
                if has_word(s@, j as int, seq!['n', 'u', 'l', 'l']) {
                    assert(s@.subrange(j as int, j + 4 as int) == seq!['n', 'u', 'l', 'l']);
                    assert(s@[j + 1 as int] == 'u' && s@[j + 2 as int] == 'l' && s@[j + 3 as int]
                        == 'l');
                }
            }
            Err(ParseError::Bad)
        }
    } else if c == 't' {
        if s.len() - j >= 4 && s[j + 1] == 'r' && s[j + 2] == 'u' && s[j + 3] == 'e' {
            proof {
                assert(s@.subrange(j as int, j + 4 as int) =~= seq!['t', 'r', 'u', 'e']);
            }
            Ok((Json::Bool(true), j + 4))
        } else {
            proof {
                if has_word(s@, j as int, seq!['t', 'r', 'u', 'e']) {
                    assert(s@.subrange(j as int, j + 4 as int) == seq!['t', 'r', 'u', 'e']);
                    assert(s@[j + 1 as int] == 'r' && s@[j + 2 as int] == 'u' && s@[j + 3 as int]
                        == 'e');
                }
            }
            Err(ParseError::Bad)
        }
    } else if c == 'f' {
        if s.len() - j >= 5 && s[j + 1] == 'a' && s[j + 2] == 'l' && s[j + 3] == 's' && s[j + 4]
            == 'e' {
            proof {
                assert(s@.subrange(j as int, j + 5 as int) =~= seq!['f', 'a', 'l', 's', 'e']);
            }
            Ok((Json::Bool(false), j + 5))
        } else {
            proof {
                if has_word(s@, j as int, seq!['f', 'a', 'l', 's', 'e']) {
                    assert(s@.subrange(j as int, j + 5 as int) == seq!['f', 'a', 'l', 's', 'e']);
                    assert(s@[j + 1 as int] == 'a' && s@[j + 2 as int] == 'l' && s@[j + 3 as int]
                        == 's' && s@[j + 4 as int] == 'e');
                }
            }
            Err(ParseError::Bad)
        }
    } else if c == '"' {
        let mut body = String::new();
        match p_string_into(s, j + 1, &mut body) {
            Ok(k) => Ok((Json::Str(body), k)),
            Err(e) => Err(e),
        }
    } else if c == '-' || is_digit_exec(c) {
        match p_number(s, j) {
            Ok((v, k)) => Ok((v, k)),
            Err(e) => Err(e),
        }
    } else if c == '[' {
        let j2 = skip_ws_exec(s, j + 1);
        if j2 >= s.len() {
            return Err(ParseError::UnexpectedEnd);
        }
        if s[j2] == ']' {
            let v = Json::Arr(Vec::new());
            proof {
                assert(jv_of_seq(Seq::<Json>::empty()) =~= Seq::<JsonV>::empty());
            }
            return Ok((v, j2 + 1));
        }
        let mut xs: Vec<Json> = Vec::new();
        match p_items_into(s, j2, &mut xs) {
            Ok(k) => {
                let v = Json::Arr(xs);
                proof {
                    assert(jv_of_seq(Seq::<Json>::empty()) =~= Seq::<JsonV>::empty());
                    let list = sp_items(s@, j2 as int)->Ok_0.0;
                    assert(jv_of_seq(v->Arr_0@) =~= list);
                }
                Ok((v, k))
            },
            Err(e) => Err(e),
        }
    } else if c == '{' {
        let j2 = skip_ws_exec(s, j + 1);
        if j2 >= s.len() {
            return Err(ParseError::UnexpectedEnd);
        }
        if s[j2] == '}' {
            let v = Json::Obj(Vec::new());
            proof {
                assert(jv_of_members(Seq::<(String, Json)>::empty()) =~= Seq::<(
                    Seq<char>,
                    JsonV,
                )>::empty());
            }
            return Ok((v, j2 + 1));
        }
        let mut ms: Vec<(String, Json)> = Vec::new();
        match p_members_into(s, j2, &mut ms) {
            Ok(k) => {
                let v = Json::Obj(ms);
                proof {
                    assert(jv_of_members(Seq::<(String, Json)>::empty()) =~= Seq::<(
                        Seq<char>,
                        JsonV,
                    )>::empty());
                    let list = sp_members(s@, j2 as int)->Ok_0.0;
                    assert(jv_of_members(v->Obj_0@) =~= list);
                }
                Ok((v, k))
            },
            Err(e) => Err(e),
        }
    } else {
        Err(ParseError::Bad)
    }
}

/// Parses one or more comma-separated array elements from `i`, the closing
/// bracket included, appending them to `out`.
fn p_items_into(s: &Vec<char>, i: usize, out: &mut Vec<Json>) -> (r: Result<usize, ParseError>)
    requires
        i <= s@.len(),
    ensures
        match r {
            Ok(k) => sp_items(s@, i as int) matches Ok((list, kk)) && kk == k as int && jv_of_seq(
                final(out)@,
            ) == jv_of_seq(old(out)@) + list && i < k <= s@.len(),
            Err(e) => sp_items(s@, i as int) == Err::<(Seq<JsonV>, int), ParseError>(e),
        },
    decreases s@.len() - i, 3int,
{
    let (v, k) = match p_value(s, i) {
        Ok(p) => p,
        Err(e) => {
            return Err(e);
        },
    };
    let k2 = skip_ws_exec(s, k);
    if k2 >= s.len() {
        return Err(ParseError::UnexpectedEnd);
    }
    if s[k2] == ']' {
        let ghost pre = out@;
        out.push(v);
        proof {
            lemma_jv_of_seq(pre);
            lemma_jv_of_seq(out@);
            assert(jv_of_seq(out@) =~= jv_of_seq(pre) + seq![v@]);
        }
        return Ok(k2 + 1);
    }
    if s[k2] == ',' {
        let ghost pre = out@;
        out.push(v);
        proof {
            lemma_jv_of_seq(pre);
            lemma_jv_of_seq(out@);
            assert(jv_of_seq(out@) =~= jv_of_seq(pre) + seq![v@]);
        }
        match p_items_into(s, k2 + 1, out) {
            Ok(k3) => {
                proof {
                    let rest = sp_items(s@, k2 + 1 as int)->Ok_0.0;
                    assert(jv_of_seq(final(out)@) =~= jv_of_seq(pre) + (seq![v@] + rest));
                }
                Ok(k3)
            },
            Err(e) => Err(e),
        }
    } else {
        Err(ParseError::Bad)
    }
}

/// Parses one or more comma-separated object members from `i`, the closing
/// brace included, appending them to `out`.
fn p_members_into(s: &Vec<char>, i: usize, out: &mut Vec<(String, Json)>) -> (r: Result<
    usize,
    ParseError,
>)
    requires
        i <= s@.len(),
    ensures
        match r {
            Ok(k) => sp_members(s@, i as int) matches Ok((list, kk)) && kk == k as int
                && jv_of_members(final(out)@) == jv_of_members(old(out)@) + list && i < k
                <= s@.len(),
            Err(e) => sp_members(s@, i as int) == Err::<(Seq<(Seq<char>, JsonV)>, int), ParseError>(
                e,
            ),
        },
    decreases s@.len() - i, 3int,
{
    let j = skip_ws_exec(s, i);
    if j >= s.len() {
        return Err(ParseError::UnexpectedEnd);
    }
    if s[j] != '"' {
        return Err(ParseError::Bad);
    }
    let mut name = String::new();
    let k = match p_string_into(s, j + 1, &mut name) {
        Ok(k) => k,
        Err(e) => {
            return Err(e);
        },
    };
    let k2 = skip_ws_exec(s, k);
    if k2 >= s.len() {
        return Err(ParseError::UnexpectedEnd);
    }
    if s[k2] != ':' {
        return Err(ParseError::Bad);
    }
    let (v, k3) = match p_value(s, k2 + 1) {
        Ok(p) => p,
        Err(e) => {
            return Err(e);
        },
    };
    let k4 = skip_ws_exec(s, k3);
    if k4 >= s.len() {
        return Err(ParseError::UnexpectedEnd);
    }
    if s[k4] == '}' {
        let ghost pre = out@;
        out.push((name, v));
        proof {
            lemma_jv_of_members(pre);
            lemma_jv_of_members(out@);
            assert(jv_of_members(out@) =~= jv_of_members(pre) + seq![(name@, v@)]);
        }
        return Ok(k4 + 1);
    }
    if s[k4] == ',' {
        let ghost nameview = name@;
        let ghost pre = out@;
        out.push((name, v));
        proof {
            lemma_jv_of_members(pre);
            lemma_jv_of_members(out@);
            assert(jv_of_members(out@) =~= jv_of_members(pre) + seq![(nameview, v@)]);
        }
        match p_members_into(s, k4 + 1, out) {
            Ok(k5) => {
                proof {
                    let rest = sp_members(s@, k4 + 1 as int)->Ok_0.0;
                    assert(jv_of_members(final(out)@) =~= jv_of_members(pre) + (seq![(nameview, v@)]
                        + rest));
                }
                Ok(k5)
            },
            Err(e) => Err(e),
        }
    } else {
        Err(ParseError::Bad)
    }
}

impl Json {
    /// Parses a whole text as one JSON value.
    pub fn from_text(s: &str) -> (r: Result<Json, ParseError>)
        ensures
            match r {
                Ok(v) => sp_doc(s@) == Ok::<JsonV, ParseError>(v@),
                Err(e) => sp_doc(s@) == Err::<JsonV, ParseError>(e),
            },
    {
        let chars = chars_of(s);
        match p_value(&chars, 0) {
            Err(e) => Err(e),
            Ok((v, k)) => {
                let k2 = skip_ws_exec(&chars, k);
                if k2 >= chars.len() {
                    Ok(v)
                } else {
                    Err(ParseError::Bad)
                }
            },
        }
    }
}

} // verus!
