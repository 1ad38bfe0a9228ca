//! Compact serialization of JSON values.
//!
//! The text form is defined by spec functions over [`JsonV`]; the executable
//! writer is proved to produce exactly that text. Within string literals the
//! characters `"`, `\`, newline, carriage return and tab are escaped; all
//! other characters stand as themselves. The writer therefore never emits a
//! line break, which is what NDJSON framing depends on.
use crate::json::{jv_of, jv_of_members, jv_of_seq, lemma_jv_of_members, lemma_jv_of_seq, Json,
    JsonV};
use crate::strutil::push_char;
use vstd::prelude::*;
use vstd::string::{StrSliceExecFns, StringExecFns};

verus! {

/// The decimal digit character for `d`.
pub open spec fn digit_char(d: int) -> char {
    if d == 0 {
        '0'
    } else if d == 1 {
        '1'
    } else if d == 2 {
        '2'
    } else if d == 3 {
        '3'
    } else if d == 4 {
        '4'
    } else if d == 5 {
        '5'
    } else if d == 6 {
        '6'
    } else if d == 7 {
        '7'
    } else if d == 8 {
        '8'
    } else {
        '9'
    }
}

/// The decimal digits of a nonnegative integer, most significant first.
pub open spec fn dec_digits(n: int) -> Seq<char>
    decreases n,
{
    if n < 10 {
        seq![digit_char(n)]
    } else {
        dec_digits(n / 10) + seq![digit_char(n % 10)]
    }
}

/// The text of an integer, with a leading minus sign when negative.
pub open spec fn ser_num(n: int) -> Seq<char> {
    if n < 0 {
        seq!['-'] + dec_digits(-n)
    } else {
        dec_digits(n)
    }
}

/// The text a character contributes inside a string literal.
pub open spec fn esc_char(c: char) -> Seq<char> {
    if c == '"' {
        seq!['\\', '"']
    } else if c == '\\' {
        seq!['\\', '\\']
    } else if c == '\n' {
        seq!['\\', 'n']
    } else if c == '\r' {
        seq!['\\', 'r']
    } else if c == '\t' {
        seq!['\\', 't']
    } else {
        seq![c]
    }
}

/// The escaped body of a string literal.
pub open spec fn esc_str(s: Seq<char>) -> Seq<char>
    decreases s.len(),
{
    if s.len() == 0 {
        Seq::empty()
    } else {
        esc_char(s[0]) + esc_str(s.subrange(1, s.len() as int))
    }
}

/// The text of a string literal, quotes included.
pub open spec fn ser_string(s: Seq<char>) -> Seq<char> {
    seq!['"'] + esc_str(s) + seq!['"']
}

/// The compact text of a JSON value.
pub open spec fn ser(v: JsonV) -> Seq<char>
    decreases v,
{
    match v {
        JsonV::Null => seq!['n', 'u', 'l', 'l'],
        JsonV::Bool(b) => if b {
            seq!['t', 'r', 'u', 'e']
        } else {
            seq!['f', 'a', 'l', 's', 'e']
        },
        JsonV::Num(n) => ser_num(n),
        JsonV::Str(s) => ser_string(s),
        JsonV::Arr(xs) => {
            proof {
                assert(decreases_to!(v => v->Arr_0));
            }
            seq!['['] + ser_items(xs) + seq![']']
        },
        JsonV::Obj(ms) => {
            proof {
                assert(decreases_to!(v => v->Obj_0));
            }
            seq!['{'] + ser_members(ms) + seq!['}']
        },
    }
}

/// The comma-separated texts of array elements.
pub open spec fn ser_items(xs: Seq<JsonV>) -> Seq<char>
    decreases xs,
{
    if xs.len() == 0 {
        Seq::empty()
    } else {
        proof {
            assert(decreases_to!(xs => xs[0]));
            assert(decreases_to!(xs => xs.subrange(1, xs.len() as int)));
        }
        if xs.len() == 1 {
            ser(xs[0])
        } else {
            ser(xs[0]) + seq![','] + ser_items(xs.subrange(1, xs.len() as int))
        }
    }
}

/// The comma-separated texts of object members.
pub open spec fn ser_members(ms: Seq<(Seq<char>, JsonV)>) -> Seq<char>
    decreases ms,
{
    if ms.len() == 0 {
        Seq::empty()
    } else {
        proof {
            assert(decreases_to!(ms => ms[0]));
            assert(decreases_to!(ms => ms[0].1));
            assert(decreases_to!(ms => ms.subrange(1, ms.len() as int)));
        }
        if ms.len() == 1 {
            ser_string(ms[0].0) + seq![':'] + ser(ms[0].1)
        } else {
            ser_string(ms[0].0) + seq![':'] + ser(ms[0].1) + seq![','] + ser_members(
                ms.subrange(1, ms.len() as int),
            )
        }
    }
}

impl Json {
    /// The compact text of this value.
    pub fn to_text(&self) -> (r: String)
        ensures
            r@ == ser(self@),
    {
        let mut out = String::new();
        write_value(self, &mut out);
        out
    }
}

/// Writes the decimal digits of `n`, most significant first.
pub(crate) fn write_digits(n: u64, out: &mut String)
    ensures
        final(out)@ == old(out)@ + dec_digits(n as int),
    decreases n,
{
    if n < 10 {
        push_char(out, digit_char_exec(n));
    } else {
        write_digits(n / 10, out);
        push_char(out, digit_char_exec(n % 10));
    }
}

/// The decimal digit character for `d`.
fn digit_char_exec(d: u64) -> (c: char)
    requires
        d < 10,
    ensures
        c == digit_char(d as int),
{
    if d == 0 {
        '0'
    } else if d == 1 {
        '1'
    } else if d == 2 {
        '2'
    } else if d == 3 {
        '3'
    } else if d == 4 {
        '4'
    } else if d == 5 {
        '5'
    } else if d == 6 {
        '6'
    } else if d == 7 {
        '7'
    } else if d == 8 {
        '8'
    } else {
        '9'
    }
}

/// Writes the text of an integer.
fn write_num(n: i64, out: &mut String)
    ensures
        final(out)@ == old(out)@ + ser_num(n as int),
{
    if n >= 0 {
        write_digits(n as u64, out);
    } else {
        push_char(out, '-');
        let mag: u64 = if n == i64::MIN {
            9223372036854775808u64
        } else {
            (-n) as u64
        };
        assert(mag as int == -(n as int));
        write_digits(mag, out);
        assert(out@ =~= old(out)@ + ser_num(n as int));
    }
}

/// Writes the escaped form of the characters of `s` from place `i` on.
fn write_esc(s: &str, i: usize, out: &mut String)
    requires
        i <= s@.len(),
    ensures
        final(out)@ == old(out)@ + esc_str(s@.subrange(i as int, s@.len() as int)),
    decreases s@.len() - i,
{
    let n = s.unicode_len();
    if i < n {
        let c = s.get_char(i);
        if c == '"' {
            push_char(out, '\\');
            push_char(out, '"');
        } else if c == '\\' {
            push_char(out, '\\');
            push_char(out, '\\');
        } else if c == '\n' {
            push_char(out, '\\');
            push_char(out, 'n');
        } else if c == '\r' {
            push_char(out, '\\');
            push_char(out, 'r');
        } else if c == '\t' {
            push_char(out, '\\');
            push_char(out, 't');
        } else {
            push_char(out, c);
        }
        write_esc(s, i + 1, out);
        proof {
            let tail = s@.subrange(i as int, s@.len() as int);
            assert(tail[0] == c);
            assert(tail.subrange(1, tail.len() as int) =~= s@.subrange(
                i + 1 as int,
                s@.len() as int,
            ));
            assert(out@ =~= old(out)@ + esc_str(tail));
        }
    } else {
        proof {
            assert(s@.subrange(i as int, s@.len() as int) =~= Seq::<char>::empty());
        }
    }
}

/// Writes a string literal, quotes included.
fn write_string_lit(s: &str, out: &mut String)
    ensures
        final(out)@ == old(out)@ + ser_string(s@),
{
    push_char(out, '"');
    write_esc(s, 0, out);
    push_char(out, '"');
    proof {
        assert(s@.subrange(0, s@.len() as int) =~= s@);
        assert(out@ =~= old(out)@ + ser_string(s@));
    }
}

/// Writes the compact text of a value.
fn write_value(v: &Json, out: &mut String)
    ensures
        final(out)@ == old(out)@ + ser(v@),
    decreases *v, 0int,
{
    match v {
        Json::Null => {
            out.append("null");
            proof {
                reveal_strlit("null");
                assert(out@ =~= old(out)@ + ser(v@));
            }
        },
        Json::Bool(b) => {
            if *b {
                out.append("true");
                proof {
                    reveal_strlit("true");
                    assert(out@ =~= old(out)@ + ser(v@));
                }
            } else {
                out.append("false");
                proof {
                    reveal_strlit("false");
                    assert(out@ =~= old(out)@ + ser(v@));
                }
            }
        },
        Json::Num(n) => {
            write_num(*n, out);
        },
        Json::Str(s) => {
            write_string_lit(s.as_str(), out);
        },
        Json::Arr(xs) => {
            proof {
                assert(decreases_to!(*v => v->Arr_0));
                assert(v->Arr_0 == *xs);
            }
            push_char(out, '[');
            write_items(xs, 0, out);
            push_char(out, ']');
            proof {
                lemma_jv_of_seq(xs@);
                assert(jv_of_seq(xs@).subrange(0, jv_of_seq(xs@).len() as int) =~= jv_of_seq(xs@));
                assert(out@ =~= old(out)@ + ser(v@));
            }
        },
        Json::Obj(ms) => {
            proof {
                assert(decreases_to!(*v => v->Obj_0));
                assert(v->Obj_0 == *ms);
            }
            push_char(out, '{');
            write_members(ms, 0, out);
            push_char(out, '}');
            proof {
                lemma_jv_of_members(ms@);
                assert(jv_of_members(ms@).subrange(0, jv_of_members(ms@).len() as int)
                    =~= jv_of_members(ms@));
                assert(out@ =~= old(out)@ + ser(v@));
            }
        },
    }
}

/// Writes the comma-separated texts of the elements from place `i` on.
fn write_items(xs: &Vec<Json>, i: usize, out: &mut String)
    requires
        i <= xs@.len(),
    ensures
        final(out)@ == old(out)@ + ser_items(jv_of_seq(xs@).subrange(i as int, xs@.len() as int)),
    decreases *xs, xs@.len() - i,
{
    proof {
        lemma_jv_of_seq(xs@);
    }
    if i < xs.len() {
        write_value(&xs[i], out);
        let ghost rest = jv_of_seq(xs@).subrange(i as int, xs@.len() as int);
        if i + 1 < xs.len() {
            push_char(out, ',');
            write_items(xs, i + 1, out);
            proof {
                assert(rest[0] == jv_of(xs@[i as int]));
                assert(rest.subrange(1, rest.len() as int) =~= jv_of_seq(xs@).subrange(
                    i + 1 as int,
                    xs@.len() as int,
                ));
                assert(out@ =~= old(out)@ + ser_items(rest));
            }
        } else {
            proof {
                assert(rest.len() == 1);
                assert(rest[0] == jv_of(xs@[i as int]));
                assert(out@ =~= old(out)@ + ser_items(rest));
            }
        }
    } else {
        proof {
            assert(jv_of_seq(xs@).subrange(i as int, xs@.len() as int) =~= Seq::<JsonV>::empty());
        }
    }
}

/// Writes the comma-separated texts of the members from place `i` on.
fn write_members(ms: &Vec<(String, Json)>, i: usize, out: &mut String)
    requires
        i <= ms@.len(),
    ensures
        final(out)@ == old(out)@ + ser_members(
            jv_of_members(ms@).subrange(i as int, ms@.len() as int),
        ),
    decreases *ms, ms@.len() - i,
{
    proof {
        lemma_jv_of_members(ms@);
    }
    if i < ms.len() {
        write_string_lit(ms[i].0.as_str(), out);
        push_char(out, ':');
        proof {
            assert(decreases_to!(*ms => ms[i as int]));
            assert(decreases_to!(ms[i as int] => ms[i as int].1));
        }
        write_value(&ms[i].1, out);
        let ghost rest = jv_of_members(ms@).subrange(i as int, ms@.len() as int);
        if i + 1 < ms.len() {
            push_char(out, ',');
            write_members(ms, i + 1, out);
            proof {
                assert(rest[0] == (ms@[i as int].0@, jv_of(ms@[i as int].1)));
                assert(rest.subrange(1, rest.len() as int) =~= jv_of_members(ms@).subrange(
                    i + 1 as int,
                    ms@.len() as int,
                ));
                assert(out@ =~= old(out)@ + ser_members(rest));
            }
        } else {
            proof {
                assert(rest.len() == 1);
                assert(rest[0] == (ms@[i as int].0@, jv_of(ms@[i as int].1)));
                assert(out@ =~= old(out)@ + ser_members(rest));
            }
        }
    } else {
        proof {
            assert(jv_of_members(ms@).subrange(i as int, ms@.len() as int) =~= Seq::<(
                Seq<char>,
                JsonV,
            )>::empty());
        }
    }
}

} // verus!

verus! {

/// The next indent depth: one deeper, until a depth no writable document
/// reaches, where it stays.
pub open spec fn next_ind(ind: int) -> int {
    if ind < 1000000 {
        ind + 1
    } else {
        ind
    }
}

/// A run of spaces.
pub open spec fn spaces(n: int) -> Seq<char> {
    Seq::new(if n >= 0 {
        n as nat
    } else {
        0
    }, |k: int| ' ')
}

/// The pretty text of a JSON value at an indent depth: members and
/// elements each on their own line, two more spaces per depth.
pub open spec fn pser(v: JsonV, ind: int) -> Seq<char>
    decreases v,
{
    match v {
        JsonV::Null => seq!['n', 'u', 'l', 'l'],
        JsonV::Bool(b) => if b {
            seq!['t', 'r', 'u', 'e']
        } else {
            seq!['f', 'a', 'l', 's', 'e']
        },
        JsonV::Num(n) => ser_num(n),
        JsonV::Str(s) => ser_string(s),
        JsonV::Arr(xs) => {
            proof {
                assert(decreases_to!(v => v->Arr_0));
            }
            if xs.len() == 0 {
                seq!['[', ']']
            } else {
                seq!['[', '\n'] + pser_items(xs, next_ind(ind)) + seq!['\n'] + spaces(2 * ind)
                    + seq![']']
            }
        },
        JsonV::Obj(ms) => {
            proof {
                assert(decreases_to!(v => v->Obj_0));
            }
            if ms.len() == 0 {
                seq!['{', '}']
            } else {
                seq!['{', '\n'] + pser_members(ms, next_ind(ind)) + seq!['\n'] + spaces(2 * ind)
                    + seq!['}']
            }
        },
    }
}

/// The pretty texts of array elements, each indented on its own line.
pub open spec fn pser_items(xs: Seq<JsonV>, ind: int) -> Seq<char>
    decreases xs,
{
    if xs.len() == 0 {
        Seq::empty()
    } else {
        proof {
            assert(decreases_to!(xs => xs[0]));
            assert(decreases_to!(xs => xs.subrange(1, xs.len() as int)));
        }
        let head = spaces(2 * ind) + pser(xs[0], ind);
        if xs.len() == 1 {
            head
        } else {
            head + seq![',', '\n'] + pser_items(xs.subrange(1, xs.len() as int), ind)
        }
    }
}

/// The pretty texts of object members, each indented on its own line.
pub open spec fn pser_members(ms: Seq<(Seq<char>, JsonV)>, ind: int) -> Seq<char>
    decreases ms,
{
    if ms.len() == 0 {
        Seq::empty()
    } else {
        proof {
            assert(decreases_to!(ms => ms[0]));
            assert(decreases_to!(ms => ms[0].1));
            assert(decreases_to!(ms => ms.subrange(1, ms.len() as int)));
        }
        let head = spaces(2 * ind) + ser_string(ms[0].0) + seq![':', ' '] + pser(ms[0].1, ind);
        if ms.len() == 1 {
            head
        } else {
            head + seq![',', '\n'] + pser_members(ms.subrange(1, ms.len() as int), ind)
        }
    }
}

impl Json {
    /// The pretty text of this value: members and elements each on their
    /// own line, indented two spaces per depth.
    pub fn to_text_pretty(&self) -> (r: String)
        ensures
            r@ == pser(self@, 0),
    {
        let mut out = String::new();
        write_pretty(self, 0, &mut out);
        out
    }

    /// The text of this value, in the asked-for form.
    pub fn render(&self, pretty: bool) -> (r: String)
        ensures
            pretty ==> r@ == pser(self@, 0),
            !pretty ==> r@ == ser(self@),
    {
        if pretty {
            self.to_text_pretty()
        } else {
            self.to_text()
        }
    }
}

/// Writes a run of spaces, two per indent depth.
fn write_indent(ind: usize, out: &mut String)
    ensures
        final(out)@ == old(out)@ + spaces(2 * ind),
{
    let mut k: usize = 0;
    while k < ind
        invariant
            k <= ind,
            out@ == old(out)@ + spaces(2 * k as int),
        decreases ind - k,
    {
        push_char(out, ' ');
        push_char(out, ' ');
        proof {
            assert(out@ =~= old(out)@ + spaces(2 * (k + 1) as int));
        }
        k = k + 1;
    }
}

/// Writes the pretty text of a value at an indent depth.
fn write_pretty(v: &Json, ind: usize, out: &mut String)
    requires
        ind <= 1000000,
    ensures
        final(out)@ == old(out)@ + pser(v@, ind as int),
    decreases *v, 0int,
{
    match v {
        Json::Null => {
            out.append("null");
            proof {
                reveal_strlit("null");
                assert(out@ =~= old(out)@ + pser(v@, ind as int));
            }
        },
        Json::Bool(b) => {
            if *b {
                out.append("true");
                proof {
                    reveal_strlit("true");
                    assert(out@ =~= old(out)@ + pser(v@, ind as int));
                }
            } else {
                out.append("false");
                proof {
                    reveal_strlit("false");
                    assert(out@ =~= old(out)@ + pser(v@, ind as int));
                }
            }
        },
        Json::Num(n) => {
            write_num(*n, out);
        },
        Json::Str(s) => {
            write_string_lit(s.as_str(), out);
        },
        Json::Arr(xs) => {
            proof {
                assert(decreases_to!(*v => v->Arr_0));
                assert(v->Arr_0 == *xs);
            }
            if xs.len() == 0 {
                push_char(out, '[');
                push_char(out, ']');
                proof {
                    assert(out@ =~= old(out)@ + pser(v@, ind as int));
                }
            } else {
                push_char(out, '[');
                push_char(out, '\n');
                let ind2 = if ind < 1000000 {
                    ind + 1
                } else {
                    ind
                };
                write_pretty_items(xs, 0, ind2, out);
                push_char(out, '\n');
                write_indent(ind, out);
                push_char(out, ']');
                proof {
                    crate::json::lemma_jv_of_seq(xs@);
                    assert(jv_of_seq(xs@).subrange(0, jv_of_seq(xs@).len() as int) =~= jv_of_seq(
                        xs@,
                    ));
                    assert(out@ =~= old(out)@ + pser(v@, ind as int));
                }
            }
        },
        Json::Obj(ms) => {
            proof {
                assert(decreases_to!(*v => v->Obj_0));
                assert(v->Obj_0 == *ms);
            }
            if ms.len() == 0 {
                push_char(out, '{');
                push_char(out, '}');
                proof {
                    assert(out@ =~= old(out)@ + pser(v@, ind as int));
                }
            } else {
                push_char(out, '{');
                push_char(out, '\n');
                let ind2 = if ind < 1000000 {
                    ind + 1
                } else {
                    ind
                };
                write_pretty_members(ms, 0, ind2, out);
                push_char(out, '\n');
                write_indent(ind, out);
                push_char(out, '}');
                proof {
                    crate::json::lemma_jv_of_members(ms@);
                    assert(jv_of_members(ms@).subrange(0, jv_of_members(ms@).len() as int)
                        =~= jv_of_members(ms@));
                    assert(out@ =~= old(out)@ + pser(v@, ind as int));
                }
            }
        },
    }
}

/// Writes the pretty texts of the elements from place `i` on.
fn write_pretty_items(xs: &Vec<Json>, i: usize, ind: usize, out: &mut String)
    requires
        i <= xs@.len(),
        ind <= 1000000,
    ensures
        final(out)@ == old(out)@ + pser_items(
            jv_of_seq(xs@).subrange(i as int, xs@.len() as int),
            ind as int,
        ),
    decreases *xs, xs@.len() - i,
{
    proof {
        crate::json::lemma_jv_of_seq(xs@);
    }
    if i < xs.len() {
        write_indent(ind, out);
        write_pretty(&xs[i], ind, out);
        let ghost rest = jv_of_seq(xs@).subrange(i as int, xs@.len() as int);
        if i + 1 < xs.len() {
            push_char(out, ',');
            push_char(out, '\n');
            write_pretty_items(xs, i + 1, ind, out);
            proof {
                assert(rest[0] == jv_of(xs@[i as int]));
                assert(rest.subrange(1, rest.len() as int) =~= jv_of_seq(xs@).subrange(
                    i + 1 as int,
                    xs@.len() as int,
                ));
                assert(out@ =~= old(out)@ + pser_items(rest, ind as int));
            }
        } else {
            proof {
                assert(rest.len() == 1);
                assert(rest[0] == jv_of(xs@[i as int]));
                assert(out@ =~= old(out)@ + pser_items(rest, ind as int));
            }
        }
    } else {
        proof {
            assert(jv_of_seq(xs@).subrange(i as int, xs@.len() as int) =~= Seq::<JsonV>::empty());
        }
    }
}

/// Writes the pretty texts of the members from place `i` on.
fn write_pretty_members(ms: &Vec<(String, Json)>, i: usize, ind: usize, out: &mut String)
    requires
        i <= ms@.len(),
        ind <= 1000000,
    ensures
        final(out)@ == old(out)@ + pser_members(
            jv_of_members(ms@).subrange(i as int, ms@.len() as int),
            ind as int,
        ),
    decreases *ms, ms@.len() - i,
{
    proof {
        crate::json::lemma_jv_of_members(ms@);
    }
    if i < ms.len() {
        write_indent(ind, out);
        write_string_lit(ms[i].0.as_str(), out);
        push_char(out, ':');
        push_char(out, ' ');
        proof {
            assert(decreases_to!(*ms => ms[i as int]));
            assert(decreases_to!(ms[i as int] => ms[i as int].1));
        }
        write_pretty(&ms[i].1, ind, out);
        let ghost rest = jv_of_members(ms@).subrange(i as int, ms@.len() as int);
        if i + 1 < ms.len() {
            push_char(out, ',');
            push_char(out, '\n');
            write_pretty_members(ms, i + 1, ind, out);
            proof {
                assert(rest[0] == (ms@[i as int].0@, jv_of(ms@[i as int].1)));
                assert(rest.subrange(1, rest.len() as int) =~= jv_of_members(ms@).subrange(
                    i + 1 as int,
                    ms@.len() as int,
                ));
                assert(out@ =~= old(out)@ + pser_members(rest, ind as int));
            }
        } else {
            proof {
                assert(rest.len() == 1);
                assert(rest[0] == (ms@[i as int].0@, jv_of(ms@[i as int].1)));
                assert(out@ =~= old(out)@ + pser_members(rest, ind as int));
            }
        }
    } else {
        proof {
            assert(jv_of_members(ms@).subrange(i as int, ms@.len() as int) =~= Seq::<(
                Seq<char>,
                JsonV,
            )>::empty());
        }
    }
}

} // verus!

verus! {

/// No line break anywhere in the text.
pub open spec fn single_line(s: Seq<char>) -> bool {
    forall|k: int| 0 <= k < s.len() ==> s[k] != '\n' && s[k] != '\r'
}

proof fn lemma_single_line_add(a: Seq<char>, b: Seq<char>)
    requires
        single_line(a),
        single_line(b),
    ensures
        single_line(a + b),
{
    assert forall|k: int|
        0 <= k < (a + b).len() implies (a + b)[k] != '\n' && (a + b)[k] != '\r' by {
        if k < a.len() {
            assert((a + b)[k] == a[k]);
        } else {
            assert((a + b)[k] == b[k - a.len()]);
        }
    }
}

proof fn lemma_esc_str_single_line(s: Seq<char>)
    ensures
        single_line(esc_str(s)),
    decreases s.len(),
{
    if s.len() > 0 {
        lemma_esc_str_single_line(s.subrange(1, s.len() as int));
        assert(single_line(esc_char(s[0])));
        lemma_single_line_add(esc_char(s[0]), esc_str(s.subrange(1, s.len() as int)));
    }
}

/// The framing law: the compact text of any value is a single line — line
/// breaks within strings are escaped, so one row per line always holds.
pub proof fn lemma_ser_single_line(v: JsonV)
    ensures
        single_line(ser(v)),
    decreases v,
{
    match v {
        JsonV::Null => {},
        JsonV::Bool(_) => {},
        JsonV::Num(n) => {
            let m = if n < 0 {
                -n
            } else {
                n
            };
            crate::roundtrip::lemma_dec_digits(m);
            let dd = dec_digits(m);
            assert forall|k: int|
                0 <= k < dd.len() implies dd[k] != '\n' && dd[k] != '\r' by {
                assert(crate::parse::is_digit(dd[k]));
            }
            if n < 0 {
                lemma_single_line_add(seq!['-'], dd);
            }
        },
        JsonV::Str(s) => {
            lemma_esc_str_single_line(s);
            lemma_single_line_add(seq!['"'], esc_str(s));
            lemma_single_line_add(seq!['"'] + esc_str(s), seq!['"']);
        },
        JsonV::Arr(xs) => {
            assert(decreases_to!(v => v->Arr_0));
            lemma_ser_items_single_line(xs);
            lemma_single_line_add(seq!['['], ser_items(xs));
            lemma_single_line_add(seq!['['] + ser_items(xs), seq![']']);
        },
        JsonV::Obj(ms) => {
            assert(decreases_to!(v => v->Obj_0));
            lemma_ser_members_single_line(ms);
            lemma_single_line_add(seq!['{'], ser_members(ms));
            lemma_single_line_add(seq!['{'] + ser_members(ms), seq!['}']);
        },
    }
}

proof fn lemma_ser_items_single_line(xs: Seq<JsonV>)
    ensures
        single_line(ser_items(xs)),
    decreases xs,
{
    if xs.len() > 0 {
        assert(decreases_to!(xs => xs[0]));
        assert(decreases_to!(xs => xs.subrange(1, xs.len() as int)));
        lemma_ser_single_line(xs[0]);
        if xs.len() > 1 {
            lemma_ser_items_single_line(xs.subrange(1, xs.len() as int));
            lemma_single_line_add(ser(xs[0]), seq![',']);
            lemma_single_line_add(
                ser(xs[0]) + seq![','],
                ser_items(xs.subrange(1, xs.len() as int)),
            );
        }
    }
}

proof fn lemma_ser_members_single_line(ms: Seq<(Seq<char>, JsonV)>)
    ensures
        single_line(ser_members(ms)),
    decreases ms,
{
    if ms.len() > 0 {
        assert(decreases_to!(ms => ms[0]));
        assert(decreases_to!(ms => ms[0].1));
        assert(decreases_to!(ms => ms.subrange(1, ms.len() as int)));
        lemma_esc_str_single_line(ms[0].0);
        lemma_single_line_add(seq!['"'], esc_str(ms[0].0));
        lemma_single_line_add(seq!['"'] + esc_str(ms[0].0), seq!['"']);
        lemma_ser_single_line(ms[0].1);
        let head = ser_string(ms[0].0) + seq![':'] + ser(ms[0].1);
        lemma_single_line_add(ser_string(ms[0].0), seq![':']);
        lemma_single_line_add(ser_string(ms[0].0) + seq![':'], ser(ms[0].1));
        if ms.len() > 1 {
            lemma_ser_members_single_line(ms.subrange(1, ms.len() as int));
            lemma_single_line_add(head, seq![',']);
            lemma_single_line_add(
                head + seq![','],
                ser_members(ms.subrange(1, ms.len() as int)),
            );
        }
    }
}

} // verus!
