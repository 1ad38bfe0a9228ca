//! The round-trip law: parsing the serialized text of a value gives the
//! value back.
use crate::json::{jv_of, jv_of_members, jv_of_seq, Json, JsonV};
use crate::parse::{dec_val, digit_val, digits_end, is_digit, is_ws, lemma_digits_end,
    lemma_pow10_19, lemma_pow10_mono, lemma_pow10_pos, lemma_skip_ws, pow10, skip_ws, sp_doc,
    sp_items, sp_members, sp_number, sp_string, sp_value, ParseError};
use crate::ser::{dec_digits, digit_char, esc_char, esc_str, next_ind, pser, pser_items,
    pser_members, ser, ser_items, ser_members, ser_num, ser_string, spaces};
use vstd::prelude::*;

verus! {

/// Every number of the value fits the machine representation.
pub open spec fn num_ok(v: JsonV) -> bool
    decreases v,
{
    match v {
        JsonV::Num(n) => i64::MIN <= n <= i64::MAX,
        JsonV::Arr(xs) => {
            proof {
                assert(decreases_to!(v => v->Arr_0));
            }
            num_ok_seq(xs)
        },
        JsonV::Obj(ms) => {
            proof {
                assert(decreases_to!(v => v->Obj_0));
            }
            num_ok_members(ms)
        },
        _ => true,
    }
}

/// [`num_ok`] over array elements.
pub open spec fn num_ok_seq(xs: Seq<JsonV>) -> bool
    decreases xs,
{
    xs.len() == 0 || {
        proof {
            assert(decreases_to!(xs => xs[0]));
            assert(decreases_to!(xs => xs.subrange(1, xs.len() as int)));
        }
        num_ok(xs[0]) && num_ok_seq(xs.subrange(1, xs.len() as int))
    }
}

/// [`num_ok`] over object members.
pub open spec fn num_ok_members(ms: Seq<(Seq<char>, JsonV)>) -> bool
    decreases ms,
{
    ms.len() == 0 || {
        proof {
            assert(decreases_to!(ms => ms[0]));
            assert(decreases_to!(ms => ms[0].1));
            assert(decreases_to!(ms => ms.subrange(1, ms.len() as int)));
        }
        num_ok(ms[0].1) && num_ok_members(ms.subrange(1, ms.len() as int))
    }
}

/// [`num_ok_members`] holds exactly when it holds of each member's value.
pub proof fn lemma_num_ok_members_index(ms: Seq<(Seq<char>, JsonV)>)
    ensures
        num_ok_members(ms) <==> forall|k: int| 0 <= k < ms.len() ==> num_ok(#[trigger] ms[k].1),
    decreases ms.len(),
{
    if ms.len() > 0 {
        let tail = ms.subrange(1, ms.len() as int);
        lemma_num_ok_members_index(tail);
        if num_ok_members(ms) {
            assert forall|k: int| 0 <= k < ms.len() implies num_ok(#[trigger] ms[k].1) by {
                if k > 0 {
                    assert(tail[k - 1] == ms[k]);
                }
            }
        }
        if forall|k: int| 0 <= k < ms.len() ==> num_ok(#[trigger] ms[k].1) {
            assert forall|k: int| 0 <= k < tail.len() implies num_ok(#[trigger] tail[k].1) by {
                assert(tail[k] == ms[k + 1]);
            }
        }
    }
}

/// The view of a concrete value has all numbers in range.
pub proof fn lemma_jv_num_ok(j: Json)
    ensures
        num_ok(jv_of(j)),
    decreases j,
{
    match j {
        Json::Arr(xs) => {
            assert(decreases_to!(j => j->Arr_0));
            assert(decreases_to!(j->Arr_0 => j->Arr_0@));
            lemma_jv_num_ok_seq(xs@);
        },
        Json::Obj(ms) => {
            assert(decreases_to!(j => j->Obj_0));
            assert(decreases_to!(j->Obj_0 => j->Obj_0@));
            lemma_jv_num_ok_members(ms@);
        },
        _ => {},
    }
}

proof fn lemma_jv_num_ok_seq(xs: Seq<Json>)
    ensures
        num_ok_seq(jv_of_seq(xs)),
    decreases xs,
{
    if xs.len() > 0 {
        assert(decreases_to!(xs => xs[0]));
        assert(decreases_to!(xs => xs.subrange(1, xs.len() as int)));
        lemma_jv_num_ok(xs[0]);
        lemma_jv_num_ok_seq(xs.subrange(1, xs.len() as int));
        let w = jv_of_seq(xs);
        assert(w == seq![jv_of(xs[0])] + jv_of_seq(xs.subrange(1, xs.len() as int)));
        assert(w[0] == jv_of(xs[0]));
        assert(w.subrange(1, w.len() as int) =~= jv_of_seq(xs.subrange(1, xs.len() as int)));
    }
}

proof fn lemma_jv_num_ok_members(ms: Seq<(String, Json)>)
    ensures
        num_ok_members(jv_of_members(ms)),
    decreases ms,
{
    if ms.len() > 0 {
        assert(decreases_to!(ms => ms[0]));
        assert(decreases_to!(ms[0] => ms[0].1));
        assert(decreases_to!(ms => ms.subrange(1, ms.len() as int)));
        lemma_jv_num_ok(ms[0].1);
        lemma_jv_num_ok_members(ms.subrange(1, ms.len() as int));
        let w = jv_of_members(ms);
        assert(w[0] == (ms[0].0@, jv_of(ms[0].1)));
        assert(w.subrange(1, w.len() as int) =~= jv_of_members(ms.subrange(1, ms.len() as int)));
    }
}

/// Facts about the digits of a nonnegative integer: every character is a
/// digit, the first is not zero unless the number is zero, and the value
/// reads back.
pub(crate) proof fn lemma_dec_digits(m: int)
    requires
        m >= 0,
    ensures
        dec_digits(m).len() >= 1,
        forall|k: int| 0 <= k < dec_digits(m).len() ==> is_digit(dec_digits(m)[k]),
        m >= 1 ==> dec_digits(m)[0] != '0',
        m < 10 ==> dec_digits(m).len() == 1,
        dec_val(dec_digits(m)) == m,
    decreases m,
{
    if m < 10 {
        assert(dec_digits(m) == seq![digit_char(m)]);
        assert(dec_digits(m).subrange(0, 0) =~= Seq::<char>::empty());
        assert(dec_val(dec_digits(m)) == dec_val(Seq::<char>::empty()) * 10 + digit_val(
            digit_char(m),
        ));
    } else {
        lemma_dec_digits(m / 10);
        let pre = dec_digits(m / 10);
        let all = dec_digits(m);
        assert(all == pre + seq![digit_char(m % 10)]);
        assert(all.subrange(0, all.len() - 1) =~= pre);
        assert(all.last() == digit_char(m % 10));
        assert(dec_val(all) == dec_val(pre) * 10 + digit_val(digit_char(m % 10)));
        assert(digit_val(digit_char(m % 10)) == m % 10);
        assert((m / 10) * 10 + m % 10 == m);
    }
}

/// Where a run of digits followed by a non-digit (or the end) stops.
proof fn lemma_digits_end_of(s: Seq<char>, lo: int, hi: int)
    requires
        0 <= lo <= hi <= s.len(),
        forall|k: int| lo <= k < hi ==> is_digit(s[k]),
        hi == s.len() || !is_digit(s[hi]),
    ensures
        digits_end(s, lo) == hi,
    decreases hi - lo,
{
    if lo < hi {
        lemma_digits_end_of(s, lo + 1, hi);
    }
}

/// A digit character is not a quote, comma, bracket or whitespace.
proof fn lemma_digit_shape(c: char)
    requires
        is_digit(c),
    ensures
        !is_ws(c),
        c != '"' && c != ',' && c != ']' && c != '}' && c != '-' && c != 'n' && c != 't' && c
            != 'f' && c != '[' && c != '{',
{
}

/// Parsing the serialized number at `i` gives the number back.
proof fn lemma_rt_number(s: Seq<char>, i: int, n: int)
    requires
        i64::MIN <= n <= i64::MAX,
        0 <= i,
        i + ser_num(n).len() <= s.len(),
        s.subrange(i, i + ser_num(n).len() as int) == ser_num(n),
        i + ser_num(n).len() == s.len() || !is_digit(s[i + ser_num(n).len()]),
    ensures
        sp_number(s, i) == Ok::<(JsonV, int), ParseError>((JsonV::Num(n), i + ser_num(n).len())),
{
    let t = ser_num(n);
    let m = if n < 0 {
        -n
    } else {
        n
    };
    lemma_dec_digits(m);
    let dd = dec_digits(m);
    let lo = if n < 0 {
        i + 1
    } else {
        i
    };
    let hi = lo + dd.len();
    if n < 0 {
        assert(t == seq!['-'] + dd);
        assert(s[i] == t[0]);
        assert(t[0] == '-');
    } else {
        assert(t == dd);
        assert(s[i] == t[0]);
        assert(t[0] == dd[0]);
        lemma_digit_shape(dd[0]);
    }
    assert forall|k: int| lo <= k < hi implies s[k] == dd[k - lo] && is_digit(s[k]) by {
        assert(s.subrange(i, i + t.len() as int)[k - i] == s[k]);
        assert(t[k - i] == dd[k - lo]);
    }
    lemma_digits_end_of(s, lo, hi);
    assert(s.subrange(lo, hi) =~= dd);
    // The digit count is at most 19.
    lemma_pow10_19();
    if dd.len() > 19 {
        lemma_pow10_mono(19, dd.len() - 1);
        lemma_dec_val_bound_lower(dd);
        assert(false);
    }
    if n < 0 {
        assert(dec_val(s.subrange(lo, hi)) == m);
        assert(sp_number(s, i) == Ok::<(JsonV, int), ParseError>((JsonV::Num(-m), hi)));
    } else {
        assert(dec_val(s.subrange(lo, hi)) == m);
    }
}

/// Parsing the serialized string body at `i` (after the opening quote)
/// gives the characters back.
proof fn lemma_rt_string(s: Seq<char>, i: int, b: Seq<char>)
    requires
        0 <= i,
        i + esc_str(b).len() + 1 <= s.len(),
        s.subrange(i, i + esc_str(b).len() + 1) == esc_str(b) + seq!['"'],
    ensures
        sp_string(s, i) == Ok::<(Seq<char>, int), ParseError>((b, i + esc_str(b).len() + 1)),
    decreases b.len(),
{
    let e = esc_str(b);
    let t = e + seq!['"'];
    let end = i + e.len() + 1;
    assert forall|k: int| i <= k < end implies s[k] == t[k - i] by {
        assert(s.subrange(i, end)[k - i] == s[k]);
    }
    if b.len() == 0 {
        assert(s[i] == '"');
        assert(sp_string(s, i) == Ok::<(Seq<char>, int), ParseError>((Seq::empty(), i + 1)));
        assert(b =~= Seq::<char>::empty());
    } else {
        let c = b[0];
        let b2 = b.subrange(1, b.len() as int);
        assert(e == esc_char(c) + esc_str(b2));
        let ec = esc_char(c);
        if c == '"' || c == '\\' || c == '\n' || c == '\r' || c == '\t' {
            assert(ec.len() == 2);
            assert(s[i] == t[0] && t[0] == ec[0] && ec[0] == '\\');
            assert(s[i + 1] == t[1] && t[1] == ec[1]);
            assert(s.subrange(i + 2, end) =~= esc_str(b2) + seq!['"']) by {
                assert forall|k: int| 0 <= k < end - i - 2 implies s.subrange(i + 2, end)[k] == (
                esc_str(b2) + seq!['"'])[k] by {
                    assert(s[i + 2 + k] == t[k + 2]);
                }
            }
            lemma_rt_string(s, i + 2, b2);
            let d = if ec[1] == '"' {
                '"'
            } else if ec[1] == '\\' {
                '\\'
            } else if ec[1] == 'n' {
                '\n'
            } else if ec[1] == 'r' {
                '\r'
            } else {
                '\t'
            };
            assert(d == c);
            assert(seq![d] + b2 =~= b);
        } else {
            assert(ec.len() == 1);
            assert(s[i] == t[0] && t[0] == ec[0] && ec[0] == c);
            assert(s.subrange(i + 1, end) =~= esc_str(b2) + seq!['"']) by {
                assert forall|k: int| 0 <= k < end - i - 1 implies s.subrange(i + 1, end)[k] == (
                esc_str(b2) + seq!['"'])[k] by {
                    assert(s[i + 1 + k] == t[k + 1]);
                }
            }
            lemma_rt_string(s, i + 1, b2);
            assert(seq![c] + b2 =~= b);
        }
    }
}

/// The serialized text of any value is nonempty, and its first character is
/// neither whitespace nor a closing mark.
proof fn lemma_ser_first(v: JsonV)
    ensures
        ser(v).len() >= 1,
        !is_ws(ser(v)[0]),
        ser(v)[0] != ']' && ser(v)[0] != '}' && ser(v)[0] != ',' && ser(v)[0] != ':',
{
    match v {
        JsonV::Num(n) => {
            let m = if n < 0 {
                -n
            } else {
                n
            };
            lemma_dec_digits(m);
            if n < 0 {
                assert(ser(v)[0] == '-');
            } else {
                assert(ser(v) == dec_digits(n));
                lemma_digit_shape(dec_digits(n)[0]);
            }
        },
        _ => {},
    }
}

/// A digit string's value is at least ten to one less than its length.
proof fn lemma_dec_val_bound_lower(digs: Seq<char>)
    requires
        digs.len() >= 1,
        digs[0] != '0' || digs.len() == 1,
        forall|k: int| 0 <= k < digs.len() ==> is_digit(digs[k]),
    ensures
        digs.len() > 1 ==> dec_val(digs) >= pow10(digs.len() - 1),
        dec_val(digs) >= 0,
    decreases digs.len(),
{
    crate::parse::lemma_dec_val_bound(digs);
    if digs.len() > 1 {
        let pre = digs.subrange(0, digs.len() - 1);
        assert(pre[0] == digs[0]);
        lemma_dec_val_bound_lower(pre);
        if pre.len() > 1 {
            lemma_pow10_pos(pre.len() - 1);
            assert(dec_val(digs) == dec_val(pre) * 10 + digit_val(digs.last()));
        } else {
            assert(pre.len() == 1);
            assert(dec_val(pre) == dec_val(pre.subrange(0, 0)) * 10 + digit_val(pre[0]));
            assert(pre.subrange(0, 0) =~= Seq::<char>::empty());
            assert(digit_val(pre[0]) >= 1);
        }
    }
}

/// Parsing the serialized text of a value at `i` gives the value back.
pub proof fn lemma_rt_value(s: Seq<char>, i: int, v: JsonV)
    requires
        num_ok(v),
        0 <= i,
        i + ser(v).len() <= s.len(),
        s.subrange(i, i + ser(v).len() as int) == ser(v),
        v is Num ==> (i + ser(v).len() == s.len() || !is_digit(s[i + ser(v).len()])),
    ensures
        sp_value(s, i) == Ok::<(JsonV, int), ParseError>((v, i + ser(v).len())),
    decreases v,
{
    let t = ser(v);
    let end = i + t.len();
    assert forall|k: int| i <= k < end implies s[k] == t[k - i] by {
        assert(s.subrange(i, end)[k - i] == s[k]);
    }
    lemma_ser_first(v);
    assert(s[i] == t[0]);
    assert(skip_ws(s, i) == i);
    match v {
        JsonV::Null => {
            assert(t =~= seq!['n', 'u', 'l', 'l']);
            assert(s.subrange(i, i + 4) =~= seq!['n', 'u', 'l', 'l']);
        },
        JsonV::Bool(b) => {
            if b {
                assert(t =~= seq!['t', 'r', 'u', 'e']);
                assert(s.subrange(i, i + 4) =~= seq!['t', 'r', 'u', 'e']);
            } else {
                assert(t =~= seq!['f', 'a', 'l', 's', 'e']);
                assert(s.subrange(i, i + 5) =~= seq!['f', 'a', 'l', 's', 'e']);
            }
        },
        JsonV::Num(n) => {
            if n >= 0 {
                lemma_dec_digits(n);
                lemma_digit_shape(t[0]);
            }
            lemma_rt_number(s, i, n);
        },
        JsonV::Str(body) => {
            assert(t == ser_string(body));
            assert(t[0] == '"');
            assert(s.subrange(i + 1, end) =~= esc_str(body) + seq!['"']) by {
                assert forall|k: int| 0 <= k < end - i - 1 implies s.subrange(i + 1, end)[k] == (
                esc_str(body) + seq!['"'])[k] by {
                    assert(s[i + 1 + k] == t[k + 1]);
                }
            }
            lemma_rt_string(s, i + 1, body);
        },
        JsonV::Arr(xs) => {
            assert(decreases_to!(v => v->Arr_0));
            assert(t == seq!['['] + ser_items(xs) + seq![']']);
            assert(t[0] == '[');
            if xs.len() == 0 {
                assert(ser_items(xs) == Seq::<char>::empty());
                assert(t.len() == 2);
                assert(s[i + 1] == t[1] && t[1] == ']');
                assert(skip_ws(s, i + 1) == i + 1);
                assert(xs =~= Seq::<JsonV>::empty());
            } else {
                lemma_ser_first(xs[0]);
                assert(ser_items(xs)[0] == ser(xs[0])[0]);
                assert(s[i + 1] == t[1] && t[1] == ser_items(xs)[0]);
                assert(skip_ws(s, i + 1) == i + 1);
                assert(s[i + 1] != ']');
                assert(s.subrange(i + 1, end) =~= ser_items(xs) + seq![']']) by {
                    assert forall|k: int| 0 <= k < end - i - 1 implies s.subrange(i + 1, end)[k]
                        == (ser_items(xs) + seq![']'])[k] by {
                        assert(s[i + 1 + k] == t[k + 1]);
                    }
                }
                lemma_rt_items(s, i + 1, xs);
            }
        },
        JsonV::Obj(ms) => {
            assert(decreases_to!(v => v->Obj_0));
            assert(t == seq!['{'] + ser_members(ms) + seq!['}']);
            assert(t[0] == '{');
            if ms.len() == 0 {
                assert(ser_members(ms) == Seq::<char>::empty());
                assert(t.len() == 2);
                assert(s[i + 1] == t[1] && t[1] == '}');
                assert(skip_ws(s, i + 1) == i + 1);
                assert(ms =~= Seq::<(Seq<char>, JsonV)>::empty());
            } else {
                assert(ser_members(ms)[0] == ser_string(ms[0].0)[0]);
                assert(ser_string(ms[0].0)[0] == '"');
                assert(s[i + 1] == t[1] && t[1] == '"');
                assert(skip_ws(s, i + 1) == i + 1);
                assert(s[i + 1] != '}');
                assert(s.subrange(i + 1, end) =~= ser_members(ms) + seq!['}']) by {
                    assert forall|k: int| 0 <= k < end - i - 1 implies s.subrange(i + 1, end)[k]
                        == (ser_members(ms) + seq!['}'])[k] by {
                        assert(s[i + 1 + k] == t[k + 1]);
                    }
                }
                lemma_rt_members(s, i + 1, ms);
            }
        },
    }
}

/// Parsing serialized array elements (closing bracket included) gives the
/// elements back.
proof fn lemma_rt_items(s: Seq<char>, i: int, xs: Seq<JsonV>)
    requires
        num_ok_seq(xs),
        xs.len() >= 1,
        0 <= i,
        i + ser_items(xs).len() + 1 <= s.len(),
        s.subrange(i, i + ser_items(xs).len() + 1) == ser_items(xs) + seq![']'],
    ensures
        sp_items(s, i) == Ok::<(Seq<JsonV>, int), ParseError>(
            (xs, i + ser_items(xs).len() + 1),
        ),
    decreases xs,
{
    let t = ser_items(xs) + seq![']'];
    let end = i + t.len();
    assert forall|k: int| i <= k < end implies s[k] == t[k - i] by {
        assert(s.subrange(i, end)[k - i] == s[k]);
    }
    let x0 = xs[0];
    assert(decreases_to!(xs => xs[0]));
    assert(decreases_to!(xs => xs.subrange(1, xs.len() as int)));
    lemma_ser_first(x0);
    let e0 = ser(x0);
    let k = i + e0.len();
    if xs.len() == 1 {
        assert(ser_items(xs) == e0);
        assert forall|q: int| 0 <= q < e0.len() implies s.subrange(i, k)[q] == e0[q] by {
            assert(s[i + q] == t[q]);
        }
        assert(s.subrange(i, k) =~= e0);
        assert(s[k] == t[k - i] && t[k - i] == ']');
        lemma_rt_value(s, i, x0);
        assert(skip_ws(s, k) == k);
        assert(seq![x0] =~= xs);
    } else {
        let rest = xs.subrange(1, xs.len() as int);
        assert(ser_items(xs) == e0 + seq![','] + ser_items(rest));
        assert forall|q: int| 0 <= q < e0.len() implies s.subrange(i, k)[q] == e0[q] by {
            assert(s[i + q] == t[q]);
        }
        assert(s.subrange(i, k) =~= e0);
        assert(s[k] == t[k - i] && t[k - i] == ',');
        lemma_rt_value(s, i, x0);
        assert(skip_ws(s, k) == k);
        assert(s.subrange(k + 1, end) =~= ser_items(rest) + seq![']']) by {
            assert forall|q: int| 0 <= q < end - k - 1 implies s.subrange(k + 1, end)[q] == (
            ser_items(rest) + seq![']'])[q] by {
                assert(s[k + 1 + q] == t[k + 1 + q - i]);
            }
        }
        lemma_rt_items(s, k + 1, rest);
        assert(seq![x0] + rest =~= xs);
    }
}

/// Parsing serialized object members (closing brace included) gives the
/// members back.
#[verifier::rlimit(100)]
#[verifier::spinoff_prover]
proof fn lemma_rt_members(s: Seq<char>, i: int, ms: Seq<(Seq<char>, JsonV)>)
    requires
        num_ok_members(ms),
        ms.len() >= 1,
        0 <= i,
        i + ser_members(ms).len() + 1 <= s.len(),
        s.subrange(i, i + ser_members(ms).len() + 1) == ser_members(ms) + seq!['}'],
    ensures
        sp_members(s, i) == Ok::<(Seq<(Seq<char>, JsonV)>, int), ParseError>(
            (ms, i + ser_members(ms).len() + 1),
        ),
    decreases ms,
{
    let t = ser_members(ms) + seq!['}'];
    let end = i + t.len();
    assert forall|k: int| i <= k < end implies s[k] == t[k - i] by {
        assert(s.subrange(i, end)[k - i] == s[k]);
    }
    let name = ms[0].0;
    let v0 = ms[0].1;
    assert(decreases_to!(ms => ms[0]));
    assert(decreases_to!(ms[0] => ms[0].1));
    assert(decreases_to!(ms => ms.subrange(1, ms.len() as int)));
    let head = ser_string(name) + seq![':'] + ser(v0);
    if ms.len() == 1 {
        assert(ser_members(ms) == head);
    } else {
        assert(ser_members(ms) == head + seq![','] + ser_members(
            ms.subrange(1, ms.len() as int),
        ));
    }
    assert(s[i] == t[0] && t[0] == '"');
    assert(skip_ws(s, i) == i);
    // the name string
    let kn = i + ser_string(name).len();
    assert(s.subrange(i + 1, kn) =~= esc_str(name) + seq!['"']) by {
        assert forall|q: int| 0 <= q < kn - i - 1 implies s.subrange(i + 1, kn)[q] == (esc_str(
            name,
        ) + seq!['"'])[q] by {
            assert(s[i + 1 + q] == t[q + 1]);
        }
    }
    lemma_rt_string(s, i + 1, name);
    // the colon
    assert(s[kn] == t[kn - i] && t[kn - i] == ':');
    assert(skip_ws(s, kn) == kn);
    // the value
    lemma_ser_first(v0);
    let kv = kn + 1 + ser(v0).len();
    assert forall|q: int| 0 <= q < ser(v0).len() implies s.subrange(kn + 1, kv)[q] == ser(v0)[q] by {
        assert(s[kn + 1 + q] == t[kn + 1 + q - i]);
    }
    assert(s.subrange(kn + 1, kv) =~= ser(v0));
    assert(s[kv] == t[kv - i]);
    if ms.len() == 1 {
        assert(t[kv - i] == '}');
    } else {
        assert(t[kv - i] == ',');
    }
    lemma_rt_value(s, kn + 1, v0);
    assert(skip_ws(s, kv) == kv);
    if ms.len() == 1 {
        assert(seq![(name, v0)] =~= ms);
    } else {
        let rest = ms.subrange(1, ms.len() as int);
        assert(s.subrange(kv + 1, end) =~= ser_members(rest) + seq!['}']) by {
            assert forall|q: int| 0 <= q < end - kv - 1 implies s.subrange(kv + 1, end)[q] == (
            ser_members(rest) + seq!['}'])[q] by {
                assert(s[kv + 1 + q] == t[kv + 1 + q - i]);
            }
        }
        lemma_rt_members(s, kv + 1, rest);
        assert(seq![(name, v0)] + rest =~= ms);
    }
}

/// The round-trip law at the level of whole texts: the serialized text of a
/// value parses back to exactly that value.
pub proof fn lemma_parse_of_ser(v: JsonV)
    requires
        num_ok(v),
    ensures
        sp_doc(ser(v)) == Ok::<JsonV, ParseError>(v),
{
    let s = ser(v);
    assert(s.subrange(0, s.len() as int) =~= s);
    lemma_rt_value(s, 0, v);
    assert(skip_ws(s, s.len() as int) == s.len());
}

/// The round-trip law for concrete values: the text of a [`Json`] value
/// parses back to a value with the same view.
pub proof fn lemma_text_round_trip(j: Json)
    ensures
        sp_doc(ser(j@)) == Ok::<JsonV, ParseError>(j@),
{
    lemma_jv_num_ok(j);
    lemma_parse_of_ser(j@);
}

} // verus!

verus! {

/// Where a whitespace run followed by a non-whitespace character (or the
/// end) stops the skip.
proof fn lemma_skip_ws_to(s: Seq<char>, lo: int, hi: int)
    requires
        0 <= lo <= hi <= s.len(),
        forall|k: int| lo <= k < hi ==> is_ws(s[k]),
        hi == s.len() || !is_ws(s[hi]),
    ensures
        skip_ws(s, lo) == hi,
    decreases hi - lo,
{
    if lo < hi {
        lemma_skip_ws_to(s, lo + 1, hi);
    }
}

/// The pretty texts of the elements from the first element on: no leading
/// indent, each later element on its own indented line.
pub open spec fn pitems_tail(xs: Seq<JsonV>, ind: int) -> Seq<char>
    decreases xs,
{
    if xs.len() == 0 {
        Seq::empty()
    } else {
        proof {
            assert(decreases_to!(xs => xs[0]));
            assert(decreases_to!(xs => xs.subrange(1, xs.len() as int)));
        }
        if xs.len() == 1 {
            pser(xs[0], ind)
        } else {
            pser(xs[0], ind) + seq![',', '\n'] + spaces(2 * ind) + pitems_tail(
                xs.subrange(1, xs.len() as int),
                ind,
            )
        }
    }
}

/// The pretty texts of the members from the first member on: no leading
/// indent, each later member on its own indented line.
pub open spec fn pmembers_tail(ms: Seq<(Seq<char>, JsonV)>, ind: int) -> Seq<char>
    decreases ms,
{
    if ms.len() == 0 {
        Seq::empty()
    } else {
        proof {
            assert(decreases_to!(ms => ms[0]));
            assert(decreases_to!(ms => ms[0].1));
            assert(decreases_to!(ms => ms.subrange(1, ms.len() as int)));
        }
        let head = ser_string(ms[0].0) + seq![':', ' '] + pser(ms[0].1, ind);
        if ms.len() == 1 {
            head
        } else {
            head + seq![',', '\n'] + spaces(2 * ind) + pmembers_tail(
                ms.subrange(1, ms.len() as int),
                ind,
            )
        }
    }
}

/// The element block is the indent and then the elements.
proof fn lemma_pitems_shape(xs: Seq<JsonV>, ind: int)
    requires
        xs.len() >= 1,
    ensures
        pser_items(xs, ind) == spaces(2 * ind) + pitems_tail(xs, ind),
    decreases xs,
{
    assert(decreases_to!(xs => xs.subrange(1, xs.len() as int)));
    if xs.len() == 1 {
        assert(pser_items(xs, ind) =~= spaces(2 * ind) + pitems_tail(xs, ind));
    } else {
        lemma_pitems_shape(xs.subrange(1, xs.len() as int), ind);
        assert(pser_items(xs, ind) =~= spaces(2 * ind) + pitems_tail(xs, ind));
    }
}

/// The member block is the indent and then the members.
proof fn lemma_pmembers_shape(ms: Seq<(Seq<char>, JsonV)>, ind: int)
    requires
        ms.len() >= 1,
    ensures
        pser_members(ms, ind) == spaces(2 * ind) + pmembers_tail(ms, ind),
    decreases ms,
{
    assert(decreases_to!(ms => ms.subrange(1, ms.len() as int)));
    if ms.len() == 1 {
        assert(pser_members(ms, ind) =~= spaces(2 * ind) + pmembers_tail(ms, ind));
    } else {
        lemma_pmembers_shape(ms.subrange(1, ms.len() as int), ind);
        assert(pser_members(ms, ind) =~= spaces(2 * ind) + pmembers_tail(ms, ind));
    }
}

/// The pretty text of any value is nonempty, and its first character is
/// neither whitespace nor a closing mark.
proof fn lemma_pser_first(v: JsonV, ind: int)
    ensures
        pser(v, ind).len() >= 1,
        !is_ws(pser(v, ind)[0]),
        pser(v, ind)[0] != ']' && pser(v, ind)[0] != '}' && pser(v, ind)[0] != ',',
{
    match v {
        JsonV::Num(n) => {
            let m = if n < 0 {
                -n
            } else {
                n
            };
            lemma_dec_digits(m);
            if n < 0 {
                assert(pser(v, ind)[0] == '-');
            } else {
                assert(pser(v, ind) == dec_digits(n));
                lemma_digit_shape(dec_digits(n)[0]);
            }
        },
        _ => {},
    }
}

} // verus!

verus! {

/// Parsing from any place whose whitespace skip lands on the pretty text
/// of a value gives the value back.
#[verifier::rlimit(100)]
#[verifier::spinoff_prover]
proof fn lemma_prt_value(s: Seq<char>, q: int, v: JsonV, ind: int)
    requires
        num_ok(v),
        0 <= q <= s.len(),
        0 <= ind,
        skip_ws(s, q) + pser(v, ind).len() <= s.len(),
        s.subrange(skip_ws(s, q), skip_ws(s, q) + pser(v, ind).len() as int) == pser(v, ind),
        v is Num ==> (skip_ws(s, q) + pser(v, ind).len() == s.len() || !is_digit(
            s[skip_ws(s, q) + pser(v, ind).len()],
        )),
    ensures
        sp_value(s, q) == Ok::<(JsonV, int), ParseError>((v, skip_ws(s, q) + pser(v, ind).len())),
    decreases v,
{
    lemma_skip_ws(s, q);
    let i = skip_ws(s, q);
    let t = pser(v, ind);
    let end = i + t.len();
    assert forall|k: int| i <= k < end implies s[k] == t[k - i] by {
        assert(s.subrange(i, end)[k - i] == s[k]);
    }
    lemma_pser_first(v, ind);
    assert(s[i] == t[0]);
    match v {
        JsonV::Null => {
            assert(t =~= seq!['n', 'u', 'l', 'l']);
            assert(s.subrange(i, i + 4) =~= seq!['n', 'u', 'l', 'l']);
        },
        JsonV::Bool(b) => {
            if b {
                assert(t =~= seq!['t', 'r', 'u', 'e']);
                assert(s.subrange(i, i + 4) =~= seq!['t', 'r', 'u', 'e']);
            } else {
                assert(t =~= seq!['f', 'a', 'l', 's', 'e']);
                assert(s.subrange(i, i + 5) =~= seq!['f', 'a', 'l', 's', 'e']);
            }
        },
        JsonV::Num(n) => {
            if n >= 0 {
                lemma_dec_digits(n);
                lemma_digit_shape(t[0]);
            }
            assert(t == ser_num(n));
            lemma_rt_number(s, i, n);
        },
        JsonV::Str(body) => {
            assert(t == ser_string(body));
            assert(t[0] == '"');
            assert(s.subrange(i + 1, end) =~= esc_str(body) + seq!['"']) by {
                assert forall|k: int| 0 <= k < end - i - 1 implies s.subrange(i + 1, end)[k] == (
                esc_str(body) + seq!['"'])[k] by {
                    assert(s[i + 1 + k] == t[k + 1]);
                }
            }
            lemma_rt_string(s, i + 1, body);
        },
        JsonV::Arr(xs) => {
            assert(decreases_to!(v => v->Arr_0));
            if xs.len() == 0 {
                assert(t =~= seq!['[', ']']);
                assert(s[i + 1] == ']');
                lemma_skip_ws_to(s, i + 1, i + 1);
                assert(xs =~= Seq::<JsonV>::empty());
            } else {
                let ind2 = next_ind(ind);
                lemma_pitems_shape(xs, ind2);
                assert(t == seq!['[', '\n'] + pser_items(xs, ind2) + seq!['\n'] + spaces(2 * ind)
                    + seq![']']);
                let p = i + 2 + 2 * ind2;
                let tail = pitems_tail(xs, ind2);
                let body = tail + seq!['\n'] + spaces(2 * ind) + seq![']'];
                assert forall|k: int| i + 1 <= k < p implies is_ws(s[k]) by {
                    assert(s[k] == t[k - i]);
                    if k == i + 1 {
                        assert(t[1] == '\n');
                    } else {
                        assert(t[k - i] == spaces(2 * ind2)[k - i - 2]);
                        assert(spaces(2 * ind2)[k - i - 2] == ' ');
                    }
                }
                lemma_pser_first(xs[0], ind2);
                assert(tail[0] == pser(xs[0], ind2)[0]);
                assert(s[p] == t[p - i] && t[p - i] == tail[0]);
                lemma_skip_ws_to(s, i + 1, p);
                assert(s[p] != ']');
                assert(s.subrange(p, p + body.len() as int) =~= body) by {
                    assert forall|k: int| 0 <= k < body.len() implies s.subrange(
                        p,
                        p + body.len() as int,
                    )[k] == body[k] by {
                        assert(s[p + k] == t[p + k - i]);
                    }
                }
                lemma_skip_ws_to(s, p, p);
                lemma_prt_items(s, p, xs, ind2, 2 * ind);
                assert(p + body.len() == end);
            }
        },
        JsonV::Obj(ms) => {
            assert(decreases_to!(v => v->Obj_0));
            if ms.len() == 0 {
                assert(t =~= seq!['{', '}']);
                assert(s[i + 1] == '}');
                lemma_skip_ws_to(s, i + 1, i + 1);
                assert(ms =~= Seq::<(Seq<char>, JsonV)>::empty());
            } else {
                let ind2 = next_ind(ind);
                lemma_pmembers_shape(ms, ind2);
                assert(t == seq!['{', '\n'] + pser_members(ms, ind2) + seq!['\n'] + spaces(2 * ind)
                    + seq!['}']);
                let p = i + 2 + 2 * ind2;
                let tail = pmembers_tail(ms, ind2);
                let body = tail + seq!['\n'] + spaces(2 * ind) + seq!['}'];
                assert forall|k: int| i + 1 <= k < p implies is_ws(s[k]) by {
                    assert(s[k] == t[k - i]);
                    if k == i + 1 {
                        assert(t[1] == '\n');
                    } else {
                        assert(t[k - i] == spaces(2 * ind2)[k - i - 2]);
                        assert(spaces(2 * ind2)[k - i - 2] == ' ');
                    }
                }
                assert(tail[0] == ser_string(ms[0].0)[0]);
                assert(ser_string(ms[0].0)[0] == '"');
                assert(s[p] == t[p - i] && t[p - i] == '"');
                lemma_skip_ws_to(s, i + 1, p);
                assert(s[p] != '}');
                assert(s.subrange(p, p + body.len() as int) =~= body) by {
                    assert forall|k: int| 0 <= k < body.len() implies s.subrange(
                        p,
                        p + body.len() as int,
                    )[k] == body[k] by {
                        assert(s[p + k] == t[p + k - i]);
                    }
                }
                lemma_prt_members(s, p, ms, ind2, 2 * ind);
                assert(p + body.len() == end);
            }
        },
    }
}

/// Parsing pretty array elements (the closing line included) from any
/// place whose whitespace skip lands on the first element gives the
/// elements back.
proof fn lemma_prt_items(s: Seq<char>, q: int, xs: Seq<JsonV>, ind: int, pad: int)
    requires
        num_ok_seq(xs),
        xs.len() >= 1,
        0 <= q <= s.len(),
        0 <= ind,
        0 <= pad,
        skip_ws(s, q) + pitems_tail(xs, ind).len() + 1 + pad + 1 <= s.len(),
        s.subrange(
            skip_ws(s, q),
            skip_ws(s, q) + pitems_tail(xs, ind).len() + 1 + pad + 1,
        ) == pitems_tail(xs, ind) + seq!['\n'] + spaces(pad) + seq![']'],
    ensures
        sp_items(s, q) == Ok::<(Seq<JsonV>, int), ParseError>(
            (xs, skip_ws(s, q) + pitems_tail(xs, ind).len() + 1 + pad + 1),
        ),
    decreases xs,
{
    lemma_skip_ws(s, q);
    let p = skip_ws(s, q);
    let tail = pitems_tail(xs, ind);
    let t = tail + seq!['\n'] + spaces(pad) + seq![']'];
    let end = p + t.len();
    assert forall|k: int| p <= k < end implies s[k] == t[k - p] by {
        assert(s.subrange(p, end)[k - p] == s[k]);
    }
    let x0 = xs[0];
    assert(decreases_to!(xs => xs[0]));
    assert(decreases_to!(xs => xs.subrange(1, xs.len() as int)));
    let e0 = pser(x0, ind);
    let k = p + e0.len();
    // the first element's text and its boundary
    assert forall|w: int| 0 <= w < e0.len() implies s.subrange(p, k)[w] == e0[w] by {
        assert(tail[w] == e0[w]);
        assert(s[p + w] == t[w]);
    }
    assert(s.subrange(p, k) =~= e0);
    assert(skip_ws(s, p) == p) by {
        lemma_pser_first(x0, ind);
        assert(s[p] == e0[0]);
        lemma_skip_ws_to(s, p, p);
    }
    if xs.len() == 1 {
        assert(tail == e0);
        assert(s[k] == t[k - p] && t[k - p] == '\n');
        lemma_prt_value(s, q, x0, ind);
        assert forall|w: int| k <= w < k + 1 + pad implies is_ws(s[w]) by {
            assert(s[w] == t[w - p]);
            if w > k {
                assert(t[w - p] == spaces(pad)[w - p - e0.len() - 1]);
                assert(spaces(pad)[w - p - e0.len() - 1] == ' ');
            }
        }
        assert(s[k + 1 + pad] == t[k + 1 + pad - p] && t[k + 1 + pad - p] == ']');
        lemma_skip_ws_to(s, k, k + 1 + pad);
        assert(seq![x0] =~= xs);
    } else {
        let rest = xs.subrange(1, xs.len() as int);
        assert(tail == e0 + seq![',', '\n'] + spaces(2 * ind) + pitems_tail(rest, ind));
        assert(s[k] == t[k - p] && t[k - p] == ',');
        lemma_prt_value(s, q, x0, ind);
        lemma_skip_ws_to(s, k, k);
        // the next element starts after the comma, the break and the indent
        let p2 = k + 2 + 2 * ind;
        assert forall|w: int| k + 1 <= w < p2 implies is_ws(s[w]) by {
            assert(s[w] == t[w - p]);
            if w == k + 1 {
                assert(t[w - p] == '\n');
            } else {
                assert(t[w - p] == spaces(2 * ind)[w - k - 2]);
                assert(spaces(2 * ind)[w - k - 2] == ' ');
            }
        }
        lemma_pser_first(rest[0], ind);
        assert(pitems_tail(rest, ind)[0] == pser(rest[0], ind)[0]);
        assert(s[p2] == t[p2 - p] && t[p2 - p] == pitems_tail(rest, ind)[0]);
        lemma_skip_ws_to(s, k + 1, p2);
        let body2 = pitems_tail(rest, ind) + seq!['\n'] + spaces(pad) + seq![']'];
        assert(s.subrange(p2, p2 + body2.len() as int) =~= body2) by {
            assert forall|w: int| 0 <= w < body2.len() implies s.subrange(
                p2,
                p2 + body2.len() as int,
            )[w] == body2[w] by {
                assert(s[p2 + w] == t[p2 + w - p]);
            }
        }
        lemma_prt_items(s, k + 1, rest, ind, pad);
        assert(p2 + body2.len() == end);
        assert(seq![x0] + rest =~= xs);
    }
}

/// Parsing pretty object members (the closing line included) from any
/// place whose whitespace skip lands on the first member gives the
/// members back.
#[verifier::rlimit(100)]
#[verifier::spinoff_prover]
proof fn lemma_prt_members(s: Seq<char>, q: int, ms: Seq<(Seq<char>, JsonV)>, ind: int, pad: int)
    requires
        num_ok_members(ms),
        ms.len() >= 1,
        0 <= q <= s.len(),
        0 <= ind,
        0 <= pad,
        skip_ws(s, q) + pmembers_tail(ms, ind).len() + 1 + pad + 1 <= s.len(),
        s.subrange(
            skip_ws(s, q),
            skip_ws(s, q) + pmembers_tail(ms, ind).len() + 1 + pad + 1,
        ) == pmembers_tail(ms, ind) + seq!['\n'] + spaces(pad) + seq!['}'],
    ensures
        sp_members(s, q) == Ok::<(Seq<(Seq<char>, JsonV)>, int), ParseError>(
            (ms, skip_ws(s, q) + pmembers_tail(ms, ind).len() + 1 + pad + 1),
        ),
    decreases ms,
{
    lemma_skip_ws(s, q);
    let p = skip_ws(s, q);
    let tail = pmembers_tail(ms, ind);
    let t = tail + seq!['\n'] + spaces(pad) + seq!['}'];
    let end = p + t.len();
    assert forall|k: int| p <= k < end implies s[k] == t[k - p] by {
        assert(s.subrange(p, end)[k - p] == s[k]);
    }
    let name = ms[0].0;
    let v0 = ms[0].1;
    assert(decreases_to!(ms => ms[0]));
    assert(decreases_to!(ms[0] => ms[0].1));
    assert(decreases_to!(ms => ms.subrange(1, ms.len() as int)));
    let head = ser_string(name) + seq![':', ' '] + pser(v0, ind);
    if ms.len() == 1 {
        assert(tail == head);
    } else {
        assert(tail == head + seq![',', '\n'] + spaces(2 * ind) + pmembers_tail(
            ms.subrange(1, ms.len() as int),
            ind,
        ));
    }
    assert(s[p] == t[0] && t[0] == '"');
    // the name string
    let kn = p + ser_string(name).len();
    assert(s.subrange(p + 1, kn) =~= esc_str(name) + seq!['"']) by {
        assert forall|w: int| 0 <= w < kn - p - 1 implies s.subrange(p + 1, kn)[w] == (esc_str(
            name,
        ) + seq!['"'])[w] by {
            assert(s[p + 1 + w] == t[w + 1]);
        }
    }
    lemma_rt_string(s, p + 1, name);
    // the colon and the one space
    assert(s[kn] == t[kn - p] && t[kn - p] == ':');
    lemma_skip_ws_to(s, kn, kn);
    assert(s[kn + 1] == t[kn + 1 - p] && t[kn + 1 - p] == ' ');
    lemma_pser_first(v0, ind);
    let iv = kn + 2;
    assert(s[iv] == t[iv - p] && t[iv - p] == pser(v0, ind)[0]);
    lemma_skip_ws_to(s, kn + 1, iv);
    // the value
    let kv = iv + pser(v0, ind).len();
    assert(skip_ws(s, kn + 1) == iv);
    assert(s.subrange(iv, kv) =~= pser(v0, ind)) by {
        assert forall|w: int| 0 <= w < pser(v0, ind).len() implies s.subrange(iv, kv)[w] == pser(
            v0,
            ind,
        )[w] by {
            assert(s[iv + w] == t[iv + w - p]);
        }
    }
    assert(s[kv] == t[kv - p]);
    if ms.len() == 1 {
        assert(t[kv - p] == '\n');
    } else {
        assert(t[kv - p] == ',');
    }
    lemma_prt_value(s, kn + 1, v0, ind);
    if ms.len() == 1 {
        assert forall|w: int| kv <= w < kv + 1 + pad implies is_ws(s[w]) by {
            assert(s[w] == t[w - p]);
            if w > kv {
                assert(t[w - p] == spaces(pad)[w - kv - 1]);
                assert(spaces(pad)[w - kv - 1] == ' ');
            }
        }
        assert(s[kv + 1 + pad] == t[kv + 1 + pad - p] && t[kv + 1 + pad - p] == '}');
        lemma_skip_ws_to(s, kv, kv + 1 + pad);
        assert(seq![(name, v0)] =~= ms);
    } else {
        let rest = ms.subrange(1, ms.len() as int);
        lemma_skip_ws_to(s, kv, kv);
        let p2 = kv + 2 + 2 * ind;
        assert forall|w: int| kv + 1 <= w < p2 implies is_ws(s[w]) by {
            assert(s[w] == t[w - p]);
            if w == kv + 1 {
                assert(t[w - p] == '\n');
            } else {
                assert(t[w - p] == spaces(2 * ind)[w - kv - 2]);
                assert(spaces(2 * ind)[w - kv - 2] == ' ');
            }
        }
        assert(pmembers_tail(rest, ind)[0] == ser_string(rest[0].0)[0]);
        assert(ser_string(rest[0].0)[0] == '"');
        assert(s[p2] == t[p2 - p] && t[p2 - p] == '"');
        lemma_skip_ws_to(s, kv + 1, p2);
        let body2 = pmembers_tail(rest, ind) + seq!['\n'] + spaces(pad) + seq!['}'];
        assert(s.subrange(p2, p2 + body2.len() as int) =~= body2) by {
            assert forall|w: int| 0 <= w < body2.len() implies s.subrange(
                p2,
                p2 + body2.len() as int,
            )[w] == body2[w] by {
                assert(s[p2 + w] == t[p2 + w - p]);
            }
        }
        lemma_prt_members(s, kv + 1, rest, ind, pad);
        assert(p2 + body2.len() == end);
        assert(seq![(name, v0)] + rest =~= ms);
    }
}

/// The round-trip law for pretty text: the pretty rendering of a value
/// parses back to exactly that value.
pub proof fn lemma_parse_of_pser(v: JsonV)
    requires
        num_ok(v),
    ensures
        sp_doc(pser(v, 0)) == Ok::<JsonV, ParseError>(v),
{
    let s = pser(v, 0);
    lemma_pser_first(v, 0);
    lemma_skip_ws_to(s, 0, 0);
    assert(s.subrange(0, s.len() as int) =~= s);
    lemma_prt_value(s, 0, v, 0);
    lemma_skip_ws_to(s, s.len() as int, s.len() as int);
}

} // verus!
