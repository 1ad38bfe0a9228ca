//! The field codec: embedding a nested value as a string, and extracting it
//! back.
//!
//! Escaping turns any non-string value into the string of its compact text;
//! a string stays as it is. Unescaping parses a string's content as JSON
//! after normalizing each `\"` sequence to a bare quote, and yields null
//! when the content does not parse; a non-string passes through unchanged.
use crate::json::{jv_of, jv_of_members, lemma_jv_of_members, Json, JsonV};
use crate::parse::{sp_doc, ParseError};
use crate::pointer::{jv_get, jv_set, lemma_obj_at, lemma_obj_none, obj_get, obj_set, segs_view};
use crate::ser::ser;
use crate::strutil::{chars_of, push_char};
use vstd::prelude::*;

verus! {

/// The text with each two-character sequence `\"` made a bare quote,
/// scanning left to right.
pub open spec fn unquote(s: Seq<char>) -> Seq<char>
    decreases s.len(),
{
    if s.len() == 0 {
        Seq::empty()
    } else if s.len() >= 2 && s[0] == '\\' && s[1] == '"' {
        seq!['"'] + unquote(s.subrange(2, s.len() as int))
    } else {
        seq![s[0]] + unquote(s.subrange(1, s.len() as int))
    }
}

/// What escaping does to a value: a string stays; anything else becomes the
/// string of its compact text.
pub open spec fn esc_field(v: JsonV) -> JsonV {
    match v {
        JsonV::Str(_) => v,
        _ => JsonV::Str(ser(v)),
    }
}

/// What unescaping does to a value: a string is parsed after quote
/// normalization, null when it does not parse; anything else stays.
pub open spec fn unesc_field(v: JsonV) -> JsonV {
    match v {
        JsonV::Str(s) => match sp_doc(unquote(s)) {
            Ok(w) => w,
            Err(_) => JsonV::Null,
        },
        _ => v,
    }
}

/// Normalizes each `\"` sequence in the text to a bare quote.
fn unquote_exec(s: &str) -> (r: String)
    ensures
        r@ == unquote(s@),
{
    let chars = chars_of(s);
    let n = chars.len();
    let mut out = String::new();
    let mut i: usize = 0;
    proof {
        assert(s@.subrange(0, n as int) =~= s@);
        assert(out@ + unquote(s@) =~= unquote(s@));
    }
    while i < n
        invariant
            i <= n,
            n == s@.len(),
            chars@ == s@,
            unquote(s@) == out@ + unquote(s@.subrange(i as int, n as int)),
        decreases n - i,
    {
        let ghost pre = out@;
        let ghost tail = s@.subrange(i as int, n as int);
        if i + 1 < n && chars[i] == '\\' && chars[i + 1] == '"' {
            push_char(&mut out, '"');
            proof {
                assert(tail.len() >= 2 && tail[0] == '\\' && tail[1] == '"');
                assert(tail.subrange(2, tail.len() as int) =~= s@.subrange(i + 2 as int, n as int));
                assert(pre + (seq!['"'] + unquote(s@.subrange(i + 2 as int, n as int))) =~= out@
                    + unquote(s@.subrange(i + 2 as int, n as int)));
            }
            i = i + 2;
        } else {
            push_char(&mut out, chars[i]);
            proof {
                assert(tail[0] == s@[i as int]);
                assert(!(tail.len() >= 2 && tail[0] == '\\' && tail[1] == '"'));
                assert(tail.subrange(1, tail.len() as int) =~= s@.subrange(i + 1 as int, n as int));
                assert(pre + (seq![tail[0]] + unquote(s@.subrange(i + 1 as int, n as int))) =~= out@
                    + unquote(s@.subrange(i + 1 as int, n as int)));
            }
            i = i + 1;
        }
    }
    proof {
        assert(s@.subrange(n as int, n as int) =~= Seq::<char>::empty());
        assert(out@ + Seq::<char>::empty() =~= out@);
    }
    out
}

/// A JSON value split by whether it is a string, ready for field rewriting.
#[derive(Debug)]
pub enum JsonField {
    String(String),
    Value(Json),
}

/// What [`JsonField::escape`] yields for each variant.
pub open spec fn escaped_of(f: JsonField) -> JsonV {
    match f {
        JsonField::String(s) => JsonV::Str(s@),
        JsonField::Value(j) => JsonV::Str(ser(j@)),
    }
}

/// What [`JsonField::unescape`] yields for each variant.
pub open spec fn unescaped_of(f: JsonField) -> JsonV {
    match f {
        JsonField::String(s) => match sp_doc(unquote(s@)) {
            Ok(w) => w,
            Err(_) => JsonV::Null,
        },
        JsonField::Value(j) => j@,
    }
}

impl JsonField {
    /// Extracts the value a string encodes; passes a carried value through.
    pub fn unescape(self) -> (r: Json)
        ensures
            r@ == unescaped_of(self),
    {
        match self {
            JsonField::String(s) => {
                let normalized = unquote_exec(s.as_str());
                match Json::from_text(normalized.as_str()) {
                    Ok(v) => v,
                    Err(_) => Json::Null,
                }
            },
            JsonField::Value(j) => j,
        }
    }

    /// Embeds a carried value as the string of its text; keeps a string as
    /// it is.
    pub fn escape(self) -> (r: Json)
        ensures
            r@ == escaped_of(self),
    {
        match self {
            JsonField::String(s) => Json::Str(s),
            JsonField::Value(j) => Json::Str(j.to_text()),
        }
    }
}

/// Escapes a value through [`JsonField`]: a string stays, anything else
/// becomes the string of its compact text.
pub fn escape_value(j: Json) -> (r: Json)
    ensures
        r@ == esc_field(j@),
{
    let ghost jv = j@;
    let f = JsonField::from(j);
    f.escape()
}

/// Unescapes a value through [`JsonField`]: a string is parsed after quote
/// normalization (null when that fails), anything else stays.
pub fn unescape_value(j: Json) -> (r: Json)
    ensures
        r@ == unesc_field(j@),
{
    let ghost jv = j@;
    let f = JsonField::from(j);
    f.unescape()
}

/// A character a string may hold for the codec law: anything but a quote
/// or a backslash.
pub open spec fn char_plain(c: char) -> bool {
    c != '"' && c != '\\'
}

/// A string of such characters only.
pub open spec fn str_plain(s: Seq<char>) -> bool {
    forall|k: int| 0 <= k < s.len() ==> char_plain(s[k])
}

/// A value whose strings — keys and values alike — hold no quote and no
/// backslash.
pub open spec fn plain(v: JsonV) -> bool
    decreases v,
{
    match v {
        JsonV::Str(s) => str_plain(s),
        JsonV::Arr(xs) => {
            proof {
                assert(decreases_to!(v => v->Arr_0));
            }
            plain_seq(xs)
        },
        JsonV::Obj(ms) => {
            proof {
                assert(decreases_to!(v => v->Obj_0));
            }
            plain_members(ms)
        },
        _ => true,
    }
}

/// [`plain`] over array elements.
pub open spec fn plain_seq(xs: Seq<JsonV>) -> bool
    decreases xs,
{
    xs.len() == 0 || {
        proof {
            assert(decreases_to!(xs => xs[0]));
            assert(decreases_to!(xs => xs.subrange(1, xs.len() as int)));
        }
        plain(xs[0]) && plain_seq(xs.subrange(1, xs.len() as int))
    }
}

/// [`plain`] over object members.
pub open spec fn plain_members(ms: Seq<(Seq<char>, JsonV)>) -> bool
    decreases ms,
{
    ms.len() == 0 || {
        proof {
            assert(decreases_to!(ms => ms[0]));
            assert(decreases_to!(ms => ms[0].1));
            assert(decreases_to!(ms => ms.subrange(1, ms.len() as int)));
        }
        str_plain(ms[0].0) && plain(ms[0].1) && plain_members(
            ms.subrange(1, ms.len() as int),
        )
    }
}

/// Every backslash in the text opens a whitespace escape: the next
/// character is `n`, `r` or `t`. In particular no backslash stands last,
/// and none stands before a quote.
pub open spec fn bs_ok(s: Seq<char>) -> bool {
    forall|k: int|
        0 <= k < s.len() && (#[trigger] s[k]) == '\\' ==> k + 1 < s.len() && (s[k + 1] == 'n' || s[
            k + 1
        ] == 'r' || s[k + 1] == 't')
}

proof fn lemma_bs_ok_add(a: Seq<char>, b: Seq<char>)
    requires
        bs_ok(a),
        bs_ok(b),
    ensures
        bs_ok(a + b),
{
    assert forall|k: int|
        0 <= k < (a + b).len() && (#[trigger] (a + b)[k]) == '\\' implies k + 1 < (a + b).len()
        && ((a + b)[k + 1] == 'n' || (a + b)[k + 1] == 'r' || (a + b)[k + 1] == 't') by {
        if k < a.len() {
            assert((a + b)[k] == a[k]);
            assert(k + 1 < a.len());
            assert((a + b)[k + 1] == a[k + 1]);
        } else {
            assert((a + b)[k] == b[k - a.len()]);
            assert((a + b)[k + 1] == b[k + 1 - a.len()]);
        }
    }
}

/// The escaped body of a plain string keeps every backslash inside a
/// whitespace escape.
proof fn lemma_esc_str_plain(s: Seq<char>)
    requires
        str_plain(s),
    ensures
        bs_ok(crate::ser::esc_str(s)),
    decreases s.len(),
{
    if s.len() > 0 {
        let tail = s.subrange(1, s.len() as int);
        lemma_esc_str_plain(tail);
        let ec = crate::ser::esc_char(s[0]);
        assert(bs_ok(ec));
        lemma_bs_ok_add(ec, crate::ser::esc_str(tail));
    }
}

/// The text of a plain value keeps every backslash inside a whitespace
/// escape.
proof fn lemma_ser_bs_ok(v: JsonV)
    requires
        plain(v),
    ensures
        bs_ok(ser(v)),
    decreases v,
{
    match v {
        JsonV::Null => {},
        JsonV::Bool(_) => {},
        JsonV::Num(n) => {
            let m = if n < 0 {
                -n
            } else {
                n
            };
            crate::roundtrip::lemma_dec_digits(m);
            let dd = crate::ser::dec_digits(m);
            assert forall|k: int| 0 <= k < dd.len() implies dd[k] != '\\' by {
                assert(crate::parse::is_digit(dd[k]));
            }
            if n < 0 {
                lemma_bs_ok_add(seq!['-'], dd);
            }
        },
        JsonV::Str(s) => {
            lemma_esc_str_plain(s);
            lemma_bs_ok_add(seq!['"'], crate::ser::esc_str(s));
            lemma_bs_ok_add(seq!['"'] + crate::ser::esc_str(s), seq!['"']);
        },
        JsonV::Arr(xs) => {
            assert(decreases_to!(v => v->Arr_0));
            lemma_ser_items_bs_ok(xs);
            lemma_bs_ok_add(seq!['['], crate::ser::ser_items(xs));
            lemma_bs_ok_add(seq!['['] + crate::ser::ser_items(xs), seq![']']);
        },
        JsonV::Obj(ms) => {
            assert(decreases_to!(v => v->Obj_0));
            lemma_ser_members_bs_ok(ms);
            lemma_bs_ok_add(seq!['{'], crate::ser::ser_members(ms));
            lemma_bs_ok_add(seq!['{'] + crate::ser::ser_members(ms), seq!['}']);
        },
    }
}

proof fn lemma_ser_items_bs_ok(xs: Seq<JsonV>)
    requires
        plain_seq(xs),
    ensures
        bs_ok(crate::ser::ser_items(xs)),
    decreases xs,
{
    if xs.len() > 0 {
        assert(decreases_to!(xs => xs[0]));
        assert(decreases_to!(xs => xs.subrange(1, xs.len() as int)));
        lemma_ser_bs_ok(xs[0]);
        if xs.len() > 1 {
            lemma_ser_items_bs_ok(xs.subrange(1, xs.len() as int));
            lemma_bs_ok_add(ser(xs[0]), seq![',']);
            lemma_bs_ok_add(
                ser(xs[0]) + seq![','],
                crate::ser::ser_items(xs.subrange(1, xs.len() as int)),
            );
        }
    }
}

proof fn lemma_ser_members_bs_ok(ms: Seq<(Seq<char>, JsonV)>)
    requires
        plain_members(ms),
    ensures
        bs_ok(crate::ser::ser_members(ms)),
    decreases ms,
{
    if ms.len() > 0 {
        assert(decreases_to!(ms => ms[0]));
        assert(decreases_to!(ms => ms[0].1));
        assert(decreases_to!(ms => ms.subrange(1, ms.len() as int)));
        lemma_esc_str_plain(ms[0].0);
        lemma_bs_ok_add(seq!['"'], crate::ser::esc_str(ms[0].0));
        lemma_bs_ok_add(seq!['"'] + crate::ser::esc_str(ms[0].0), seq!['"']);
        lemma_ser_bs_ok(ms[0].1);
        let head = crate::ser::ser_string(ms[0].0) + seq![':'] + ser(ms[0].1);
        lemma_bs_ok_add(crate::ser::ser_string(ms[0].0), seq![':']);
        lemma_bs_ok_add(crate::ser::ser_string(ms[0].0) + seq![':'], ser(ms[0].1));
        if ms.len() > 1 {
            lemma_ser_members_bs_ok(ms.subrange(1, ms.len() as int));
            lemma_bs_ok_add(head, seq![',']);
            lemma_bs_ok_add(
                head + seq![','],
                crate::ser::ser_members(ms.subrange(1, ms.len() as int)),
            );
        }
    }
}

/// Quote normalization leaves a text alone when its backslashes all open
/// whitespace escapes.
proof fn lemma_unquote_bs_ok(s: Seq<char>)
    requires
        bs_ok(s),
    ensures
        unquote(s) == s,
    decreases s.len(),
{
    if s.len() > 0 {
        let tail = s.subrange(1, s.len() as int);
        assert forall|k: int|
            0 <= k < tail.len() && (#[trigger] tail[k]) == '\\' implies k + 1 < tail.len() && (
            tail[k + 1] == 'n' || tail[k + 1] == 'r' || tail[k + 1] == 't') by {
            assert(tail[k] == s[k + 1]);
            assert(tail[k + 1] == s[k + 2]);
        }
        lemma_unquote_bs_ok(tail);
        if s[0] == '\\' {
            assert(s[1] != '"');
        }
        assert(seq![s[0]] + tail =~= s);
    }
}

/// The codec law: unescaping what escaping embedded gives the value back,
/// for any non-string value whose strings hold no quote and no backslash.
pub proof fn lemma_unescape_of_escape(v: JsonV)
    requires
        crate::roundtrip::num_ok(v),
        !(v is Str),
        plain(v),
    ensures
        unesc_field(esc_field(v)) == v,
{
    lemma_ser_bs_ok(v);
    lemma_unquote_bs_ok(ser(v));
    crate::roundtrip::lemma_parse_of_ser(v);
}

/// The value rewritten at one path: the target escaped or unescaped in
/// place; the value unchanged where the path does not resolve.
pub open spec fn rewritten_at(v: JsonV, path: Seq<Seq<char>>, escape: bool) -> JsonV {
    match jv_get(v, path) {
        Some(t) => jv_set(
            v,
            path,
            if escape {
                esc_field(t)
            } else {
                unesc_field(t)
            },
        ),
        None => v,
    }
}

/// Rewrites the value at the path `segs[from..]`, escaping or unescaping
/// the target there; a path that does not resolve leaves the value as it
/// is.
pub fn rewrite_at(v: &Json, segs: &Vec<String>, from: usize, escape: bool) -> (r: Json)
    requires
        from <= segs@.len(),
    ensures
        r@ == rewritten_at(
            v@,
            segs_view(segs@).subrange(from as int, segs@.len() as int),
            escape,
        ),
    decreases *v,
{
    let ghost path = segs_view(segs@).subrange(from as int, segs@.len() as int);
    if from == segs.len() {
        proof {
            assert(path.len() == 0);
        }
        if escape {
            escape_value(v.deep_clone())
        } else {
            unescape_value(v.deep_clone())
        }
    } else {
        proof {
            assert(path[0] == segs@[from as int]@);
            assert(path.subrange(1, path.len() as int) =~= segs_view(segs@).subrange(
                from + 1 as int,
                segs@.len() as int,
            ));
        }
        match v {
            Json::Obj(ms) => {
                let key = &segs[from];
                let n = ms.len();
                let mut i: usize = 0;
                while i < n && !(ms[i].0 == *key)
                    invariant
                        i <= n,
                        n == ms@.len(),
                        *key == segs@[from as int],
                        forall|k: int| 0 <= k < i ==> ms@[k].0@ != key@,
                    decreases n - i,
                {
                    i = i + 1;
                }
                proof {
                    lemma_jv_of_members(ms@);
                }
                let ghost w = jv_of_members(ms@);
                if i == n {
                    proof {
                        lemma_obj_none(w, key@, JsonV::Null);
                    }
                    v.deep_clone()
                } else {
                    proof {
                        assert(w[i as int] == (ms@[i as int].0@, jv_of(ms@[i as int].1)));
                        lemma_obj_at(w, key@, i as int, JsonV::Null);
                        assert(decreases_to!(*v => v->Obj_0));
                        assert(v->Obj_0 == *ms);
                        assert(decreases_to!(*ms => ms[i as int]));
                        assert(decreases_to!(ms[i as int] => ms[i as int].1));
                    }
                    let child_new = rewrite_at(&ms[i].1, segs, from + 1, escape);
                    let ghost cnv = child_new@;
                    let name = ms[i].0.clone();
                    let mut out = crate::json::clone_members(ms);
                    let ghost pre = out@;
                    let _ = out.remove(i);
                    out.insert(i, (name, child_new));
                    proof {
                        assert(out@.len() == ms@.len());
                        assert(out@[i as int].0@ == key@ && out@[i as int].1 == child_new);
                        assert(forall|k: int|
                            0 <= k < out@.len() && k != i ==> out@[k] == pre[k]);
                        lemma_jv_of_members(out@);
                        let child_v = jv_of(ms@[i as int].1);
                        lemma_obj_at(w, key@, i as int, cnv);
                        assert(jv_of_members(out@) =~= obj_set(w, key@, cnv));
                        if jv_get(child_v, path.subrange(1, path.len() as int)) is None {
                            assert(cnv == child_v);
                            assert(obj_set(w, key@, cnv) =~= w);
                            assert(jv_get(v@, path) is None);
                        }
                    }
                    Json::Obj(out)
                }
            },
            _ => v.deep_clone(),
        }
    }
}

impl From<String> for JsonField {
    /// A bare string makes the string variant.
    fn from(s: String) -> (r: JsonField) {
        JsonField::String(s)
    }
}

impl vstd::std_specs::convert::FromSpecImpl<String> for JsonField {
    open spec fn obeys_from_spec() -> bool {
        true
    }

    open spec fn from_spec(s: String) -> JsonField {
        JsonField::String(s)
    }
}

impl From<Json> for JsonField {
    /// A string value makes the string variant; anything else is carried
    /// whole.
    fn from(j: Json) -> (r: JsonField) {
        match j {
            Json::Str(s) => JsonField::String(s),
            _ => JsonField::Value(j),
        }
    }
}

impl vstd::std_specs::convert::FromSpecImpl<Json> for JsonField {
    open spec fn obeys_from_spec() -> bool {
        true
    }

    open spec fn from_spec(j: Json) -> JsonField {
        match j {
            Json::Str(s) => JsonField::String(s),
            _ => JsonField::Value(j),
        }
    }
}

} // verus!
