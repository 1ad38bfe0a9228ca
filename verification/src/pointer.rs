//! Dotted field paths and the pointer syntax used to address nested values.
//!
//! A dotted path `a.b.c` becomes the pointer `/a/b/c`; each segment names an
//! object member. A segment holding a literal `/` is not supported, as the
//! pointer form cannot tell it from a separator.
use crate::json::{jv_of, jv_of_members, Json, JsonV};
use crate::strutil::{chars_of, push_char};
use vstd::prelude::*;
use vstd::string::StrSliceExecFns;

verus! {

/// The pointer text of a dotted path: a leading slash, and every dot made a
/// slash.
pub open spec fn pointer_of(s: Seq<char>) -> Seq<char> {
    seq!['/'] + s.map(|i: int, c: char| if c == '.' { '/' } else { c })
}

/// Converts a dotted field path to pointer syntax.
pub fn dots_to_slashes(path: &str) -> (r: String)
    ensures
        r@ == pointer_of(path@),
{
    let mut out = String::new();
    push_char(&mut out, '/');
    let n = path.unicode_len();
    let mut i: usize = 0;
    while i < n
        invariant
            n == path@.len(),
            i <= n,
            out@ == pointer_of(path@.subrange(0, i as int)),
        decreases n - i,
    {
        let c = path.get_char(i);
        if c == '.' {
            push_char(&mut out, '/');
        } else {
            push_char(&mut out, c);
        }
        proof {
            assert(out@ =~= pointer_of(path@.subrange(0, i + 1 as int)));
        }
        i = i + 1;
    }
    proof {
        assert(path@.subrange(0, n as int) =~= path@);
    }
    out
}

/// The segments of a pointer: the parts between the slashes of `p` after a
/// leading slash. An empty or slash-free text has no segments.
pub open spec fn segs_of(p: Seq<char>) -> Seq<Seq<char>>
    decreases p.len(),
{
    if p.len() == 0 || p[0] != '/' {
        Seq::empty()
    } else {
        let body = p.subrange(1, p.len() as int);
        let cut = seg_end(body, 0);
        proof {
            lemma_seg_end(body, 0);
        }
        if 0 <= cut <= body.len() {
            seq![body.subrange(0, cut)] + segs_of(body.subrange(cut, body.len() as int))
        } else {
            Seq::empty()
        }
    }
}

/// The first place at or after `i` holding a slash, or the end.
pub open spec fn seg_end(s: Seq<char>, i: int) -> int
    decreases s.len() - i,
    when 0 <= i <= s.len()
{
    if i < s.len() && s[i] != '/' {
        seg_end(s, i + 1)
    } else {
        i
    }
}

pub proof fn lemma_seg_end(s: Seq<char>, i: int)
    requires
        0 <= i <= s.len(),
    ensures
        i <= seg_end(s, i) <= s.len(),
        seg_end(s, i) < s.len() ==> s[seg_end(s, i)] == '/',
        forall|k: int| i <= k < seg_end(s, i) ==> s[k] != '/',
    decreases s.len() - i,
{
    if i < s.len() && s[i] != '/' {
        lemma_seg_end(s, i + 1);
    }
}

/// The value of the first member of `ms` named `key`, if any.
pub open spec fn obj_get(ms: Seq<(Seq<char>, JsonV)>, key: Seq<char>) -> Option<JsonV>
    decreases ms.len(),
{
    if ms.len() == 0 {
        None
    } else if ms[0].0 == key {
        Some(ms[0].1)
    } else {
        obj_get(ms.subrange(1, ms.len() as int), key)
    }
}

/// The members of `ms` with the value of the first member named `key`
/// replaced by `nv`; `ms` unchanged when no member is named `key`.
pub open spec fn obj_set(ms: Seq<(Seq<char>, JsonV)>, key: Seq<char>, nv: JsonV) -> Seq<
    (Seq<char>, JsonV),
>
    decreases ms.len(),
{
    if ms.len() == 0 {
        ms
    } else if ms[0].0 == key {
        seq![(ms[0].0, nv)] + ms.subrange(1, ms.len() as int)
    } else {
        seq![ms[0]] + obj_set(ms.subrange(1, ms.len() as int), key, nv)
    }
}

/// The value the segments lead to, if the path resolves.
pub open spec fn jv_get(v: JsonV, segs: Seq<Seq<char>>) -> Option<JsonV>
    decreases segs.len(),
{
    if segs.len() == 0 {
        Some(v)
    } else {
        match v {
            JsonV::Obj(ms) => match obj_get(ms, segs[0]) {
                Some(child) => jv_get(child, segs.subrange(1, segs.len() as int)),
                None => None,
            },
            _ => None,
        }
    }
}

/// The value with `nv` put where the segments lead; unchanged when the path
/// does not resolve.
pub open spec fn jv_set(v: JsonV, segs: Seq<Seq<char>>, nv: JsonV) -> JsonV
    decreases segs.len(),
{
    if segs.len() == 0 {
        nv
    } else {
        match v {
            JsonV::Obj(ms) => match obj_get(ms, segs[0]) {
                Some(child) => JsonV::Obj(
                    obj_set(ms, segs[0], jv_set(child, segs.subrange(1, segs.len() as int), nv)),
                ),
                None => v,
            },
            _ => v,
        }
    }
}

/// What [`obj_get`] and [`obj_set`] do when the first member named `key`
/// stands at place `i`.
pub proof fn lemma_obj_at(w: Seq<(Seq<char>, JsonV)>, key: Seq<char>, i: int, nv: JsonV)
    requires
        0 <= i < w.len(),
        forall|k: int| 0 <= k < i ==> w[k].0 != key,
        w[i].0 == key,
    ensures
        obj_get(w, key) == Some(w[i].1),
        obj_set(w, key, nv) == w.update(i, (w[i].0, nv)),
    decreases i,
{
    if i == 0 {
        assert(seq![(w[0].0, nv)] + w.subrange(1, w.len() as int) =~= w.update(0, (w[0].0, nv)));
    } else {
        let tail = w.subrange(1, w.len() as int);
        assert(tail[i - 1].0 == key);
        lemma_obj_at(tail, key, i - 1, nv);
        assert(seq![w[0]] + tail.update(i - 1, (tail[i - 1].0, nv)) =~= w.update(
            i,
            (w[i].0, nv),
        ));
    }
}

/// What [`obj_get`] and [`obj_set`] do when no member is named `key`.
pub proof fn lemma_obj_none(w: Seq<(Seq<char>, JsonV)>, key: Seq<char>, nv: JsonV)
    requires
        forall|k: int| 0 <= k < w.len() ==> w[k].0 != key,
    ensures
        obj_get(w, key) is None,
        obj_set(w, key, nv) == w,
    decreases w.len(),
{
    if w.len() > 0 {
        let tail = w.subrange(1, w.len() as int);
        lemma_obj_none(tail, key, nv);
        assert(seq![w[0]] + tail =~= w);
    }
}

/// The views of a vector of segment strings.
pub open spec fn segs_view(segs: Seq<String>) -> Seq<Seq<char>> {
    segs.map(|i: int, s: String| s@)
}

/// The string value at the path `segs[from..]`, if that path resolves to a
/// string.
pub fn str_at(v: &Json, segs: &Vec<String>, from: usize) -> (r: Option<String>)
    requires
        from <= segs@.len(),
    ensures
        ({
            let g = jv_get(v@, segs_view(segs@).subrange(from as int, segs@.len() as int));
            match r {
                Some(s) => g == Some(JsonV::Str(s@)),
                None => g is None || !(g->Some_0 is Str),
            }
        }),
    decreases *v,
{
    let ghost path = segs_view(segs@).subrange(from as int, segs@.len() as int);
    if from == segs.len() {
        proof {
            assert(path.len() == 0);
        }
        match v {
            Json::Str(s) => Some(s.clone()),
            _ => None,
        }
    } else {
        proof {
            assert(path[0] == segs@[from as int]@);
        }
        match v {
            Json::Obj(ms) => {
                proof {
                    assert(decreases_to!(*v => v->Obj_0));
                    assert(v->Obj_0 == *ms);
                }
                let key = &segs[from];
                let mut i: usize = 0;
                proof {
                    crate::json::lemma_jv_of_members(ms@);
                    assert(jv_of_members(ms@).subrange(0, ms@.len() as int) =~= jv_of_members(
                        ms@,
                    ));
                }
                while i < ms.len()
                    invariant
                        i <= ms@.len(),
                        *v == Json::Obj(*ms),
                        from < segs@.len() <= usize::MAX,
                        path == segs_view(segs@).subrange(from as int, segs@.len() as int),
                        *key == segs@[from as int],
                        obj_get(jv_of_members(ms@), key@) == obj_get(
                            jv_of_members(ms@).subrange(i as int, ms@.len() as int),
                            key@,
                        ),
                    decreases ms@.len() - i,
                {
                    proof {
                        crate::json::lemma_jv_of_members(ms@);
                    }
                    if ms[i].0 == *key {
                        proof {
                            let w = jv_of_members(ms@).subrange(i as int, ms@.len() as int);
                            assert(w[0] == (ms@[i as int].0@, jv_of(ms@[i as int].1)));
                            assert(obj_get(jv_of_members(ms@), key@) == Some(
                                jv_of(ms@[i as int].1),
                            ));
                            assert(decreases_to!(*v => v->Obj_0));
                            assert(v->Obj_0 == *ms);
                            assert(decreases_to!(*ms => ms[i as int]));
                            assert(decreases_to!(ms[i as int] => ms[i as int].1));
                            assert(path.subrange(1, path.len() as int) =~= segs_view(
                                segs@,
                            ).subrange(from + 1 as int, segs@.len() as int));
                        }
                        return str_at(&ms[i].1, segs, from + 1);
                    }
                    proof {
                        let w = jv_of_members(ms@).subrange(i as int, ms@.len() as int);
                        assert(w[0] == (ms@[i as int].0@, jv_of(ms@[i as int].1)));
                        assert(w[0].0 != key@);
                        assert(w.subrange(1, w.len() as int) =~= jv_of_members(ms@).subrange(
                            i + 1 as int,
                            ms@.len() as int,
                        ));
                    }
                    i = i + 1;
                }
                proof {
                    crate::json::lemma_jv_of_members(ms@);
                    assert(jv_of_members(ms@).subrange(ms@.len() as int, ms@.len() as int)
                        =~= Seq::<(Seq<char>, JsonV)>::empty());
                }
                None
            },
            _ => None,
        }
    }
}

/// Where a slash-free run followed by a slash (or the end) stops.
proof fn lemma_seg_end_of(s: Seq<char>, lo: int, hi: int)
    requires
        0 <= lo <= hi <= s.len(),
        forall|k: int| lo <= k < hi ==> s[k] != '/',
        hi == s.len() || s[hi] == '/',
    ensures
        seg_end(s, lo) == hi,
    decreases hi - lo,
{
    if lo < hi {
        lemma_seg_end_of(s, lo + 1, hi);
    }
}

/// Peeling the first segment off a pointer.
proof fn lemma_segs_split(cur: Seq<char>, rest: Seq<char>)
    requires
        forall|k: int| 0 <= k < cur.len() ==> cur[k] != '/',
    ensures
        segs_of(seq!['/'] + cur + seq!['/'] + rest) == seq![cur] + segs_of(seq!['/'] + rest),
        segs_of(seq!['/'] + cur) == seq![cur],
{
    let p1 = seq!['/'] + cur + seq!['/'] + rest;
    let body1 = p1.subrange(1, p1.len() as int);
    assert(body1 =~= cur + seq!['/'] + rest);
    assert forall|k: int| 0 <= k < cur.len() implies body1[k] != '/' by {
        assert(body1[k] == cur[k]);
    }
    assert(body1[cur.len() as int] == '/');
    lemma_seg_end_of(body1, 0, cur.len() as int);
    assert(body1.subrange(0, cur.len() as int) =~= cur);
    assert(body1.subrange(cur.len() as int, body1.len() as int) =~= seq!['/'] + rest);

    let p2 = seq!['/'] + cur;
    let body2 = p2.subrange(1, p2.len() as int);
    assert(body2 =~= cur);
    lemma_seg_end_of(body2, 0, cur.len() as int);
    assert(body2.subrange(0, cur.len() as int) =~= cur);
    assert(body2.subrange(cur.len() as int, body2.len() as int) =~= Seq::<char>::empty());
    assert(segs_of(Seq::<char>::empty()) == Seq::<Seq<char>>::empty());
    assert(segs_of(p2) =~= seq![cur]);
}

/// Splits a pointer into its segments.
pub fn pointer_segments(ptr: &str) -> (r: Vec<String>)
    ensures
        r@.map(|i: int, s: String| s@) == segs_of(ptr@),
{
    let chars = chars_of(ptr);
    let mut out: Vec<String> = Vec::new();
    let n = chars.len();
    if n == 0 || chars[0] != '/' {
        proof {
            assert(out@.map(|i: int, s: String| s@) =~= segs_of(ptr@));
        }
        return out;
    }
    let mut i: usize = 1;
    let mut cur = String::new();
    proof {
        assert(seq!['/'] + cur@ + ptr@.subrange(1, n as int) =~= ptr@);
        assert(out@.map(|q: int, s: String| s@) =~= Seq::<Seq<char>>::empty());
        assert(Seq::<Seq<char>>::empty() + segs_of(ptr@) =~= segs_of(ptr@));
    }
    // `i` walks the text; `cur` holds the growing current segment.
    while i < n
        invariant
            1 <= i <= n,
            n == ptr@.len(),
            chars@ == ptr@,
            forall|k: int| 0 <= k < cur@.len() ==> cur@[k] != '/',
            segs_of(ptr@) == out@.map(|q: int, s: String| s@) + segs_of(
                seq!['/'] + cur@ + ptr@.subrange(i as int, n as int),
            ),
        decreases n - i,
    {
        let c = chars[i];
        let ghost pre_out = out@.map(|q: int, s: String| s@);
        let ghost pre_cur = cur@;
        if c == '/' {
            let done = cur;
            cur = String::new();
            out.push(done);
            proof {
                let rest = ptr@.subrange(i + 1 as int, n as int);
                lemma_segs_split(pre_cur, rest);
                assert(seq!['/'] + pre_cur + ptr@.subrange(i as int, n as int) =~= seq!['/']
                    + pre_cur + seq!['/'] + rest);
                assert(out@.map(|q: int, s: String| s@) =~= pre_out + seq![pre_cur]);
                assert(seq!['/'] + cur@ + rest =~= seq!['/'] + rest);
                assert(pre_out + (seq![pre_cur] + segs_of(seq!['/'] + rest)) =~= (pre_out + seq![
                    pre_cur,
                ]) + segs_of(seq!['/'] + rest));
            }
        } else {
            push_char(&mut cur, c);
            proof {
                assert(seq!['/'] + cur@ + ptr@.subrange(i + 1 as int, n as int) =~= seq!['/']
                    + pre_cur + ptr@.subrange(i as int, n as int));
            }
        }
        i = i + 1;
    }
    let ghost pre_out = out@.map(|q: int, s: String| s@);
    let ghost last = cur@;
    out.push(cur);
    proof {
        lemma_segs_split(last, Seq::empty());
        assert(seq!['/'] + last + ptr@.subrange(n as int, n as int) =~= seq!['/'] + last);
        assert(out@.map(|q: int, s: String| s@) =~= pre_out + seq![last]);
    }
    out
}

} // verus!
