//! Merging named entries into one object, and splitting an object into
//! named entries, each under an optional regular-expression name filter.
use crate::filter::{filter_view, name_passes, passes};
use crate::json::{jv_of, jv_of_members, lemma_jv_of_members, Json, JsonV};
use crate::pointer::{lemma_obj_at, lemma_obj_none, obj_get, obj_set};
use vstd::prelude::*;

verus! {

/// The entries whose names pass the filter, in order.
pub open spec fn kept_entries(es: Seq<(Seq<char>, JsonV)>, f: Option<Seq<char>>) -> Seq<
    (Seq<char>, JsonV),
>
    decreases es.len(),
{
    if es.len() == 0 {
        Seq::empty()
    } else {
        let front = kept_entries(es.subrange(0, es.len() - 1), f);
        if name_passes(f, es.last().0) {
            front.push(es.last())
        } else {
            front
        }
    }
}

/// Whether some member bears the key.
pub open spec fn obj_has(ms: Seq<(Seq<char>, JsonV)>, key: Seq<char>) -> bool {
    obj_get(ms, key) is Some
}

/// The members with `(key, v)` taken in: the first member already named
/// `key` gets the value `v` in place, or the pair goes at the end.
pub open spec fn upsert(ms: Seq<(Seq<char>, JsonV)>, key: Seq<char>, v: JsonV) -> Seq<
    (Seq<char>, JsonV),
> {
    if obj_has(ms, key) {
        obj_set(ms, key, v)
    } else {
        ms.push((key, v))
    }
}

/// The entries folded into members, first to last, later values replacing
/// earlier ones under the same name.
pub open spec fn merged_from(acc: Seq<(Seq<char>, JsonV)>, es: Seq<(Seq<char>, JsonV)>) -> Seq<
    (Seq<char>, JsonV),
>
    decreases es.len(),
{
    if es.len() == 0 {
        acc
    } else {
        merged_from(upsert(acc, es[0].0, es[0].1), es.subrange(1, es.len() as int))
    }
}

/// The members of the object that merging the entries under the filter
/// builds.
pub open spec fn merged_members(es: Seq<(Seq<char>, JsonV)>, f: Option<Seq<char>>) -> Seq<
    (Seq<char>, JsonV),
> {
    merged_from(Seq::empty(), kept_entries(es, f))
}

/// Folding one more entry at the end.
proof fn lemma_merged_snoc(acc: Seq<(Seq<char>, JsonV)>, s: Seq<(Seq<char>, JsonV)>, e: (
    Seq<char>,
    JsonV,
))
    ensures
        merged_from(acc, s.push(e)) == upsert(merged_from(acc, s), e.0, e.1),
    decreases s.len(),
{
    let t = s.push(e);
    assert(t.len() == s.len() + 1);
    if s.len() == 0 {
        assert(t.subrange(1, t.len() as int) =~= Seq::<(Seq<char>, JsonV)>::empty());
        assert(t[0] == e);
        assert(merged_from(acc, t) == merged_from(upsert(acc, t[0].0, t[0].1), t.subrange(1, t.len() as int)));
        assert(merged_from(acc, t) == upsert(acc, e.0, e.1));
        assert(merged_from(acc, s) == acc);
    } else {
        assert(t[0] == s[0]);
        assert(t.subrange(1, t.len() as int) =~= s.subrange(1, s.len() as int).push(e));
        lemma_merged_snoc(upsert(acc, s[0].0, s[0].1), s.subrange(1, s.len() as int), e);
        assert(merged_from(acc, t) == merged_from(upsert(acc, t[0].0, t[0].1), t.subrange(1, t.len() as int)));
        assert(merged_from(acc, s) == merged_from(upsert(acc, s[0].0, s[0].1), s.subrange(1, s.len() as int)));
    }
}

/// Merges entries into a single object, keeping only the names the
/// optional pattern matches. An absent or unusable pattern keeps every
/// entry; a later entry under an already-seen name replaces that name's
/// value in place.
pub fn merge(entries: Vec<(String, Json)>, filter: Option<String>) -> (r: Json)
    ensures
        r@ == JsonV::Obj(merged_members(jv_of_members(entries@), filter_view(filter))),
{
    let ghost es = jv_of_members(entries@);
    let ghost fv = filter_view(filter);
    let mut out: Vec<(String, Json)> = Vec::new();
    let mut i: usize = 0;
    let n = entries.len();
    proof {
        lemma_jv_of_members(entries@);
        assert(es.subrange(0, 0) =~= Seq::<(Seq<char>, JsonV)>::empty());
    }
    while i < n
        invariant
            i <= n,
            n == entries@.len(),
            es == jv_of_members(entries@),
            fv == filter_view(filter),
            es.len() == n,
            forall|k: int| 0 <= k < n ==> es[k] == (entries@[k].0@, jv_of(entries@[k].1)),
            jv_of_members(out@) == merged_from(
                Seq::empty(),
                kept_entries(es.subrange(0, i as int), fv),
            ),
        decreases n - i,
    {
        let ghost pre_kept = kept_entries(es.subrange(0, i as int), fv);
        let name_ok = passes(&filter, entries[i].0.as_str());
        proof {
            let cut = es.subrange(0, i + 1 as int);
            assert(cut.subrange(0, cut.len() - 1) =~= es.subrange(0, i as int));
            assert(cut.last() == es[i as int]);
        }
        if name_ok {
            let name = entries[i].0.clone();
            let val = entries[i].1.deep_clone();
            upsert_exec(&mut out, name, val);
            proof {
                lemma_merged_snoc(Seq::empty(), pre_kept, es[i as int]);
            }
        }
        i = i + 1;
    }
    proof {
        assert(es.subrange(0, n as int) =~= es);
    }
    Json::Obj(out)
}

/// Puts one pair into the members, replacing the value of the first member
/// under the same name, or pushing the pair at the end.
fn upsert_exec(out: &mut Vec<(String, Json)>, name: String, val: Json)
    ensures
        jv_of_members(final(out)@) == upsert(jv_of_members(old(out)@), name@, val@),
{
    let ghost w = jv_of_members(old(out)@);
    proof {
        lemma_jv_of_members(old(out)@);
    }
    let n = out.len();
    let mut i: usize = 0;
    while i < n && !(out[i].0 == name)
        invariant
            i <= n,
            n == out@.len(),
            out@ == old(out)@,
            forall|k: int| 0 <= k < i ==> out@[k].0@ != name@,
        decreases n - i,
    {
        i = i + 1;
    }
    if i == n {
        proof {
            lemma_jv_of_members(old(out)@);
            lemma_obj_none(w, name@, val@);
        }
        let ghost pre = out@;
        out.push((name, val));
        proof {
            lemma_jv_of_members(out@);
            assert(jv_of_members(out@) =~= w.push((name@, val@)));
        }
    } else {
        proof {
            lemma_jv_of_members(old(out)@);
            assert(w[i as int] == (old(out)@[i as int].0@, jv_of(old(out)@[i as int].1)));
            lemma_obj_at(w, name@, i as int, val@);
        }
        let ghost pre = out@;
        let kept_name = out.remove(i).0;
        out.insert(i, (kept_name, val));
        proof {
            assert(out@.len() == pre.len());
            assert(out@[i as int].0@ == name@ && out@[i as int].1 == val);
            assert(forall|k: int| 0 <= k < out@.len() && k != i ==> out@[k] == pre[k]);
            lemma_jv_of_members(out@);
            assert(jv_of_members(out@) =~= obj_set(w, name@, val@));
        }
    }
}

/// A key is borne by some member exactly when some place holds it.
pub proof fn lemma_obj_has_exists(ms: Seq<(Seq<char>, JsonV)>, k: Seq<char>)
    ensures
        obj_has(ms, k) <==> exists|i: int| 0 <= i < ms.len() && ms[i].0 == k,
    decreases ms.len(),
{
    if ms.len() > 0 {
        let tail = ms.subrange(1, ms.len() as int);
        lemma_obj_has_exists(tail, k);
        if ms[0].0 != k {
            if obj_has(ms, k) {
                let i = choose|i: int| 0 <= i < tail.len() && tail[i].0 == k;
                assert(ms[i + 1].0 == k);
            }
            if exists|i: int| 0 <= i < ms.len() && ms[i].0 == k {
                let i = choose|i: int| 0 <= i < ms.len() && ms[i].0 == k;
                assert(tail[i - 1].0 == k);
            }
        }
    }
}

/// Replacing a value under a key leaves every name in place.
proof fn lemma_obj_set_names(ms: Seq<(Seq<char>, JsonV)>, key: Seq<char>, nv: JsonV)
    ensures
        obj_set(ms, key, nv).len() == ms.len(),
        forall|i: int| 0 <= i < ms.len() ==> obj_set(ms, key, nv)[i].0 == ms[i].0,
    decreases ms.len(),
{
    if ms.len() > 0 && ms[0].0 != key {
        let tail = ms.subrange(1, ms.len() as int);
        lemma_obj_set_names(tail, key, nv);
        let t = obj_set(ms, key, nv);
        assert forall|i: int| 0 <= i < ms.len() implies t[i].0 == ms[i].0 by {
            if i > 0 {
                assert(t[i] == obj_set(tail, key, nv)[i - 1]);
                assert(tail[i - 1] == ms[i]);
            }
        }
    }
}

/// Which keys the members bear after one entry is taken in.
proof fn lemma_upsert_has(ms: Seq<(Seq<char>, JsonV)>, key: Seq<char>, v: JsonV, k: Seq<char>)
    ensures
        obj_has(upsert(ms, key, v), k) <==> obj_has(ms, k) || k == key,
{
    lemma_obj_has_exists(ms, k);
    lemma_obj_has_exists(upsert(ms, key, v), k);
    if obj_has(ms, key) {
        lemma_obj_set_names(ms, key, v);
        lemma_obj_has_exists(ms, key);
        let t = obj_set(ms, key, v);
        if obj_has(t, k) {
            let i = choose|i: int| 0 <= i < t.len() && t[i].0 == k;
            assert(ms[i].0 == k);
        }
        if obj_has(ms, k) {
            let i = choose|i: int| 0 <= i < ms.len() && ms[i].0 == k;
            assert(t[i].0 == k);
        }
        if k == key {
            let i = choose|i: int| 0 <= i < ms.len() && ms[i].0 == key;
            assert(t[i].0 == k);
        }
    } else {
        let t = ms.push((key, v));
        if obj_has(ms, k) {
            let i = choose|i: int| 0 <= i < ms.len() && ms[i].0 == k;
            assert(t[i].0 == k);
        }
        if k == key {
            assert(t[ms.len() as int].0 == k);
        }
        if obj_has(t, k) && k != key {
            let i = choose|i: int| 0 <= i < t.len() && t[i].0 == k;
            assert(ms[i].0 == k);
        }
    }
}

/// Which keys merging bears: those of the start and those of the entries.
proof fn lemma_merged_has(acc: Seq<(Seq<char>, JsonV)>, s: Seq<(Seq<char>, JsonV)>, k: Seq<char>)
    ensures
        obj_has(merged_from(acc, s), k) <==> obj_has(acc, k) || exists|i: int|
            0 <= i < s.len() && s[i].0 == k,
    decreases s.len(),
{
    if s.len() > 0 {
        let tail = s.subrange(1, s.len() as int);
        lemma_merged_has(upsert(acc, s[0].0, s[0].1), tail, k);
        lemma_upsert_has(acc, s[0].0, s[0].1, k);
        if k == s[0].0 {
            assert(s[0].0 == k);
        }
        if exists|i: int| 0 <= i < tail.len() && tail[i].0 == k {
            let i = choose|i: int| 0 <= i < tail.len() && tail[i].0 == k;
            assert(s[i + 1].0 == k);
        }
        if (exists|i: int| 0 <= i < s.len() && s[i].0 == k) && k != s[0].0 {
            let i = choose|i: int| 0 <= i < s.len() && s[i].0 == k;
            assert(tail[i - 1].0 == k);
        }
    }
}

/// Which names the filtered entries bear.
proof fn lemma_kept_has(es: Seq<(Seq<char>, JsonV)>, f: Option<Seq<char>>, k: Seq<char>)
    ensures
        (exists|i: int| 0 <= i < kept_entries(es, f).len() && kept_entries(es, f)[i].0 == k) <==> ((
        exists|i: int| 0 <= i < es.len() && es[i].0 == k) && name_passes(f, k)),
    decreases es.len(),
{
    if es.len() > 0 {
        let front = es.subrange(0, es.len() - 1);
        lemma_kept_has(front, f, k);
        let kf = kept_entries(front, f);
        let ke = kept_entries(es, f);
        if name_passes(f, es.last().0) {
            assert(ke == kf.push(es.last()));
        }
        if exists|i: int| 0 <= i < ke.len() && ke[i].0 == k {
            let i = choose|i: int| 0 <= i < ke.len() && ke[i].0 == k;
            if i < kf.len() {
                assert(kf[i].0 == k);
                let j = choose|j: int| 0 <= j < front.len() && front[j].0 == k;
                assert(es[j].0 == k);
            } else {
                assert(es[es.len() - 1].0 == k);
            }
        }
        if (exists|i: int| 0 <= i < es.len() && es[i].0 == k) && name_passes(f, k) {
            let i = choose|i: int| 0 <= i < es.len() && es[i].0 == k;
            if i < es.len() - 1 {
                assert(front[i].0 == k);
                let j = choose|j: int| 0 <= j < kf.len() && kf[j].0 == k;
                if name_passes(f, es.last().0) {
                    assert(ke[j].0 == k);
                }
            } else {
                assert(es.last().0 == k);
                assert(ke.last().0 == k);
            }
        }
    }
}

/// The filter law: the merged object bears exactly the names that occur
/// among the entries and pass the filter, and no others.
pub proof fn lemma_merge_contains_exactly(
    es: Seq<(Seq<char>, JsonV)>,
    f: Option<Seq<char>>,
    k: Seq<char>,
)
    ensures
        obj_has(merged_members(es, f), k) <==> ((exists|i: int|
            0 <= i < es.len() && #[trigger] es[i].0 == k) && name_passes(f, k)),
{
    lemma_merged_has(Seq::empty(), kept_entries(es, f), k);
    lemma_kept_has(es, f, k);
}

/// No two members bear the same name.
pub open spec fn keys_unique(ms: Seq<(Seq<char>, JsonV)>) -> bool {
    forall|i: int, j: int| 0 <= i < j < ms.len() ==> ms[i].0 != ms[j].0
}

/// An absent filter keeps every entry.
pub proof fn lemma_kept_none(es: Seq<(Seq<char>, JsonV)>)
    ensures
        kept_entries(es, None) == es,
    decreases es.len(),
{
    if es.len() > 0 {
        let front = es.subrange(0, es.len() - 1);
        lemma_kept_none(front);
        assert(front.push(es.last()) =~= es);
    }
}

/// Merging entries with fresh, distinct names appends them in order.
proof fn lemma_merged_unique(acc: Seq<(Seq<char>, JsonV)>, s: Seq<(Seq<char>, JsonV)>)
    requires
        keys_unique(s),
        forall|i: int| 0 <= i < s.len() ==> !obj_has(acc, #[trigger] s[i].0),
    ensures
        merged_from(acc, s) == acc + s,
    decreases s.len(),
{
    if s.len() == 0 {
        assert(acc + s =~= acc);
    } else {
        let tail = s.subrange(1, s.len() as int);
        let acc2 = upsert(acc, s[0].0, s[0].1);
        assert(acc2 == acc.push((s[0].0, s[0].1)));
        assert forall|i: int| 0 <= i < tail.len() implies !obj_has(acc2, #[trigger] tail[i].0) by {
            lemma_upsert_has(acc, s[0].0, s[0].1, tail[i].0);
            assert(s[i + 1].0 == tail[i].0);
        }
        lemma_merged_unique(acc2, tail);
        assert(acc.push((s[0].0, s[0].1)) + tail =~= acc + s);
    }
}

/// The split–merge law: splitting an object into entries and merging them
/// back, with no filter either way, rebuilds the object.
pub proof fn lemma_split_then_merge(ms: Seq<(Seq<char>, JsonV)>)
    requires
        keys_unique(ms),
    ensures
        merged_members(kept_entries(ms, None), None) == ms,
{
    lemma_kept_none(ms);
    assert forall|i: int| 0 <= i < ms.len() implies !obj_has(
        Seq::<(Seq<char>, JsonV)>::empty(),
        #[trigger] ms[i].0,
    ) by {
        lemma_obj_has_exists(Seq::empty(), ms[i].0);
    }
    lemma_merged_unique(Seq::empty(), ms);
    assert(Seq::<(Seq<char>, JsonV)>::empty() + ms =~= ms);
}

/// Splits an object into its named entries, keeping only the names the
/// optional pattern matches. An absent or unusable pattern keeps every
/// member.
pub fn split(object: Json, filter: Option<String>) -> (r: Vec<(String, Json)>)
    requires
        object@ is Obj,
    ensures
        jv_of_members(r@) == kept_entries(object@->Obj_0, filter_view(filter)),
{
    let ghost fv = filter_view(filter);
    match object {
        Json::Obj(ms) => {
            let ghost w = jv_of_members(ms@);
            proof {
                lemma_jv_of_members(ms@);
                assert(w.subrange(0, 0) =~= Seq::<(Seq<char>, JsonV)>::empty());
            }
            let mut out: Vec<(String, Json)> = Vec::new();
            let n = ms.len();
            let mut i: usize = 0;
            while i < n
                invariant
                    i <= n,
                    n == ms@.len(),
                    w == jv_of_members(ms@),
                    fv == filter_view(filter),
                    w.len() == n,
                    forall|k: int| 0 <= k < n ==> w[k] == (ms@[k].0@, jv_of(ms@[k].1)),
                    jv_of_members(out@) == kept_entries(w.subrange(0, i as int), fv),
                decreases n - i,
            {
                let ghost pre = out@;
                proof {
                    let cut = w.subrange(0, i + 1 as int);
                    assert(cut.subrange(0, cut.len() - 1) =~= w.subrange(0, i as int));
                    assert(cut.last() == w[i as int]);
                }
                if passes(&filter, ms[i].0.as_str()) {
                    let name = ms[i].0.clone();
                    let val = ms[i].1.deep_clone();
                    out.push((name, val));
                    proof {
                        lemma_jv_of_members(pre);
                        lemma_jv_of_members(out@);
                        assert(jv_of_members(out@) =~= jv_of_members(pre).push(w[i as int]));
                    }
                }
                i = i + 1;
            }
            proof {
                assert(w.subrange(0, n as int) =~= w);
            }
            out
        },
        _ => Vec::new(),
    }
}

} // verus!
