//! The JSON document model: a tree of plain values.
//!
//! Numbers are held as 64-bit signed integers; a document whose numbers do
//! not fit that form is outside this library's model and fails to parse.
//! Object members keep their order as written; duplicate keys are kept.
use vstd::prelude::*;

verus! {

/// A JSON value.
#[derive(Debug, PartialEq)]
pub enum Json {
    Null,
    Bool(bool),
    Num(i64),
    Str(String),
    Arr(Vec<Json>),
    Obj(Vec<(String, Json)>),
}

/// The mathematical shape of a [`Json`] value: sequences and unbounded
/// integers in place of vectors and machine words.
pub enum JsonV {
    Null,
    Bool(bool),
    Num(int),
    Str(Seq<char>),
    Arr(Seq<JsonV>),
    Obj(Seq<(Seq<char>, JsonV)>),
}

/// The abstraction of a concrete value.
pub open spec fn jv_of(j: Json) -> JsonV
    decreases j,
{
    match j {
        Json::Null => JsonV::Null,
        Json::Bool(b) => JsonV::Bool(b),
        Json::Num(n) => JsonV::Num(n as int),
        Json::Str(s) => JsonV::Str(s@),
        Json::Arr(xs) => {
            proof {
                assert(decreases_to!(j => j->Arr_0));
                assert(decreases_to!(j->Arr_0 => j->Arr_0@));
            }
            JsonV::Arr(jv_of_seq(xs@))
        },
        Json::Obj(ms) => {
            proof {
                assert(decreases_to!(j => j->Obj_0));
                assert(decreases_to!(j->Obj_0 => j->Obj_0@));
            }
            JsonV::Obj(jv_of_members(ms@))
        },
    }
}

/// The abstraction of a sequence of array elements.
pub open spec fn jv_of_seq(s: Seq<Json>) -> Seq<JsonV>
    decreases s,
{
    if s.len() == 0 {
        Seq::empty()
    } else {
        proof {
            assert(decreases_to!(s => s[0]));
            assert(decreases_to!(s => s.subrange(1, s.len() as int)));
        }
        seq![jv_of(s[0])] + jv_of_seq(s.subrange(1, s.len() as int))
    }
}

/// The abstraction of a sequence of object members.
pub open spec fn jv_of_members(s: Seq<(String, Json)>) -> Seq<(Seq<char>, JsonV)>
    decreases s,
{
    if s.len() == 0 {
        Seq::empty()
    } else {
        proof {
            assert(decreases_to!(s => s[0]));
            assert(decreases_to!(s => s[0].1));
            assert(decreases_to!(s => s.subrange(1, s.len() as int)));
        }
        seq![(s[0].0@, jv_of(s[0].1))] + jv_of_members(s.subrange(1, s.len() as int))
    }
}

/// What [`jv_of_seq`] holds at each place.
pub broadcast proof fn lemma_jv_of_seq(s: Seq<Json>)
    ensures
        (#[trigger] jv_of_seq(s)).len() == s.len(),
        forall|i: int| 0 <= i < s.len() ==> jv_of_seq(s)[i] == jv_of(s[i]),
    decreases s.len(),
{
    if s.len() > 0 {
        lemma_jv_of_seq(s.subrange(1, s.len() as int));
    }
}

/// What [`jv_of_members`] holds at each place.
pub broadcast proof fn lemma_jv_of_members(s: Seq<(String, Json)>)
    ensures
        (#[trigger] jv_of_members(s)).len() == s.len(),
        forall|i: int| 0 <= i < s.len() ==> jv_of_members(s)[i] == (s[i].0@, jv_of(s[i].1)),
    decreases s.len(),
{
    if s.len() > 0 {
        lemma_jv_of_members(s.subrange(1, s.len() as int));
    }
}

impl View for Json {
    type V = JsonV;

    open spec fn view(&self) -> JsonV {
        jv_of(*self)
    }
}

impl Json {
    /// Whether this value is an object.
    pub fn is_object(&self) -> (r: bool)
        ensures
            r == (self@ is Obj),
    {
        match self {
            Json::Obj(_) => true,
            _ => false,
        }
    }

    /// Structural copy of a value.
    pub fn deep_clone(&self) -> (r: Json)
        ensures
            r@ == self@,
        decreases *self,
    {
        match self {
            Json::Null => Json::Null,
            Json::Bool(b) => Json::Bool(*b),
            Json::Num(n) => Json::Num(*n),
            Json::Str(s) => Json::Str(s.clone()),
            Json::Arr(xs) => {
                proof {
                    assert(decreases_to!(*self => self->Arr_0));
                    assert(self->Arr_0 == *xs);
                }
                let r = Json::Arr(clone_list(xs));
                proof {
                    lemma_jv_of_seq(r->Arr_0@);
                    lemma_jv_of_seq(xs@);
                    assert(jv_of_seq(r->Arr_0@) =~= jv_of_seq(xs@));
                }
                r
            },
            Json::Obj(ms) => {
                proof {
                    assert(decreases_to!(*self => self->Obj_0));
                    assert(self->Obj_0 == *ms);
                }
                let r = Json::Obj(clone_members(ms));
                proof {
                    lemma_jv_of_members(r->Obj_0@);
                    lemma_jv_of_members(ms@);
                    assert(jv_of_members(r->Obj_0@) =~= jv_of_members(ms@));
                }
                r
            },
        }
    }
}

/// Structural copy of a vector of array elements.
fn clone_list(xs: &Vec<Json>) -> (r: Vec<Json>)
    ensures
        r@.len() == xs@.len(),
        forall|k: int| 0 <= k < xs@.len() ==> r@[k]@ == xs@[k]@,
    decreases *xs,
{
    let mut out: Vec<Json> = Vec::new();
    let mut i: usize = 0;
    while i < xs.len()
        invariant
            i <= xs.len(),
            out@.len() == i as int,
            forall|k: int| 0 <= k < i ==> out@[k]@ == xs@[k]@,
        decreases xs@.len() - i,
    {
        out.push(xs[i].deep_clone());
        i = i + 1;
    }
    out
}

/// Structural copy of a vector of object members.
pub(crate) fn clone_members(ms: &Vec<(String, Json)>) -> (r: Vec<(String, Json)>)
    ensures
        r@.len() == ms@.len(),
        forall|k: int| 0 <= k < ms@.len() ==> r@[k].0@ == ms@[k].0@ && r@[k].1@ == ms@[k].1@,
    decreases *ms,
{
    let mut out: Vec<(String, Json)> = Vec::new();
    let mut i: usize = 0;
    while i < ms.len()
        invariant
            i <= ms.len(),
            out@.len() == i as int,
            forall|k: int| 0 <= k < i ==> out@[k].0@ == ms@[k].0@ && out@[k].1@ == ms@[k].1@,
        decreases ms@.len() - i,
    {
        let name = ms[i].0.clone();
        let val = ms[i].1.deep_clone();
        out.push((name, val));
        i = i + 1;
    }
    out
}

} // verus!
