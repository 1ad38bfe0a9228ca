//! Sources and sinks: the places named JSON entries and JSON rows are read
//! from and written to.
//!
//! The traits model a source as the entries it holds, a reader as the lines
//! it has left, and a sink as what has been appended or written to it. The
//! structs here are the in-memory forms; reading a directory, a file or a
//! standard stream into them, and putting their contents on disk, is the
//! caller's side of the boundary.
use crate::json::{jv_of, jv_of_members, lemma_jv_of_members, Json, JsonV};
use crate::parse::sp_doc;
use crate::strutil::chars_of;
use vstd::multiset::Multiset;
use vstd::string::StrSliceExecFns;
use vstd::prelude::*;

verus! {

/// Why a sink refused an operation.
#[derive(Debug, Clone, Copy, PartialEq, Eq, Structural)]
pub enum IoError {
    /// The operation makes no sense for this kind of sink.
    Unsupported,
}

/// Lexicographic order on texts, by character code.
pub open spec fn lex_leq(a: Seq<char>, b: Seq<char>) -> bool
    decreases a.len(),
{
    if a.len() == 0 {
        true
    } else if b.len() == 0 {
        false
    } else if (a[0] as u32) < (b[0] as u32) {
        true
    } else if (a[0] as u32) > (b[0] as u32) {
        false
    } else {
        lex_leq(a.subrange(1, a.len() as int), b.subrange(1, b.len() as int))
    }
}

/// The order is total.
pub proof fn lemma_lex_total(a: Seq<char>, b: Seq<char>)
    ensures
        lex_leq(a, b) || lex_leq(b, a),
    decreases a.len(),
{
    if a.len() > 0 && b.len() > 0 && (a[0] as u32) == (b[0] as u32) {
        lemma_lex_total(a.subrange(1, a.len() as int), b.subrange(1, b.len() as int));
    }
}

/// The order is transitive.
pub proof fn lemma_lex_trans(a: Seq<char>, b: Seq<char>, c: Seq<char>)
    requires
        lex_leq(a, b),
        lex_leq(b, c),
    ensures
        lex_leq(a, c),
    decreases a.len(),
{
    if a.len() > 0 && b.len() > 0 && c.len() > 0 && (a[0] as u32) == (b[0] as u32) && (b[0] as u32)
        == (c[0] as u32) {
        lemma_lex_trans(
            a.subrange(1, a.len() as int),
            b.subrange(1, b.len() as int),
            c.subrange(1, c.len() as int),
        );
    }
}

/// Decides the lexicographic order on two texts.
pub fn str_lex_leq(a: &str, b: &str) -> (r: bool)
    ensures
        r == lex_leq(a@, b@),
{
    let av = chars_of(a);
    let bv = chars_of(b);
    let mut i: usize = 0;
    proof {
        assert(a@.subrange(0, a@.len() as int) =~= a@);
        assert(b@.subrange(0, b@.len() as int) =~= b@);
    }
    loop
        invariant
            av@ == a@,
            bv@ == b@,
            i <= av@.len(),
            i <= bv@.len(),
            lex_leq(a@, b@) == lex_leq(
                a@.subrange(i as int, a@.len() as int),
                b@.subrange(i as int, b@.len() as int),
            ),
        decreases av@.len() - i,
    {
        let ghost asub = a@.subrange(i as int, a@.len() as int);
        let ghost bsub = b@.subrange(i as int, b@.len() as int);
        if i >= av.len() {
            proof {
                assert(asub.len() == 0);
            }
            return true;
        }
        if i >= bv.len() {
            proof {
                assert(bsub.len() == 0);
            }
            return false;
        }
        let ca = av[i];
        let cb = bv[i];
        proof {
            assert(asub[0] == a@[i as int]);
            assert(bsub[0] == b@[i as int]);
            assert(asub.subrange(1, asub.len() as int) =~= a@.subrange(
                i + 1 as int,
                a@.len() as int,
            ));
            assert(bsub.subrange(1, bsub.len() as int) =~= b@.subrange(
                i + 1 as int,
                b@.len() as int,
            ));
        }
        if (ca as u32) < (cb as u32) {
            return true;
        }
        if (ca as u32) > (cb as u32) {
            return false;
        }
        i = i + 1;
    }
}

/// Entries in nondescending name order.
pub open spec fn sorted_by_name(es: Seq<(Seq<char>, JsonV)>) -> bool {
    forall|i: int, j: int| 0 <= i < j < es.len() ==> lex_leq(es[i].0, es[j].0)
}

/// Sorts entries by name, lexicographically.
#[verifier::rlimit(100)]
#[verifier::spinoff_prover]
pub fn sort_entries(entries: Vec<(String, Json)>) -> (r: Vec<(String, Json)>)
    ensures
        jv_of_members(r@).to_multiset() == jv_of_members(entries@).to_multiset(),
        sorted_by_name(jv_of_members(r@)),
{
    broadcast use vstd::seq_lib::group_to_multiset_ensures;

    let ghost orig = jv_of_members(entries@);
    let mut rest = entries;
    let mut out: Vec<(String, Json)> = Vec::new();
    proof {
        lemma_jv_of_members(rest@);
        assert(jv_of_members(out@) =~= Seq::<(Seq<char>, JsonV)>::empty());
        assert(jv_of_members(out@).to_multiset().add(jv_of_members(rest@).to_multiset())
            =~= orig.to_multiset());
    }
    while rest.len() > 0
        invariant
            jv_of_members(out@).to_multiset().add(jv_of_members(rest@).to_multiset())
                == orig.to_multiset(),
            sorted_by_name(jv_of_members(out@)),
            forall|i: int, j: int|
                0 <= i < jv_of_members(out@).len() && 0 <= j < jv_of_members(rest@).len()
                    ==> lex_leq(jv_of_members(out@)[i].0, jv_of_members(rest@)[j].0),
        decreases rest@.len(),
    {
        proof {
            lemma_jv_of_members(rest@);
        }
        // find the least remaining name
        let mut min: usize = 0;
        let mut i: usize = 1;
        proof {
            lemma_lex_total(rest@[0].0@, rest@[0].0@);
        }
        while i < rest.len()
            invariant
                min < i,
                i <= rest@.len(),
                rest@.len() > 0,
                forall|k: int|
                    0 <= k < i ==> lex_leq(rest@[min as int].0@, #[trigger] rest@[k].0@),
            decreases rest@.len() - i,
        {
            if str_lex_leq(rest[i].0.as_str(), rest[min].0.as_str()) {
                proof {
                    assert forall|k: int|
                        0 <= k < i + 1 implies lex_leq(
                        rest@[i as int].0@,
                        #[trigger] rest@[k].0@,
                    ) by {
                        if k < i {
                            lemma_lex_trans(rest@[i as int].0@, rest@[min as int].0@, rest@[k].0@);
                        } else {
                            lemma_lex_total(rest@[i as int].0@, rest@[i as int].0@);
                        }
                    }
                }
                min = i;
            } else {
                proof {
                    lemma_lex_total(rest@[i as int].0@, rest@[min as int].0@);
                }
            }
            i = i + 1;
        }
        let ghost pre_rest = rest@;
        let ghost pre_out = out@;
        let picked = rest.remove(min);
        let ghost pv = (picked.0@, jv_of(picked.1));
        out.push(picked);
        proof {
            lemma_jv_of_members(pre_rest);
            lemma_jv_of_members(rest@);
            lemma_jv_of_members(pre_out);
            lemma_jv_of_members(out@);
            assert(jv_of_members(pre_rest)[min as int] == pv);
            assert(jv_of_members(rest@) =~= jv_of_members(pre_rest).remove(min as int));
            assert(jv_of_members(out@) =~= jv_of_members(pre_out).push(pv));
            assert(jv_of_members(pre_rest).contains(pv));
            jv_of_members(pre_rest).to_multiset_ensures();
            jv_of_members(pre_out).to_multiset_ensures();
            assert(jv_of_members(rest@).to_multiset() == jv_of_members(pre_rest).remove(
                min as int,
            ).to_multiset());
            assert(jv_of_members(pre_rest).remove(min as int).to_multiset() =~= jv_of_members(
                pre_rest,
            ).to_multiset().remove(pv));
            assert(jv_of_members(out@).to_multiset() == jv_of_members(pre_out).push(
                pv,
            ).to_multiset());
            assert(jv_of_members(pre_out).push(pv).to_multiset() =~= jv_of_members(
                pre_out,
            ).to_multiset().insert(pv));
            assert(jv_of_members(pre_rest).to_multiset().count(pv) > 0);
            assert(jv_of_members(out@).to_multiset().add(jv_of_members(rest@).to_multiset())
                =~= jv_of_members(pre_out).to_multiset().add(
                jv_of_members(pre_rest).to_multiset(),
            ));
            assert forall|q: int|
                0 <= q < jv_of_members(pre_out).len() implies lex_leq(
                jv_of_members(pre_out)[q].0,
                pv.0,
            ) by {
                assert(jv_of_members(pre_rest)[min as int] == pv);
            }
            assert forall|q: int, w: int|
                0 <= q < w < jv_of_members(out@).len() implies lex_leq(
                jv_of_members(out@)[q].0,
                jv_of_members(out@)[w].0,
            ) by {
                if w < jv_of_members(pre_out).len() {
                    assert(jv_of_members(out@)[q] == jv_of_members(pre_out)[q]);
                    assert(jv_of_members(out@)[w] == jv_of_members(pre_out)[w]);
                } else {
                    assert(jv_of_members(out@)[q] == jv_of_members(pre_out)[q]);
                    assert(jv_of_members(out@)[w] == pv);
                }
            }
            // order: the picked name follows everything already out, and
            // precedes everything left
            assert forall|j: int|
                0 <= j < jv_of_members(rest@).len() implies lex_leq(
                pv.0,
                jv_of_members(rest@)[j].0,
            ) by {
                if j < min {
                    assert(jv_of_members(rest@)[j] == jv_of_members(pre_rest)[j]);
                } else {
                    assert(jv_of_members(rest@)[j] == jv_of_members(pre_rest)[j + 1]);
                }
            }
        }
    }
    proof {
        lemma_jv_of_members(rest@);
        assert(jv_of_members(rest@) =~= Seq::<(Seq<char>, JsonV)>::empty());
        assert(jv_of_members(rest@).to_multiset() =~= Multiset::<(Seq<char>, JsonV)>::empty());
        assert(jv_of_members(out@).to_multiset().add(Multiset::empty()) =~= jv_of_members(
            out@,
        ).to_multiset());
    }
    out
}

/// The place of the last dot in the text, or minus one.
pub open spec fn last_dot(s: Seq<char>) -> int
    decreases s.len(),
{
    if s.len() == 0 {
        -1
    } else if s.last() == '.' {
        s.len() - 1
    } else {
        last_dot(s.subrange(0, s.len() - 1))
    }
}

/// The file name with its last extension taken off.
pub open spec fn stem_of(s: Seq<char>) -> Seq<char> {
    if last_dot(s) >= 0 {
        s.subrange(0, last_dot(s))
    } else {
        s
    }
}

pub proof fn lemma_last_dot(s: Seq<char>)
    ensures
        last_dot(s) < s.len(),
        last_dot(s) >= 0 ==> s[last_dot(s)] == '.',
    decreases s.len(),
{
    if s.len() > 0 && s.last() != '.' {
        lemma_last_dot(s.subrange(0, s.len() - 1));
        if last_dot(s) >= 0 {
            assert(s.subrange(0, s.len() - 1)[last_dot(s)] == s[last_dot(s)]);
        }
    }
}

/// The stem of a file name.
pub fn file_stem(name: &str) -> (r: String)
    ensures
        r@ == stem_of(name@),
{
    let chars = chars_of(name);
    let n = chars.len();
    let mut j: usize = n;
    proof {
        assert(name@.subrange(0, n as int) =~= name@);
    }
    // walk back to the last dot
    while j > 0 && !(chars[j - 1] == '.')
        invariant
            j <= n,
            n == name@.len(),
            chars@ == name@,
            last_dot(name@) == last_dot(name@.subrange(0, j as int)),
        decreases j,
    {
        proof {
            let cut = name@.subrange(0, j as int);
            assert(cut.last() == name@[j - 1]);
            assert(cut.subrange(0, cut.len() - 1) =~= name@.subrange(0, j - 1 as int));
        }
        j = j - 1;
    }
    let cut: usize = if j > 0 {
        proof {
            let cut = name@.subrange(0, j as int);
            assert(cut.last() == name@[j - 1]);
            assert(last_dot(name@) == j - 1);
        }
        j - 1
    } else {
        proof {
            assert(name@.subrange(0, 0) =~= Seq::<char>::empty());
            assert(last_dot(name@) == -1);
        }
        n
    };
    let mut out = String::new();
    let mut i: usize = 0;
    while i < cut
        invariant
            i <= cut <= n,
            n == name@.len(),
            chars@ == name@,
            out@ == name@.subrange(0, i as int),
        decreases cut - i,
    {
        crate::strutil::push_char(&mut out, chars[i]);
        proof {
            assert(out@ =~= name@.subrange(0, i + 1 as int));
        }
        i = i + 1;
    }
    proof {
        if cut < n {
            assert(out@ =~= stem_of(name@));
        } else {
            assert(name@.subrange(0, n as int) =~= name@);
        }
    }
    out
}

/// The views of a list of named texts.
pub open spec fn files_view(files: Seq<(String, String)>) -> Seq<(Seq<char>, Seq<char>)> {
    files.map(|i: int, f: (String, String)| (f.0@, f.1@))
}

/// The entries a directory listing yields: for each file whose content
/// parses, the file name's stem and the parsed value, in listing order;
/// files that do not parse are passed over.
pub open spec fn dir_entries(files: Seq<(Seq<char>, Seq<char>)>) -> Seq<(Seq<char>, JsonV)>
    decreases files.len(),
{
    if files.len() == 0 {
        Seq::empty()
    } else {
        let front = dir_entries(files.subrange(0, files.len() - 1));
        match sp_doc(files.last().1) {
            Ok(v) => front.push((stem_of(files.last().0), v)),
            Err(_) => front,
        }
    }
}

/// Turns a directory listing — file names with their contents — into named
/// entries: each file name's stem with its parsed value. Contents that do
/// not parse are passed over. With `sort` the entries come out in name
/// order; otherwise they keep the listing order.
pub fn read_entries(files: Vec<(String, String)>, sort: bool) -> (r: Vec<(String, Json)>)
    ensures
        !sort ==> jv_of_members(r@) == dir_entries(files_view(files@)),
        sort ==> jv_of_members(r@).to_multiset() == dir_entries(files_view(files@)).to_multiset()
            && sorted_by_name(jv_of_members(r@)),
{
    let ghost fv = files_view(files@);
    let mut out: Vec<(String, Json)> = Vec::new();
    let n = files.len();
    let mut i: usize = 0;
    proof {
        lemma_jv_of_members(out@);
        assert(fv.subrange(0, 0) =~= Seq::<(Seq<char>, Seq<char>)>::empty());
        assert(jv_of_members(out@) =~= dir_entries(fv.subrange(0, 0)));
    }
    while i < n
        invariant
            i <= n,
            n == files@.len(),
            fv == files_view(files@),
            fv.len() == n,
            jv_of_members(out@) == dir_entries(fv.subrange(0, i as int)),
        decreases n - i,
    {
        let ghost pre = out@;
        proof {
            let cut = fv.subrange(0, i + 1 as int);
            assert(cut.subrange(0, cut.len() - 1) =~= fv.subrange(0, i as int));
            assert(cut.last() == fv[i as int]);
            assert(fv[i as int] == (files@[i as int].0@, files@[i as int].1@));
        }
        match Json::from_text(files[i].1.as_str()) {
            Ok(v) => {
                let name = file_stem(files[i].0.as_str());
                out.push((name, v));
                proof {
                    lemma_jv_of_members(pre);
                    lemma_jv_of_members(out@);
                    assert(jv_of_members(out@) =~= jv_of_members(pre).push(
                        (stem_of(files@[i as int].0@), v@),
                    ));
                }
            },
            Err(_) => {},
        }
        i = i + 1;
    }
    proof {
        assert(fv.subrange(0, n as int) =~= fv);
    }
    if sort {
        sort_entries(out)
    } else {
        out
    }
}

/// A file name bearing the `.json` extension.
pub open spec fn has_json_ext(name: Seq<char>) -> bool {
    name.len() >= 5 && name.subrange(name.len() - 5, name.len() as int) == seq![
        '.',
        'j',
        's',
        'o',
        'n',
    ]
}

/// The listing narrowed to files bearing the `.json` extension, in order.
pub open spec fn json_named(files: Seq<(Seq<char>, Seq<char>)>) -> Seq<(Seq<char>, Seq<char>)>
    decreases files.len(),
{
    if files.len() == 0 {
        Seq::empty()
    } else {
        let front = json_named(files.subrange(0, files.len() - 1));
        if has_json_ext(files.last().0) {
            front.push(files.last())
        } else {
            front
        }
    }
}

/// Decides whether a file name bears the `.json` extension.
pub fn is_json_name(name: &str) -> (r: bool)
    ensures
        r == has_json_ext(name@),
{
    let cv = chars_of(name);
    let n = cv.len();
    if n < 5 {
        return false;
    }
    let r = cv[n - 5] == '.' && cv[n - 4] == 'j' && cv[n - 3] == 's' && cv[n - 2] == 'o' && cv[n
        - 1] == 'n';
    proof {
        if r {
            assert(name@.subrange(n - 5, n as int) =~= seq!['.', 'j', 's', 'o', 'n']);
        }
        if has_json_ext(name@) {
            assert(name@.subrange(n - 5, n as int)[0] == name@[n - 5]);
            assert(name@.subrange(n - 5, n as int)[1] == name@[n - 4]);
            assert(name@.subrange(n - 5, n as int)[2] == name@[n - 3]);
            assert(name@.subrange(n - 5, n as int)[3] == name@[n - 2]);
            assert(name@.subrange(n - 5, n as int)[4] == name@[n - 1]);
        }
    }
    r
}

/// Keeps the files of a listing that bear the `.json` extension, in
/// listing order.
pub fn json_files(files: Vec<(String, String)>) -> (r: Vec<(String, String)>)
    ensures
        files_view(r@) == json_named(files_view(files@)),
{
    let ghost fv = files_view(files@);
    let mut out: Vec<(String, String)> = Vec::new();
    let n = files.len();
    let mut i: usize = 0;
    proof {
        assert(fv.subrange(0, 0) =~= Seq::<(Seq<char>, Seq<char>)>::empty());
        assert(files_view(out@) =~= json_named(fv.subrange(0, 0)));
    }
    while i < n
        invariant
            i <= n,
            n == files@.len(),
            fv == files_view(files@),
            fv.len() == n,
            files_view(out@) == json_named(fv.subrange(0, i as int)),
        decreases n - i,
    {
        let ghost pre = out@;
        proof {
            let cut = fv.subrange(0, i + 1 as int);
            assert(cut.subrange(0, cut.len() - 1) =~= fv.subrange(0, i as int));
            assert(cut.last() == fv[i as int]);
            assert(fv[i as int] == (files@[i as int].0@, files@[i as int].1@));
        }
        if is_json_name(files[i].0.as_str()) {
            let name = files[i].0.clone();
            let content = files[i].1.clone();
            out.push((name, content));
            proof {
                assert(files_view(out@) =~= files_view(pre).push(fv[i as int]));
            }
        }
        i = i + 1;
    }
    proof {
        assert(fv.subrange(0, n as int) =~= fv);
    }
    out
}

/// A holder of named JSON entries.
pub trait JsonSource {
    /// The entries the source holds, in its own order.
    spec fn entries(&self) -> Seq<(Seq<char>, JsonV)>;

    /// The entries, sorted by name when asked.
    fn get_entries(&self, sort: bool) -> (r: Vec<(String, Json)>)
        ensures
            !sort ==> jv_of_members(r@) == self.entries(),
            sort ==> jv_of_members(r@).to_multiset() == self.entries().to_multiset()
                && sorted_by_name(jv_of_members(r@)),
    ;
}

/// A line-oriented reader.
pub trait JsonReader {
    /// The lines not yet handed out.
    spec fn remaining(&self) -> Seq<Seq<char>>;

    /// Appends the next line to the buffer; appends nothing at the end of
    /// the input.
    fn read_line(&mut self, buf: &mut String)
        ensures
            old(self).remaining().len() > 0 ==> final(self).remaining() == old(
                self,
            ).remaining().drop_first() && final(buf)@ == old(buf)@ + old(self).remaining()[0],
            old(self).remaining().len() == 0 ==> final(self).remaining() == old(self).remaining()
                && final(buf)@ == old(buf)@,
    ;
}

/// A sink rows can be appended to.
pub trait Appendable {
    /// The rows appended so far, in order.
    spec fn appended(&self) -> Seq<JsonV>;

    /// Whether this sink takes appended rows at all. Where it does, every
    /// append goes through; where it does not, every append is refused.
    spec fn appends_ok(&self) -> bool;

    /// Tells whether this sink takes appended rows.
    fn supports_append(&self) -> (r: bool)
        ensures
            r == self.appends_ok(),
    ;

    /// Appends one row.
    fn append(&mut self, content: Json) -> (r: Result<(), IoError>)
        ensures
            r is Ok ==> final(self).appended() == old(self).appended().push(content@),
            r is Err ==> final(self).appended() == old(self).appended(),
            old(self).appends_ok() ==> r is Ok,
            final(self).appends_ok() == old(self).appends_ok(),
    ;
}

/// A sink named entries can be written to.
pub trait Writeable {
    /// The entries written so far, in order.
    spec fn written(&self) -> Seq<(Seq<char>, JsonV)>;

    /// Whether output is to be pretty-printed.
    spec fn pretty(&self) -> bool;

    /// Whether this sink takes written entries at all. Where it does,
    /// every write goes through.
    spec fn writes_ok(&self) -> bool;

    /// Changes the formatting mode for what is written from now on.
    fn set_pretty(&mut self, pretty: bool)
        ensures
            final(self).written() == old(self).written(),
            final(self).pretty() == pretty,
            final(self).writes_ok() == old(self).writes_ok(),
    ;

    /// Writes a batch of named entries.
    fn write_entries(&mut self, entries: Vec<(String, Json)>) -> (r: Result<(), IoError>)
        ensures
            r is Ok ==> final(self).written() == old(self).written() + jv_of_members(entries@),
            r is Err ==> final(self).written() == old(self).written(),
            old(self).writes_ok() ==> r is Ok,
            final(self).writes_ok() == old(self).writes_ok(),
            final(self).pretty() == old(self).pretty(),
    ;
}

/// A directory path entries are read from. The reading itself happens at
/// the caller's side of the boundary; what it finds goes through
/// [`read_entries`].
#[derive(Debug)]
pub struct InputDirectory {
    pub path: String,
}

impl InputDirectory {
    /// A directory source at the given path.
    pub fn new(path: String) -> (r: InputDirectory)
        ensures
            r.path@ == path@,
    {
        InputDirectory { path }
    }

    /// The directory's path.
    pub fn path(&self) -> (r: &String)
        ensures
            r@ == self.path@,
    {
        &self.path
    }
}

/// A collection of named entries already loaded in memory.
#[derive(Debug)]
pub struct EntrySource {
    pub entries: Vec<(String, Json)>,
}

impl EntrySource {
    /// A source over the given entries.
    pub fn new(entries: Vec<(String, Json)>) -> (r: EntrySource)
        ensures
            r.entries() == jv_of_members(entries@),
    {
        EntrySource { entries }
    }
}

impl JsonSource for EntrySource {
    open spec fn entries(&self) -> Seq<(Seq<char>, JsonV)> {
        jv_of_members(self.entries@)
    }

    fn get_entries(&self, sort: bool) -> (r: Vec<(String, Json)>)
        ensures
            !sort ==> jv_of_members(r@) == self.entries(),
            sort ==> jv_of_members(r@).to_multiset() == self.entries().to_multiset()
                && sorted_by_name(jv_of_members(r@)),
    {
        let copy = crate::json::clone_members(&self.entries);
        proof {
            lemma_jv_of_members(copy@);
            lemma_jv_of_members(self.entries@);
            assert(jv_of_members(copy@) =~= jv_of_members(self.entries@));
        }
        if sort {
            sort_entries(copy)
        } else {
            copy
        }
    }
}

/// The standard input stream, read ahead into lines. Filling it is the
/// caller's side of the boundary; a file read line by line takes the same
/// form.
#[derive(Debug)]
pub struct InputStdin {
    pub lines: Vec<String>,
    pub pos: usize,
}

impl InputStdin {
    /// A reader over the given lines.
    pub fn from_lines(lines: Vec<String>) -> (r: InputStdin)
        ensures
            r.remaining() == lines@.map(|i: int, s: String| s@),
    {
        let r = InputStdin { lines, pos: 0 };
        proof {
            assert(r.remaining() =~= r.lines@.map(|i: int, s: String| s@));
        }
        r
    }
}

impl JsonReader for InputStdin {
    open spec fn remaining(&self) -> Seq<Seq<char>> {
        let all = self.lines@.map(|i: int, s: String| s@);
        if self.pos <= all.len() {
            all.subrange(self.pos as int, all.len() as int)
        } else {
            Seq::empty()
        }
    }

    fn read_line(&mut self, buf: &mut String)
        ensures
            old(self).remaining().len() > 0 ==> final(self).remaining() == old(
                self,
            ).remaining().drop_first() && final(buf)@ == old(buf)@ + old(self).remaining()[0],
            old(self).remaining().len() == 0 ==> final(self).remaining() == old(self).remaining()
                && final(buf)@ == old(buf)@,
    {
        if self.pos < self.lines.len() {
            let line = &self.lines[self.pos];
            buf.append(line.as_str());
            self.pos = self.pos + 1;
            proof {
                let all = self.lines@.map(|i: int, s: String| s@);
                assert(old(self).remaining()[0] == all[old(self).pos as int]);
                assert(self.remaining() =~= old(self).remaining().drop_first());
            }
        }
    }
}

/// The standard output stream: rows and entries are kept in order here and
/// put on the stream at the caller's side of the boundary.
#[derive(Debug)]
pub struct StreamOutput {
    pub pretty_flag: bool,
    pub rows: Vec<Json>,
    pub entries: Vec<(String, Json)>,
}

impl StreamOutput {
    /// A stream sink, pretty-printing or compact.
    pub fn new(pretty: bool) -> (r: StreamOutput)
        ensures
            r.appended() == Seq::<JsonV>::empty(),
            r.written() == Seq::<(Seq<char>, JsonV)>::empty(),
            r.pretty() == pretty,
    {
        let r = StreamOutput { pretty_flag: pretty, rows: Vec::new(), entries: Vec::new() };
        proof {
            assert(r.appended() =~= Seq::<JsonV>::empty());
            assert(r.written() =~= Seq::<(Seq<char>, JsonV)>::empty());
        }
        r
    }

    /// The rows appended so far.
    pub fn rows(&self) -> (r: &Vec<Json>)
        ensures
            crate::json::jv_of_seq(r@) == self.appended(),
    {
        &self.rows
    }

    /// The entries written so far.
    pub fn entries(&self) -> (r: &Vec<(String, Json)>)
        ensures
            jv_of_members(r@) == self.written(),
    {
        &self.entries
    }
}

impl Appendable for StreamOutput {
    open spec fn appended(&self) -> Seq<JsonV> {
        crate::json::jv_of_seq(self.rows@)
    }

    open spec fn appends_ok(&self) -> bool {
        true
    }

    fn supports_append(&self) -> (r: bool)
        ensures
            r == self.appends_ok(),
    {
        true
    }

    fn append(&mut self, content: Json) -> (r: Result<(), IoError>)
        ensures
            r is Ok ==> final(self).appended() == old(self).appended().push(content@),
            r is Err ==> final(self).appended() == old(self).appended(),
            old(self).appends_ok() ==> r is Ok,
            final(self).appends_ok() == old(self).appends_ok(),
            r is Ok,
            final(self).entries@ == old(self).entries@,
            final(self).pretty_flag == old(self).pretty_flag,
    {
        let ghost pre = self.rows@;
        self.rows.push(content);
        proof {
            crate::json::lemma_jv_of_seq(pre);
            crate::json::lemma_jv_of_seq(self.rows@);
            assert(crate::json::jv_of_seq(self.rows@) =~= crate::json::jv_of_seq(pre).push(
                self.rows@.last()@,
            ));
        }
        Ok(())
    }
}

impl Writeable for StreamOutput {
    open spec fn written(&self) -> Seq<(Seq<char>, JsonV)> {
        jv_of_members(self.entries@)
    }

    open spec fn pretty(&self) -> bool {
        self.pretty_flag
    }

    open spec fn writes_ok(&self) -> bool {
        true
    }

    fn set_pretty(&mut self, pretty: bool)
        ensures
            final(self).written() == old(self).written(),
            final(self).pretty() == pretty,
            final(self).writes_ok() == old(self).writes_ok(),
            final(self).rows@ == old(self).rows@,
    {
        self.pretty_flag = pretty;
    }

    fn write_entries(&mut self, entries: Vec<(String, Json)>) -> (r: Result<(), IoError>)
        ensures
            r is Ok ==> final(self).written() == old(self).written() + jv_of_members(entries@),
            r is Err ==> final(self).written() == old(self).written(),
            old(self).writes_ok() ==> r is Ok,
            final(self).writes_ok() == old(self).writes_ok(),
            final(self).pretty() == old(self).pretty(),
            r is Ok,
            final(self).rows@ == old(self).rows@,
    {
        let ghost pre = self.entries@;
        let ghost arg = entries@;
        let mut entries = entries;
        self.entries.append(&mut entries);
        proof {
            lemma_jv_of_members(pre);
            lemma_jv_of_members(arg);
            lemma_jv_of_members(self.entries@);
            assert(jv_of_members(self.entries@) =~= jv_of_members(pre) + jv_of_members(arg));
        }
        Ok(())
    }
}

/// A file sink: rows and entries are kept in order here and put into the
/// file at the caller's side of the boundary.
#[derive(Debug)]
pub struct FileOutput {
    pub path: String,
    pub pretty_flag: bool,
    pub rows: Vec<Json>,
    pub entries: Vec<(String, Json)>,
}

impl FileOutput {
    /// A file sink at the given path, pretty-printing or compact.
    pub fn new(path: String, pretty: bool) -> (r: FileOutput)
        ensures
            r.appended() == Seq::<JsonV>::empty(),
            r.written() == Seq::<(Seq<char>, JsonV)>::empty(),
            r.pretty() == pretty,
            r.path@ == path@,
    {
        let r = FileOutput {
            path,
            pretty_flag: pretty,
            rows: Vec::new(),
            entries: Vec::new(),
        };
        proof {
            assert(r.appended() =~= Seq::<JsonV>::empty());
            assert(r.written() =~= Seq::<(Seq<char>, JsonV)>::empty());
        }
        r
    }

    /// The file's path.
    pub fn path(&self) -> (r: &String)
        ensures
            r@ == self.path@,
    {
        &self.path
    }

    /// The rows appended so far.
    pub fn rows(&self) -> (r: &Vec<Json>)
        ensures
            crate::json::jv_of_seq(r@) == self.appended(),
    {
        &self.rows
    }

    /// The entries written so far.
    pub fn entries(&self) -> (r: &Vec<(String, Json)>)
        ensures
            jv_of_members(r@) == self.written(),
    {
        &self.entries
    }
}

impl Appendable for FileOutput {
    open spec fn appended(&self) -> Seq<JsonV> {
        crate::json::jv_of_seq(self.rows@)
    }

    open spec fn appends_ok(&self) -> bool {
        true
    }

    fn supports_append(&self) -> (r: bool)
        ensures
            r == self.appends_ok(),
    {
        true
    }

    fn append(&mut self, content: Json) -> (r: Result<(), IoError>)
        ensures
            r is Ok ==> final(self).appended() == old(self).appended().push(content@),
            r is Err ==> final(self).appended() == old(self).appended(),
            old(self).appends_ok() ==> r is Ok,
            final(self).appends_ok() == old(self).appends_ok(),
            r is Ok,
            final(self).entries@ == old(self).entries@,
            final(self).pretty_flag == old(self).pretty_flag,
    {
        let ghost pre = self.rows@;
        self.rows.push(content);
        proof {
            crate::json::lemma_jv_of_seq(pre);
            crate::json::lemma_jv_of_seq(self.rows@);
            assert(crate::json::jv_of_seq(self.rows@) =~= crate::json::jv_of_seq(pre).push(
                self.rows@.last()@,
            ));
        }
        Ok(())
    }
}

impl Writeable for FileOutput {
    open spec fn written(&self) -> Seq<(Seq<char>, JsonV)> {
        jv_of_members(self.entries@)
    }

    open spec fn pretty(&self) -> bool {
        self.pretty_flag
    }

    open spec fn writes_ok(&self) -> bool {
        true
    }

    fn set_pretty(&mut self, pretty: bool)
        ensures
            final(self).written() == old(self).written(),
            final(self).pretty() == pretty,
            final(self).writes_ok() == old(self).writes_ok(),
            final(self).rows@ == old(self).rows@,
    {
        self.pretty_flag = pretty;
    }

    fn write_entries(&mut self, entries: Vec<(String, Json)>) -> (r: Result<(), IoError>)
        ensures
            r is Ok ==> final(self).written() == old(self).written() + jv_of_members(entries@),
            r is Err ==> final(self).written() == old(self).written(),
            old(self).writes_ok() ==> r is Ok,
            final(self).writes_ok() == old(self).writes_ok(),
            final(self).pretty() == old(self).pretty(),
            r is Ok,
            final(self).rows@ == old(self).rows@,
    {
        let ghost pre = self.entries@;
        let ghost arg = entries@;
        let mut entries = entries;
        self.entries.append(&mut entries);
        proof {
            lemma_jv_of_members(pre);
            lemma_jv_of_members(arg);
            lemma_jv_of_members(self.entries@);
            assert(jv_of_members(self.entries@) =~= jv_of_members(pre) + jv_of_members(arg));
        }
        Ok(())
    }
}

/// A directory sink: each written entry stands for one file, the entry's
/// name with `.json` appended; putting the files on disk is the caller's
/// side of the boundary. Appending a row is not supported here.
#[derive(Debug)]
pub struct DirectoryOutput {
    pub path: String,
    pub pretty_flag: bool,
    pub files: Vec<(String, Json)>,
}

impl DirectoryOutput {
    /// A directory sink at the given path, pretty-printing or compact.
    pub fn new(path: String, pretty: bool) -> (r: DirectoryOutput)
        ensures
            r.written() == Seq::<(Seq<char>, JsonV)>::empty(),
            r.pretty() == pretty,
            r.path@ == path@,
    {
        let r = DirectoryOutput { path, pretty_flag: pretty, files: Vec::new() };
        proof {
            assert(r.written() =~= Seq::<(Seq<char>, JsonV)>::empty());
        }
        r
    }

    /// The directory's path.
    pub fn path(&self) -> (r: &String)
        ensures
            r@ == self.path@,
    {
        &self.path
    }

    /// The entries written so far, one file each.
    pub fn entries(&self) -> (r: &Vec<(String, Json)>)
        ensures
            jv_of_members(r@) == self.written(),
    {
        &self.files
    }
}

impl Appendable for DirectoryOutput {
    open spec fn appended(&self) -> Seq<JsonV> {
        Seq::empty()
    }

    open spec fn appends_ok(&self) -> bool {
        false
    }

    fn supports_append(&self) -> (r: bool)
        ensures
            r == self.appends_ok(),
    {
        false
    }

    fn append(&mut self, content: Json) -> (r: Result<(), IoError>)
        ensures
            r is Ok ==> final(self).appended() == old(self).appended().push(content@),
            r is Err ==> final(self).appended() == old(self).appended(),
            old(self).appends_ok() ==> r is Ok,
            final(self).appends_ok() == old(self).appends_ok(),
            r == Err::<(), IoError>(IoError::Unsupported),
            *final(self) == *old(self),
    {
        Err(IoError::Unsupported)
    }
}

impl Writeable for DirectoryOutput {
    open spec fn written(&self) -> Seq<(Seq<char>, JsonV)> {
        jv_of_members(self.files@)
    }

    open spec fn pretty(&self) -> bool {
        self.pretty_flag
    }

    open spec fn writes_ok(&self) -> bool {
        true
    }

    fn set_pretty(&mut self, pretty: bool)
        ensures
            final(self).written() == old(self).written(),
            final(self).pretty() == pretty,
            final(self).writes_ok() == old(self).writes_ok(),
            final(self).appended() == old(self).appended(),
    {
        self.pretty_flag = pretty;
    }

    fn write_entries(&mut self, entries: Vec<(String, Json)>) -> (r: Result<(), IoError>)
        ensures
            r is Ok ==> final(self).written() == old(self).written() + jv_of_members(entries@),
            r is Err ==> final(self).written() == old(self).written(),
            old(self).writes_ok() ==> r is Ok,
            final(self).writes_ok() == old(self).writes_ok(),
            final(self).pretty() == old(self).pretty(),
            r is Ok,
            final(self).appended() == old(self).appended(),
    {
        let ghost pre = self.files@;
        let ghost arg = entries@;
        let mut entries = entries;
        self.files.append(&mut entries);
        proof {
            lemma_jv_of_members(pre);
            lemma_jv_of_members(arg);
            lemma_jv_of_members(self.files@);
            assert(jv_of_members(self.files@) =~= jv_of_members(pre) + jv_of_members(arg));
        }
        Ok(())
    }
}

} // verus!

verus! {

/// The one-character text that names a standard stream.
pub open spec fn dash() -> Seq<char> {
    seq!['-']
}

/// Whether the argument is the dash that names a standard stream.
pub fn is_dash(arg: &str) -> (r: bool)
    ensures
        r == (arg@ == dash()),
{
    let r = arg.unicode_len() == 1 && arg.get_char(0) == '-';
    proof {
        if r {
            assert(arg@ =~= dash());
        }
        if arg@ == dash() {
            assert(arg@.len() == 1 && arg@[0] == '-');
        }
    }
    r
}

/// Where a source of named entries is: the standard input, or a directory.
/// A plain file holds one object, not a set of entries, and is refused.
#[derive(Debug)]
pub enum JsonSourceInput {
    Stdin,
    Directory(String),
}

impl JsonSourceInput {
    /// Chooses the source of entries that an argument names, given whether
    /// the path is a directory.
    pub fn select(arg: &str, is_dir: bool) -> (r: Result<JsonSourceInput, IoError>)
        ensures
            match r {
                Ok(JsonSourceInput::Stdin) => arg@ == dash(),
                Ok(JsonSourceInput::Directory(p)) => arg@ != dash() && is_dir && p@ == arg@,
                Err(e) => arg@ != dash() && !is_dir && e == IoError::Unsupported,
            },
    {
        if is_dash(arg) {
            Ok(JsonSourceInput::Stdin)
        } else if is_dir {
            Ok(JsonSourceInput::Directory(arg.to_owned()))
        } else {
            Err(IoError::Unsupported)
        }
    }
}

/// Where a whole object or line stream is read from: the standard input,
/// or a file. A directory cannot be read as one document and is refused.
#[derive(Debug)]
pub enum JsonReaderInput {
    Stdin,
    File(String),
}

impl JsonReaderInput {
    /// Chooses the reader that an argument names, given whether the path
    /// is a directory.
    pub fn select(arg: &str, is_dir: bool) -> (r: Result<JsonReaderInput, IoError>)
        ensures
            match r {
                Ok(JsonReaderInput::Stdin) => arg@ == dash(),
                Ok(JsonReaderInput::File(p)) => arg@ != dash() && !is_dir && p@ == arg@,
                Err(e) => arg@ != dash() && is_dir && e == IoError::Unsupported,
            },
    {
        if is_dash(arg) {
            Ok(JsonReaderInput::Stdin)
        } else if is_dir {
            Err(IoError::Unsupported)
        } else {
            Ok(JsonReaderInput::File(arg.to_owned()))
        }
    }
}

/// Where appended rows go: the standard output, or a file. A directory —
/// or a path without an extension, which would become one — is refused.
#[derive(Debug)]
pub enum JsonAppendableOutput {
    Stream,
    File(String),
}

impl JsonAppendableOutput {
    /// Chooses the row sink that an argument names, given whether the path
    /// is a directory and whether it carries an extension.
    pub fn select(arg: &str, is_dir: bool, has_extension: bool) -> (r: Result<
        JsonAppendableOutput,
        IoError,
    >)
        ensures
            match r {
                Ok(JsonAppendableOutput::Stream) => arg@ == dash(),
                Ok(JsonAppendableOutput::File(p)) => arg@ != dash() && !is_dir && has_extension
                    && p@ == arg@,
                Err(e) => arg@ != dash() && (is_dir || !has_extension) && e
                    == IoError::Unsupported,
            },
    {
        if is_dash(arg) {
            Ok(JsonAppendableOutput::Stream)
        } else if is_dir || !has_extension {
            Err(IoError::Unsupported)
        } else {
            Ok(JsonAppendableOutput::File(arg.to_owned()))
        }
    }
}

/// Where written entries go: the standard output, a directory, or a file.
/// A path without an extension names a directory, made when needed.
#[derive(Debug)]
pub enum JsonWritableOutput {
    Stream,
    Directory(String),
    File(String),
}

impl JsonWritableOutput {
    /// Chooses the entry sink that an argument names, given whether the
    /// path is a directory and whether it carries an extension.
    pub fn select(arg: &str, is_dir: bool, has_extension: bool) -> (r: Result<
        JsonWritableOutput,
        IoError,
    >)
        ensures
            match r {
                Ok(JsonWritableOutput::Stream) => arg@ == dash(),
                Ok(JsonWritableOutput::Directory(p)) => arg@ != dash() && (is_dir
                    || !has_extension) && p@ == arg@,
                Ok(JsonWritableOutput::File(p)) => arg@ != dash() && !is_dir && has_extension
                    && p@ == arg@,
                Err(_) => false,
            },
    {
        if is_dash(arg) {
            Ok(JsonWritableOutput::Stream)
        } else if is_dir || !has_extension {
            Ok(JsonWritableOutput::Directory(arg.to_owned()))
        } else {
            Ok(JsonWritableOutput::File(arg.to_owned()))
        }
    }
}

} // verus!

verus! {

/// What a directory sink turns entries into: one file per entry, the
/// entry's name with `.json` appended, holding the value's compact or
/// pretty text per the sink's mode.
pub open spec fn dir_files_of(es: Seq<(Seq<char>, JsonV)>, pretty: bool) -> Seq<
    (Seq<char>, Seq<char>),
> {
    es.map(
        |i: int, e: (Seq<char>, JsonV)|
            (
                e.0 + seq!['.', 'j', 's', 'o', 'n'],
                if pretty {
                    crate::ser::pser(e.1, 0)
                } else {
                    crate::ser::ser(e.1)
                },
            ),
    )
}

/// Appending `.json` to a name puts the last dot right after the name.
proof fn lemma_stem_json(n: Seq<char>)
    ensures
        stem_of(n + seq!['.', 'j', 's', 'o', 'n']) == n,
{
    let t = n + seq!['.', 'j', 's', 'o', 'n'];
    let t1 = t.subrange(0, t.len() - 1);
    let t2 = t1.subrange(0, t1.len() - 1);
    let t3 = t2.subrange(0, t2.len() - 1);
    let t4 = t3.subrange(0, t3.len() - 1);
    assert(t1 =~= n + seq!['.', 'j', 's', 'o']);
    assert(t2 =~= n + seq!['.', 'j', 's']);
    assert(t3 =~= n + seq!['.', 'j']);
    assert(t4 =~= n + seq!['.']);
    assert(t.last() == 'n');
    assert(t1.last() == 'o');
    assert(t2.last() == 's');
    assert(t3.last() == 'j');
    assert(t4.last() == '.');
    assert(last_dot(t) == last_dot(t1));
    assert(last_dot(t1) == last_dot(t2));
    assert(last_dot(t2) == last_dot(t3));
    assert(last_dot(t3) == last_dot(t4));
    assert(last_dot(t4) == t4.len() - 1);
    assert(last_dot(t) == n.len());
    assert(t.subrange(0, n.len() as int) =~= n);
}

/// The directory round trip: writing entries as directory files, compact
/// or pretty, and reading the directory back yields the same entries, in
/// the same order.
pub proof fn lemma_directory_round_trip(es: Seq<(Seq<char>, JsonV)>, pretty: bool)
    requires
        crate::roundtrip::num_ok_members(es),
    ensures
        dir_entries(dir_files_of(es, pretty)) == es,
    decreases es.len(),
{
    crate::roundtrip::lemma_num_ok_members_index(es);
    if es.len() == 0 {
        assert(dir_entries(dir_files_of(es, pretty)) =~= es);
    } else {
        let front = es.subrange(0, es.len() - 1);
        crate::roundtrip::lemma_num_ok_members_index(front);
        assert forall|k: int| 0 <= k < front.len() implies crate::roundtrip::num_ok(
            #[trigger] front[k].1,
        ) by {
            assert(front[k] == es[k]);
        }
        lemma_directory_round_trip(front, pretty);
        let files = dir_files_of(es, pretty);
        assert(files.subrange(0, files.len() - 1) =~= dir_files_of(front, pretty));
        let e = es.last();
        if pretty {
            assert(files.last() == (e.0 + seq!['.', 'j', 's', 'o', 'n'], crate::ser::pser(e.1, 0)));
            crate::roundtrip::lemma_parse_of_pser(e.1);
        } else {
            assert(files.last() == (e.0 + seq!['.', 'j', 's', 'o', 'n'], crate::ser::ser(e.1)));
            crate::roundtrip::lemma_parse_of_ser(e.1);
        }
        lemma_stem_json(e.0);
        assert(dir_entries(files) =~= dir_entries(dir_files_of(front, pretty)).push((e.0, e.1)));
        assert(front.push((e.0, e.1)) =~= es);
    }
}

/// The same round trip when the files land in any other order: the set of
/// entries read back is the set written.
pub proof fn lemma_directory_round_trip_any_order(
    es: Seq<(Seq<char>, JsonV)>,
    written: Seq<(Seq<char>, JsonV)>,
    pretty: bool,
)
    requires
        crate::roundtrip::num_ok_members(written),
        written.to_multiset() == es.to_multiset(),
    ensures
        dir_entries(dir_files_of(written, pretty)).to_multiset() == es.to_multiset(),
{
    lemma_directory_round_trip(written, pretty);
}

} // verus!
