//! Bundling a set of named JSON entries into a stream of rows, and
//! unbundling a stream of rows back into named entries.
//!
//! Unbundling reads rows until a line fails to parse for running out of
//! text — the sign of clean stream exhaustion, which an empty line also
//! gives. A line that breaks the grammar in any other way is passed over,
//! and the row counter still moves past it.
use crate::codec::rewritten_at;
use crate::io::{Appendable, IoError, JsonReader, JsonSource, Writeable};
use crate::json::{jv_of, jv_of_members, lemma_jv_of_members, Json, JsonV};
use crate::parse::{sp_doc, ParseError};
use crate::pointer::{dots_to_slashes, jv_get, pointer_of, pointer_segments, segs_of, str_at};
use crate::ser::dec_digits;
use crate::strutil::push_char;
use vstd::prelude::*;
use vstd::string::{StrSliceExecFns, StringExecFns};

verus! {

/// The views of an optional list of dotted field paths; an absent list is
/// an empty one.
pub open spec fn paths_view(paths: Option<Vec<String>>) -> Seq<Seq<char>> {
    match paths {
        None => Seq::empty(),
        Some(l) => l@.map(|i: int, s: String| s@),
    }
}

/// The view of an optional dotted field path.
pub open spec fn opt_path_view(p: Option<String>) -> Option<Seq<char>> {
    match p {
        None => None,
        Some(s) => Some(s@),
    }
}

/// The value with every listed path rewritten in turn, escaping or
/// unescaping the target there.
pub open spec fn rewritten_all(v: JsonV, paths: Seq<Seq<char>>, escape: bool) -> JsonV
    decreases paths.len(),
{
    if paths.len() == 0 {
        v
    } else {
        rewritten_all(
            rewritten_at(v, segs_of(pointer_of(paths[0])), escape),
            paths.subrange(1, paths.len() as int),
            escape,
        )
    }
}

/// Rewrites the value at every listed path in turn.
fn apply_paths(v: &Json, paths: &Option<Vec<String>>, escape: bool) -> (r: Json)
    ensures
        r@ == rewritten_all(v@, paths_view(*paths), escape),
{
    match paths {
        None => v.deep_clone(),
        Some(list) => {
            let ghost pv = paths_view(*paths);
            let n = list.len();
            let mut cur = v.deep_clone();
            let mut j: usize = 0;
            proof {
                assert(pv.subrange(0, pv.len() as int) =~= pv);
            }
            while j < n
                invariant
                    j <= n,
                    n == list@.len(),
                    pv == list@.map(|i: int, s: String| s@),
                    rewritten_all(v@, pv, escape) == rewritten_all(
                        cur@,
                        pv.subrange(j as int, pv.len() as int),
                        escape,
                    ),
                decreases n - j,
            {
                let segs = pointer_segments(dots_to_slashes(list[j].as_str()).as_str());
                let ghost tail = pv.subrange(j as int, pv.len() as int);
                proof {
                    assert(tail[0] == pv[j as int]);
                    assert(tail.subrange(1, tail.len() as int) =~= pv.subrange(
                        j + 1 as int,
                        pv.len() as int,
                    ));
                }
                let next = crate::codec::rewrite_at(&cur, &segs, 0, escape);
                proof {
                    assert(segs@.map(|i: int, s: String| s@).subrange(0, segs@.len() as int)
                        =~= segs@.map(|i: int, s: String| s@));
                }
                cur = next;
                j = j + 1;
            }
            proof {
                assert(pv.subrange(n as int, pv.len() as int) =~= Seq::<Seq<char>>::empty());
            }
            cur
        },
    }
}

/// Six-digit decimal text of a row number, zero-padded on the left; a
/// larger number keeps all its digits.
pub open spec fn pad6(i: int) -> Seq<char> {
    let digs = dec_digits(i);
    if digs.len() >= 6 {
        digs
    } else {
        Seq::new((6 - digs.len()) as nat, |k: int| '0') + digs
    }
}

/// The fallback name of the row at place `i`.
pub open spec fn default_name(i: int) -> Seq<char> {
    seq!['o', 'b', 'j', 'e', 'c', 't', '-'] + pad6(i)
}

/// Builds the fallback name of the row at place `i`.
fn default_name_exec(i: usize) -> (r: String)
    ensures
        r@ == default_name(i as int),
{
    let mut digs = String::new();
    crate::ser::write_digits(i as u64, &mut digs);
    let mut out = String::new();
    out.append("object-");
    proof {
        reveal_strlit("object-");
        assert("object-"@ =~= seq!['o', 'b', 'j', 'e', 'c', 't', '-']);
    }
    let dlen = digs.as_str().unicode_len();
    let mut z: usize = dlen;
    while z < 6
        invariant
            dlen <= z <= 6 || (z == dlen && dlen >= 6),
            dlen == dec_digits(i as int).len(),
            digs@ == dec_digits(i as int),
            out@ == seq!['o', 'b', 'j', 'e', 'c', 't', '-'] + Seq::new(
                (z - dlen) as nat,
                |k: int| '0',
            ),
        decreases 6 - z,
    {
        push_char(&mut out, '0');
        proof {
            assert(out@ =~= seq!['o', 'b', 'j', 'e', 'c', 't', '-'] + Seq::new(
                (z + 1 - dlen) as nat,
                |k: int| '0',
            ));
        }
        z = z + 1;
    }
    out.append(digs.as_str());
    proof {
        if dlen >= 6 {
            assert(Seq::new(0nat, |k: int| '0') =~= Seq::<char>::empty());
            assert(out@ =~= default_name(i as int));
        } else {
            assert(out@ =~= default_name(i as int));
        }
    }
    out
}

/// The first listed path that leads to a string in the row, read out.
pub open spec fn probe_names(v: JsonV, names: Seq<Seq<char>>) -> Option<Seq<char>>
    decreases names.len(),
{
    if names.len() == 0 {
        None
    } else {
        match jv_get(v, segs_of(pointer_of(names[0]))) {
            Some(JsonV::Str(s)) => Some(s),
            _ => probe_names(v, names.subrange(1, names.len() as int)),
        }
    }
}

/// The name a row gets: the first name path that leads to a string, or the
/// numbered fallback; then the type path's string, if it leads to one,
/// joined with a dot.
pub open spec fn derived_name(
    v: JsonV,
    i: int,
    names: Seq<Seq<char>>,
    typ: Option<Seq<char>>,
) -> Seq<char> {
    let base = match probe_names(v, names) {
        Some(s) => s,
        None => default_name(i),
    };
    match typ {
        None => base,
        Some(p) => match jv_get(v, segs_of(pointer_of(p))) {
            Some(JsonV::Str(t)) => base + seq!['.'] + t,
            _ => base,
        },
    }
}

/// Derives the output name of the row at place `i`.
fn derive_name(v: &Json, i: usize, names: &Option<Vec<String>>, typ: &Option<String>) -> (r:
    String)
    ensures
        r@ == derived_name(v@, i as int, paths_view(*names), opt_path_view(*typ)),
{
    let ghost nv = paths_view(*names);
    let mut base: Option<String> = None;
    match names {
        None => {},
        Some(list) => {
            let n = list.len();
            let mut j: usize = 0;
            proof {
                assert(nv.subrange(0, nv.len() as int) =~= nv);
            }
            while j < n && base.is_none()
                invariant
                    j <= n,
                    n == list@.len(),
                    nv == list@.map(|q: int, s: String| s@),
                    match base {
                        Some(s) => probe_names(v@, nv) == Some(s@),
                        None => probe_names(v@, nv) == probe_names(
                            v@,
                            nv.subrange(j as int, nv.len() as int),
                        ),
                    },
                decreases n - j,
            {
                let segs = pointer_segments(dots_to_slashes(list[j].as_str()).as_str());
                let ghost tail = nv.subrange(j as int, nv.len() as int);
                proof {
                    assert(tail[0] == nv[j as int]);
                    assert(tail.subrange(1, tail.len() as int) =~= nv.subrange(
                        j + 1 as int,
                        nv.len() as int,
                    ));
                    assert(segs@.map(|q: int, s: String| s@).subrange(0, segs@.len() as int)
                        =~= segs@.map(|q: int, s: String| s@));
                }
                match str_at(v, &segs, 0) {
                    Some(s) => {
                        base = Some(s);
                    },
                    None => {},
                }
                j = j + 1;
            }
            proof {
                if base is None {
                    assert(nv.subrange(n as int, nv.len() as int) =~= Seq::<Seq<char>>::empty());
                }
            }
        },
    }
    let base_str: String = match base {
        Some(s) => s,
        None => default_name_exec(i),
    };
    match typ {
        None => base_str,
        Some(p) => {
            let segs = pointer_segments(dots_to_slashes(p.as_str()).as_str());
            proof {
                assert(segs@.map(|q: int, s: String| s@).subrange(0, segs@.len() as int)
                    =~= segs@.map(|q: int, s: String| s@));
            }
            match str_at(v, &segs, 0) {
                Some(t) => {
                    let mut out = base_str;
                    push_char(&mut out, '.');
                    out.append(t.as_str());
                    proof {
                        assert(out@ =~= derived_name(
                            v@,
                            i as int,
                            paths_view(*names),
                            opt_path_view(*typ),
                        ));
                    }
                    out
                },
                None => base_str,
            }
        },
    }
}

/// The rows that bundling a set of entries appends: each entry's value
/// with the listed paths escaped, in entry order.
pub open spec fn bundled_rows(es: Seq<(Seq<char>, JsonV)>, paths: Seq<Seq<char>>) -> Seq<JsonV> {
    es.map(|i: int, e: (Seq<char>, JsonV)| rewritten_all(e.1, paths, true))
}

/// The named entries that unbundling a stream of lines writes, the row
/// counter starting at `i`: each line that parses becomes its rewritten
/// row under its derived name; a line that fails mid-text ends the stream;
/// any other failing line is passed over, the counter still moving.
pub open spec fn unbundled_entries(
    lines: Seq<Seq<char>>,
    i: int,
    names: Seq<Seq<char>>,
    typ: Option<Seq<char>>,
    unesc: Seq<Seq<char>>,
) -> Seq<(Seq<char>, JsonV)>
    decreases lines.len(),
{
    if lines.len() == 0 {
        Seq::empty()
    } else {
        match sp_doc(lines[0]) {
            Err(ParseError::UnexpectedEnd) => Seq::empty(),
            Err(ParseError::Bad) => unbundled_entries(lines.drop_first(), i + 1, names, typ, unesc),
            Ok(v0) => {
                let v = rewritten_all(v0, unesc, false);
                seq![(derived_name(v, i, names, typ), v)] + unbundled_entries(
                    lines.drop_first(),
                    i + 1,
                    names,
                    typ,
                    unesc,
                )
            },
        }
    }
}

/// Bundles every entry of the source into the sink, one row each, escaping
/// the listed field paths in each row first. Rows go in the source's own
/// order. A sink that does not take rows at all — a directory — is refused
/// before anything is read; a sink that takes them delivers every row.
pub fn bundle<S: JsonSource, A: Appendable>(
    input: &S,
    output: &mut A,
    escape_fields: Option<Vec<String>>,
) -> (r: Result<(), IoError>)
    ensures
        r is Ok ==> final(output).appended() == old(output).appended() + bundled_rows(
            input.entries(),
            paths_view(escape_fields),
        ),
        r is Err ==> exists|k: int|
            0 <= k <= bundled_rows(input.entries(), paths_view(escape_fields)).len()
                && final(output).appended() == old(output).appended() + #[trigger] bundled_rows(
                input.entries(),
                paths_view(escape_fields),
            ).subrange(0, k),
        old(output).appends_ok() ==> r is Ok,
        !old(output).appends_ok() ==> r == Err::<(), IoError>(IoError::Unsupported)
            && *final(output) == *old(output),
{
    if !output.supports_append() {
        proof {
            let rows0 = bundled_rows(input.entries(), paths_view(escape_fields));
            assert(rows0.subrange(0, 0) =~= Seq::<JsonV>::empty());
            assert(output.appended() == old(output).appended() + rows0.subrange(0, 0));
        }
        return Err(IoError::Unsupported);
    }
    let ghost pv = paths_view(escape_fields);
    let ghost rows = bundled_rows(input.entries(), pv);
    let entries = input.get_entries(false);
    let n = entries.len();
    let mut k: usize = 0;
    proof {
        lemma_jv_of_members(entries@);
        assert(rows.subrange(0, 0) =~= Seq::<JsonV>::empty());
        assert(old(output).appended() + rows.subrange(0, 0) =~= old(output).appended());
    }
    while k < n
        invariant
            k <= n,
            n == entries@.len(),
            jv_of_members(entries@) == input.entries(),
            pv == paths_view(escape_fields),
            rows == bundled_rows(input.entries(), pv),
            rows.len() == n,
            forall|q: int|
                0 <= q < n ==> #[trigger] jv_of_members(entries@)[q] == (
                    entries@[q].0@,
                    jv_of(entries@[q].1),
                ),
            output.appended() == old(output).appended() + rows.subrange(0, k as int),
            output.appends_ok() == old(output).appends_ok(),
            old(output).appends_ok(),
        decreases n - k,
    {
        let row = apply_paths(&entries[k].1, &escape_fields, true);
        proof {
            assert(rows[k as int] == rewritten_all(jv_of_members(entries@)[k as int].1, pv, true));
        }
        let ghost pre = output.appended();
        match output.append(row) {
            Ok(()) => {},
            Err(e) => {
                proof {
                    assert(output.appended() == old(output).appended() + rows.subrange(
                        0,
                        k as int,
                    ));
                }
                return Err(e);
            },
        }
        proof {
            assert(rows.subrange(0, k + 1 as int) =~= rows.subrange(0, k as int).push(
                rows[k as int],
            ));
            assert(output.appended() =~= old(output).appended() + rows.subrange(0, k + 1 as int));
        }
        k = k + 1;
    }
    proof {
        assert(rows.subrange(0, n as int) =~= rows);
    }
    Ok(())
}

/// Bundles the entries of a source into a row sink.
pub struct NdjsonBundler<S: JsonSource, A: Appendable> {
    pub input: S,
    pub output: A,
}

impl<S: JsonSource, A: Appendable> NdjsonBundler<S, A> {
    /// A bundler over the given source and sink.
    pub fn new(input: S, output: A) -> (r: NdjsonBundler<S, A>)
        ensures
            r.input == input,
            r.output == output,
    {
        NdjsonBundler { input, output }
    }

    /// Bundles every entry into the sink, escaping the listed field paths
    /// in each row first. A sink that does not take rows — a directory —
    /// is refused before anything is read.
    pub fn bundle(&mut self, json_fields: Option<Vec<String>>) -> (r: Result<(), IoError>)
        ensures
            r is Ok ==> final(self).output.appended() == old(self).output.appended()
                + bundled_rows(old(self).input.entries(), paths_view(json_fields)),
            r is Err ==> exists|k: int|
                0 <= k <= bundled_rows(old(self).input.entries(), paths_view(json_fields)).len()
                    && final(self).output.appended() == old(self).output.appended()
                    + #[trigger] bundled_rows(
                    old(self).input.entries(),
                    paths_view(json_fields),
                ).subrange(0, k),
            old(self).output.appends_ok() ==> r is Ok,
            !old(self).output.appends_ok() ==> r == Err::<(), IoError>(IoError::Unsupported)
                && final(self).output.appended() == old(self).output.appended(),
    {
        self.read_entries_to_output(json_fields)
    }

    /// Reads every entry of the source and appends its row to the sink,
    /// refusing a sink that does not take rows before anything is read.
    pub fn read_entries_to_output(&mut self, json_fields: Option<Vec<String>>) -> (r: Result<
        (),
        IoError,
    >)
        ensures
            r is Ok ==> final(self).output.appended() == old(self).output.appended()
                + bundled_rows(old(self).input.entries(), paths_view(json_fields)),
            r is Err ==> exists|k: int|
                0 <= k <= bundled_rows(old(self).input.entries(), paths_view(json_fields)).len()
                    && final(self).output.appended() == old(self).output.appended()
                    + #[trigger] bundled_rows(
                    old(self).input.entries(),
                    paths_view(json_fields),
                ).subrange(0, k),
            old(self).output.appends_ok() ==> r is Ok,
            !old(self).output.appends_ok() ==> r == Err::<(), IoError>(IoError::Unsupported)
                && final(self).output.appended() == old(self).output.appended(),
    {
        bundle(&self.input, &mut self.output, json_fields)
    }
}

/// Unbundles a stream of rows into named entries in a sink.
pub struct NdjsonUnbundler<R: JsonReader, W: Writeable> {
    pub input: R,
    pub output: W,
    pub unescape_paths: Option<Vec<String>>,
}

impl<R: JsonReader, W: Writeable> NdjsonUnbundler<R, W> {
    /// An unbundler over the given reader and sink, unescaping the listed
    /// field paths in each row.
    pub fn new(input: R, output: W, unescape_fields: Option<Vec<String>>) -> (r: NdjsonUnbundler<
        R,
        W,
    >)
        ensures
            r.input == input,
            r.output == output,
            r.unescape_paths == unescape_fields,
    {
        NdjsonUnbundler { input, output, unescape_paths: unescape_fields }
    }

    /// The row with this unbundler's listed field paths unescaped.
    pub fn unescape_fields(&self, json: Json) -> (r: Json)
        ensures
            r@ == rewritten_all(json@, paths_view(self.unescape_paths), false),
    {
        apply_paths(&json, &self.unescape_paths, false)
    }

    /// Reads rows until the stream runs out, writing each one that parses
    /// to the sink under its derived name: the first `name` path leading
    /// to a string in the row, or a numbered fallback, with the string at
    /// `type_field` as a dotted suffix when it leads to one. A line that
    /// fails mid-text ends the run; any other failing line is passed over.
    pub fn unbundle(&mut self, name: Option<Vec<String>>, type_field: Option<String>) -> (r:
        Result<(), IoError>)
        requires
            old(self).input.remaining().len() <= usize::MAX,
        ensures
            r is Ok ==> final(self).output.written() == old(self).output.written()
                + unbundled_entries(
                old(self).input.remaining(),
                0,
                paths_view(name),
                opt_path_view(type_field),
                paths_view(old(self).unescape_paths),
            ),
            r is Err ==> exists|k: int|
                0 <= k <= unbundled_entries(
                    old(self).input.remaining(),
                    0,
                    paths_view(name),
                    opt_path_view(type_field),
                    paths_view(old(self).unescape_paths),
                ).len() && final(self).output.written() == old(self).output.written()
                    + #[trigger] unbundled_entries(
                    old(self).input.remaining(),
                    0,
                    paths_view(name),
                    opt_path_view(type_field),
                    paths_view(old(self).unescape_paths),
                ).subrange(0, k),
            old(self).output.writes_ok() ==> r is Ok,
    {
        let ghost names_v = paths_view(name);
        let ghost typ_v = opt_path_view(type_field);
        let ghost unesc_v = paths_view(old(self).unescape_paths);
        let ghost rem0 = old(self).input.remaining();
        let ghost written0 = old(self).output.written();
        let ghost expected = unbundled_entries(rem0, 0, names_v, typ_v, unesc_v);
        let mut i: usize = 0;
        proof {
            assert(self.output.written().subrange(0, written0.len() as int) =~= written0);
            assert(self.output.written().subrange(
                written0.len() as int,
                self.output.written().len() as int,
            ) =~= Seq::<(Seq<char>, JsonV)>::empty());
            assert(Seq::<(Seq<char>, JsonV)>::empty() + expected =~= expected);
        }
        loop
            invariant_except_break
                i as int == rem0.len() - self.input.remaining().len(),
                expected == self.output.written().subrange(
                    written0.len() as int,
                    self.output.written().len() as int,
                ) + unbundled_entries(self.input.remaining(), i as int, names_v, typ_v, unesc_v),
            invariant
                self.unescape_paths == old(self).unescape_paths,
                self.output.writes_ok() == old(self).output.writes_ok(),
                unesc_v == paths_view(self.unescape_paths),
                names_v == paths_view(name),
                typ_v == opt_path_view(type_field),
                rem0 == old(self).input.remaining(),
                written0 == old(self).output.written(),
                expected == unbundled_entries(rem0, 0, names_v, typ_v, unesc_v),
                rem0.len() <= usize::MAX,
                self.output.written().len() >= written0.len(),
                self.output.written().subrange(0, written0.len() as int) == written0,
            ensures
                self.unescape_paths == old(self).unescape_paths,
                self.output.written().len() >= written0.len(),
                self.output.written().subrange(0, written0.len() as int) == written0,
                expected == self.output.written().subrange(
                    written0.len() as int,
                    self.output.written().len() as int,
                ),
            decreases self.input.remaining().len(),
        {
            let ghost rem_pre = self.input.remaining();
            let ghost done_pre = self.output.written().subrange(
                written0.len() as int,
                self.output.written().len() as int,
            );
            let mut buf = String::new();
            self.input.read_line(&mut buf);
            match Json::from_text(buf.as_str()) {
                Err(ParseError::UnexpectedEnd) => {
                    proof {
                        if rem_pre.len() > 0 {
                            assert(buf@ == rem_pre[0]);
                            assert(unbundled_entries(rem_pre, i as int, names_v, typ_v, unesc_v)
                                =~= Seq::<(Seq<char>, JsonV)>::empty());
                        }
                        assert(done_pre + Seq::<(Seq<char>, JsonV)>::empty() =~= done_pre);
                    }
                    break ;
                },
                Err(ParseError::Bad) => {
                    proof {
                        assert(rem_pre.len() > 0);
                        assert(buf@ == rem_pre[0]);
                        assert(self.input.remaining() == rem_pre.drop_first());
                    }
                },
                Ok(json) => {
                    proof {
                        assert(rem_pre.len() > 0);
                        assert(buf@ == rem_pre[0]);
                    }
                    let row = apply_paths(&json, &self.unescape_paths, false);
                    let nm = derive_name(&row, i, &name, &type_field);
                    let ghost pair = (nm@, row@);
                    let mut batch: Vec<(String, Json)> = Vec::new();
                    batch.push((nm, row));
                    proof {
                        lemma_jv_of_members(batch@);
                        assert(jv_of_members(batch@) =~= seq![pair]);
                    }
                    let ghost w_pre = self.output.written();
                    match self.output.write_entries(batch) {
                        Ok(()) => {},
                        Err(e) => {
                            proof {
                                assert(expected.subrange(0, done_pre.len() as int) =~= done_pre);
                                assert(self.output.written() =~= written0 + expected.subrange(
                                    0,
                                    done_pre.len() as int,
                                ));
                                assert(self.output.written() == old(self).output.written()
                                    + unbundled_entries(
                                    old(self).input.remaining(),
                                    0,
                                    paths_view(name),
                                    opt_path_view(type_field),
                                    paths_view(old(self).unescape_paths),
                                ).subrange(0, done_pre.len() as int));
                            }
                            return Err(e);
                        },
                    }
                    proof {
                        assert(self.output.written().subrange(0, written0.len() as int)
                            =~= written0);
                        assert(self.output.written().subrange(
                            written0.len() as int,
                            self.output.written().len() as int,
                        ) =~= done_pre.push(pair));
                        assert(unbundled_entries(rem_pre, i as int, names_v, typ_v, unesc_v)
                            =~= seq![pair] + unbundled_entries(
                            rem_pre.drop_first(),
                            i + 1,
                            names_v,
                            typ_v,
                            unesc_v,
                        ));
                        assert(done_pre + (seq![pair] + unbundled_entries(
                            rem_pre.drop_first(),
                            i + 1,
                            names_v,
                            typ_v,
                            unesc_v,
                        )) =~= done_pre.push(pair) + unbundled_entries(
                            rem_pre.drop_first(),
                            i + 1,
                            names_v,
                            typ_v,
                            unesc_v,
                        ));
                    }
                },
            }
            i = i + 1;
        }
        proof {
            assert(self.output.written() =~= written0 + expected);
        }
        Ok(())
    }
}

} // verus!

verus! {

/// The texts a faithful row sink puts out: one line of compact text per
/// appended row.
pub open spec fn rendered_lines(rows: Seq<JsonV>) -> Seq<Seq<char>> {
    rows.map(|i: int, v: JsonV| crate::ser::ser(v))
}

/// The bundle–unbundle round trip: bundling entries with nothing escaped
/// and unbundling the rendered rows with a name path that leads to a
/// string in every value writes back exactly the original values, each
/// under the name its own field carries, whatever the counter start.
pub proof fn lemma_bundle_then_unbundle(
    es: Seq<(Seq<char>, JsonV)>,
    name_path: Seq<char>,
    i0: int,
)
    requires
        crate::roundtrip::num_ok_members(es),
        forall|k: int|
            0 <= k < es.len() ==> ((#[trigger] jv_get(
                es[k].1,
                segs_of(pointer_of(name_path)),
            )) matches Some(nm) && nm is Str),
    ensures
        ({
            let r = unbundled_entries(
                rendered_lines(bundled_rows(es, Seq::empty())),
                i0,
                seq![name_path],
                None,
                Seq::empty(),
            );
            &&& r.len() == es.len()
            &&& forall|k: int|
                0 <= k < es.len() ==> (#[trigger] r[k]).1 == es[k].1 && Some(
                    JsonV::Str(r[k].0),
                ) == jv_get(es[k].1, segs_of(pointer_of(name_path)))
        }),
    decreases es.len(),
{
    let lines = rendered_lines(bundled_rows(es, Seq::empty()));
    if es.len() > 0 {
        let v0 = es[0].1;
        crate::roundtrip::lemma_num_ok_members_index(es);
        crate::roundtrip::lemma_parse_of_ser(v0);
        assert(bundled_rows(es, Seq::empty())[0] == rewritten_all(v0, Seq::empty(), true));
        assert(rewritten_all(v0, Seq::empty(), true) == v0);
        assert(lines[0] == crate::ser::ser(v0));
        assert(sp_doc(lines[0]) == Ok::<JsonV, ParseError>(v0));
        assert(rewritten_all(v0, Seq::empty(), false) == v0);
        let segs = segs_of(pointer_of(name_path));
        let nm = jv_get(v0, segs)->Some_0;
        assert(seq![name_path][0] == name_path);
        assert(probe_names(v0, seq![name_path]) == Some(nm->Str_0));
        assert(derived_name(v0, i0, seq![name_path], None) == nm->Str_0);
        let tail = es.subrange(1, es.len() as int);
        crate::roundtrip::lemma_num_ok_members_index(tail);
        assert forall|k: int| 0 <= k < tail.len() implies crate::roundtrip::num_ok(
            #[trigger] tail[k].1,
        ) by {
            assert(tail[k] == es[k + 1]);
        }
        assert forall|k: int|
            0 <= k < tail.len() implies ((#[trigger] jv_get(tail[k].1, segs)) matches Some(x)
            && x is Str) by {
            assert(tail[k] == es[k + 1]);
        }
        lemma_bundle_then_unbundle(tail, name_path, i0 + 1);
        assert(lines.drop_first() =~= rendered_lines(bundled_rows(tail, Seq::empty())));
        let rt = unbundled_entries(
            rendered_lines(bundled_rows(tail, Seq::empty())),
            i0 + 1,
            seq![name_path],
            None,
            Seq::empty(),
        );
        let r = unbundled_entries(lines, i0, seq![name_path], None, Seq::empty());
        assert(r == seq![(nm->Str_0, v0)] + rt);
        assert forall|k: int|
            0 <= k < es.len() implies (#[trigger] r[k]).1 == es[k].1 && Some(JsonV::Str(r[k].0))
            == jv_get(es[k].1, segs) by {
            if k > 0 {
                assert(r[k] == rt[k - 1]);
                assert(tail[k - 1] == es[k]);
            }
        }
    } else {
        assert(lines.len() == 0);
    }
}

} // verus!
