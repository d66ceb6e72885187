//! The full-text index engine: documents, chunking and index operations.

use vstd::prelude::*;
use vstd::multiset::Multiset;
use crate::sys::global::{to_global_result, GlobalError, GlobalResult};
use crate::util::path_utils::{
    file_name_of, name_after_last_slash, slash_path, to_slash_path,
};
use crate::util::text_utils::{push_char, str_eq};

verus! {

broadcast use vstd::seq_lib::group_to_multiset_ensures, vstd::multiset::group_multiset_axioms;

/// A sentence-like boundary at which a chunk may close.
pub open spec fn is_terminator(c: char) -> bool {
    c == '.' || c == ',' || c == '\u{3002}' || c == '?' || c == '\u{ff1f}' || c == '!'
        || c == '\u{ff01}'
}

/// Whitespace that collapses to a single space during normalisation:
/// space, tab, the vertical tab and form feed, the next-line control,
/// and the Unicode space separators (no-break, ogham, the en/em family,
/// line and paragraph separators, narrow no-break, mathematical and
/// ideographic spaces).  Line feed and carriage return are removed
/// before collapsing and so are not listed here.
pub open spec fn is_space(c: char) -> bool {
    ||| c as u32 == 0x20
    ||| c as u32 == 0x09
    ||| c as u32 == 0x0b
    ||| c as u32 == 0x0c
    ||| c as u32 == 0x85
    ||| c as u32 == 0xa0
    ||| c as u32 == 0x1680
    ||| (0x2000 <= c as u32 && c as u32 <= 0x200a)
    ||| c as u32 == 0x2028
    ||| c as u32 == 0x2029
    ||| c as u32 == 0x202f
    ||| c as u32 == 0x205f
    ||| c as u32 == 0x3000
}

/// Decides `is_space` on one character.
fn is_space_char(c: char) -> (r: bool)
    ensures
        r == is_space(c),
{
    let u = c as u32;
    u == 0x20 || u == 0x09 || u == 0x0b || u == 0x0c || u == 0x85 || u == 0xa0 || u == 0x1680
        || (0x2000 <= u && u <= 0x200a) || u == 0x2028 || u == 0x2029 || u == 0x202f || u
        == 0x205f || u == 0x3000
}

/// Text normalisation: line breaks vanish, and every remaining run of
/// whitespace becomes one space.  `prev_space` records whether a space
/// was just emitted.
pub open spec fn norm_rec(s: Seq<char>, prev_space: bool) -> Seq<char>
    decreases s.len(),
{
    if s.len() == 0 {
        Seq::empty()
    } else if s[0] == '\n' || s[0] == '\r' {
        norm_rec(s.drop_first(), prev_space)
    } else if is_space(s[0]) {
        if prev_space {
            norm_rec(s.drop_first(), true)
        } else {
            seq![' '] + norm_rec(s.drop_first(), true)
        }
    } else {
        seq![s[0]] + norm_rec(s.drop_first(), false)
    }
}

pub open spec fn normalized(s: Seq<char>) -> Seq<char> {
    norm_rec(s, false)
}

/// Chunking with accumulator `acc`: a chunk closes right after a
/// terminator once it holds at least `maxlen` characters, or right after
/// any character once it has grown past `2 * maxlen`.  The final partial
/// chunk is kept when non-empty.
pub open spec fn chunk_rec(text: Seq<char>, maxlen: nat, acc: Seq<char>) -> Seq<Seq<char>>
    decreases text.len(),
{
    if text.len() == 0 {
        if acc.len() == 0 {
            Seq::empty()
        } else {
            seq![acc]
        }
    } else {
        let c = text[0];
        if (is_terminator(c) && acc.len() >= maxlen) || acc.len() > 2 * maxlen {
            seq![acc.push(c)] + chunk_rec(text.drop_first(), maxlen, Seq::empty())
        } else {
            chunk_rec(text.drop_first(), maxlen, acc.push(c))
        }
    }
}

pub open spec fn chunks_of(text: Seq<char>, maxlen: nat) -> Seq<Seq<char>> {
    chunk_rec(text, maxlen, Seq::empty())
}

/// The chunks a document's content is split into: as `chunks_of`, but
/// empty content still yields one empty chunk, so that every source
/// file produces at least one document and stays findable by its name.
pub open spec fn content_chunks(text: Seq<char>) -> Seq<Seq<char>> {
    let cs = chunks_of(text, 1000);
    if cs.len() == 0 {
        seq![Seq::<char>::empty()]
    } else {
        cs
    }
}

pub open spec fn concat_chunks(cs: Seq<Seq<char>>) -> Seq<char>
    decreases cs.len(),
{
    if cs.len() == 0 {
        Seq::empty()
    } else {
        cs[0] + concat_chunks(cs.drop_first())
    }
}

proof fn lemma_chunk_rec_concat(text: Seq<char>, maxlen: nat, acc: Seq<char>)
    ensures
        concat_chunks(chunk_rec(text, maxlen, acc)) =~= acc + text,
    decreases text.len(),
{
    if text.len() == 0 {
        if acc.len() == 0 {
            assert(concat_chunks(chunk_rec(text, maxlen, acc)) =~= acc + text);
        } else {
            assert(seq![acc].drop_first() =~= Seq::<Seq<char>>::empty());
            assert(seq![acc].len() == 1);
            assert(seq![acc][0] == acc);
            assert(concat_chunks(Seq::<Seq<char>>::empty()) == Seq::<char>::empty());
            assert(concat_chunks(seq![acc]) =~= acc + Seq::<char>::empty());
            assert(acc + Seq::<char>::empty() =~= acc + text);
        }
    } else {
        let c = text[0];
        if (is_terminator(c) && acc.len() >= maxlen) || acc.len() > 2 * maxlen {
            let rest = chunk_rec(text.drop_first(), maxlen, Seq::empty());
            lemma_chunk_rec_concat(text.drop_first(), maxlen, Seq::empty());
            assert((seq![acc.push(c)] + rest).drop_first() =~= rest);
            assert(concat_chunks(seq![acc.push(c)] + rest) =~= acc.push(c) + concat_chunks(rest));
            assert(Seq::<char>::empty() + text.drop_first() =~= text.drop_first());
            assert(acc.push(c) + text.drop_first() =~= acc + text);
        } else {
            lemma_chunk_rec_concat(text.drop_first(), maxlen, acc.push(c));
            assert(acc.push(c) + text.drop_first() =~= acc + text);
        }
    }
}

/// Concatenating all chunks reproduces the chunked text exactly.
pub proof fn lemma_chunks_round_trip(text: Seq<char>, maxlen: nat)
    ensures
        concat_chunks(chunks_of(text, maxlen)) == text,
{
    lemma_chunk_rec_concat(text, maxlen, Seq::empty());
    assert(Seq::<char>::empty() + text =~= text);
}

proof fn lemma_chunk_rec_bound(text: Seq<char>, maxlen: nat, acc: Seq<char>)
    requires
        acc.len() <= 2 * maxlen + 1,
    ensures
        forall|k: int|
            0 <= k < chunk_rec(text, maxlen, acc).len() ==> #[trigger] chunk_rec(
                text,
                maxlen,
                acc,
            )[k].len() <= 2 * maxlen + 2,
    decreases text.len(),
{
    if text.len() == 0 {
        assert forall|k: int| 0 <= k < chunk_rec(text, maxlen, acc).len() implies #[trigger] chunk_rec(
            text,
            maxlen,
            acc,
        )[k].len() <= 2 * maxlen + 2 by {
            assert(chunk_rec(text, maxlen, acc)[k] == acc);
        }
    } else {
        let c = text[0];
        if (is_terminator(c) && acc.len() >= maxlen) || acc.len() > 2 * maxlen {
            lemma_chunk_rec_bound(text.drop_first(), maxlen, Seq::empty());
            let rest = chunk_rec(text.drop_first(), maxlen, Seq::empty());
            assert forall|k: int| 0 <= k < chunk_rec(text, maxlen, acc).len() implies #[trigger] chunk_rec(
                text,
                maxlen,
                acc,
            )[k].len() <= 2 * maxlen + 2 by {
                if k > 0 {
                    assert(chunk_rec(text, maxlen, acc)[k] == rest[k - 1]);
                } else {
                    assert(chunk_rec(text, maxlen, acc)[0] == acc.push(c));
                }
            }
        } else {
            lemma_chunk_rec_bound(text.drop_first(), maxlen, acc.push(c));
            assert(chunk_rec(text, maxlen, acc) == chunk_rec(text.drop_first(), maxlen, acc.push(c)));
        }
    }
}

/// No chunk ever exceeds `2 * maxlen + 2` characters: at most the
/// runaway guard's `2 * maxlen + 1` accumulated characters plus the one
/// closing character.
pub proof fn lemma_chunks_bounded(text: Seq<char>, maxlen: nat)
    ensures
        forall|k: int|
            0 <= k < chunks_of(text, maxlen).len() ==> #[trigger] chunks_of(text, maxlen)[k].len()
                <= 2 * maxlen + 2,
{
    lemma_chunk_rec_bound(text, maxlen, Seq::empty());
}

/// One pass over `s` producing the normalised text.
pub fn normalize_text(s: &str) -> (r: String)
    ensures
        r@ == normalized(s@),
{
    let n = s.unicode_len();
    let mut out = String::new();
    let mut prev_space = false;
    let mut i: usize = 0;
    proof {
        assert(s@.subrange(0, n as int) =~= s@);
    }
    while i < n
        invariant
            n == s@.len(),
            i <= n,
            normalized(s@) == out@ + norm_rec(s@.subrange(i as int, n as int), prev_space),
        decreases n - i,
    {
        let ghost rem = s@.subrange(i as int, n as int);
        proof {
            assert(rem[0] == s@[i as int]);
            assert(rem.drop_first() =~= s@.subrange(i + 1, n as int));
        }
        let c = s.get_char(i);
        if c == '\n' || c == '\r' {
            // dropped entirely; the flag is untouched
        } else if is_space_char(c) {
            if !prev_space {
                let ghost out0 = out@;
                push_char(&mut out, ' ');
                proof {
                    assert(out0.push(' ') + norm_rec(rem.drop_first(), true) =~= out0 + (seq![' ']
                        + norm_rec(rem.drop_first(), true)));
                }
            }
            prev_space = true;
        } else {
            let ghost out0 = out@;
            push_char(&mut out, c);
            proof {
                assert(out0.push(c) + norm_rec(rem.drop_first(), false) =~= out0 + (seq![c]
                    + norm_rec(rem.drop_first(), false)));
            }
            prev_space = false;
        }
        proof {
            assert(normalized(s@) == out@ + norm_rec(s@.subrange(i + 1, n as int), prev_space));
        }
        i = i + 1;
    }
    proof {
        assert(s@.subrange(n as int, n as int) =~= Seq::<char>::empty());
        assert(out@ + Seq::<char>::empty() =~= out@);
    }
    out
}

/// One queryable unit of the index: a chunk of one file's content.
pub struct IndexDocument {
    pub index_dir_id: i64,
    pub file_path: String,
    pub file_name: String,
    pub file_content: String,
}

impl IndexDocument {
    pub fn new() -> (r: Self)
        ensures
            r.index_dir_id == 0,
            r.file_path@ == Seq::<char>::empty(),
            r.file_name@ == Seq::<char>::empty(),
            r.file_content@ == Seq::<char>::empty(),
    {
        IndexDocument {
            index_dir_id: 0,
            file_path: String::new(),
            file_name: String::new(),
            file_content: String::new(),
        }
    }

    /// Splits `content` into indexable chunks of roughly `len` characters,
    /// closing a chunk at a sentence terminator once it is long enough and
    /// unconditionally once it has grown past twice `len`.
    pub fn split_content(content: &str, len: usize) -> (r: Vec<String>)
        requires
            len <= usize::MAX / 2,
        ensures
            r.deep_view() == chunks_of(content@, len as nat),
    {
        let n = content.unicode_len();
        let mut out: Vec<String> = Vec::new();
        let mut sub = String::new();
        let mut sub_n: usize = 0;
        let mut i: usize = 0;
        proof {
            assert(content@.subrange(0, n as int) =~= content@);
            assert(out.deep_view() =~= Seq::<Seq<char>>::empty());
            assert(Seq::<Seq<char>>::empty() + chunk_rec(content@, len as nat, Seq::empty())
                =~= chunk_rec(content@, len as nat, Seq::empty()));
        }
        while i < n
            invariant
                n == content@.len(),
                i <= n,
                len <= usize::MAX / 2,
                sub_n == sub@.len(),
                sub_n <= 2 * len + 1,
                chunks_of(content@, len as nat) == out.deep_view() + chunk_rec(
                    content@.subrange(i as int, n as int),
                    len as nat,
                    sub@,
                ),
            decreases n - i,
        {
            let ghost rem = content@.subrange(i as int, n as int);
            proof {
                assert(rem[0] == content@[i as int]);
                assert(rem.drop_first() =~= content@.subrange(i + 1, n as int));
            }
            let c = content.get_char(i);
            let terminator = c == '.' || c == ',' || c == '\u{3002}' || c == '?'
                || c == '\u{ff1f}' || c == '!' || c == '\u{ff01}';
            if (terminator && sub_n >= len) || sub_n > 2 * len {
                let ghost out0 = out.deep_view();
                let ghost sub0 = sub@;
                push_char(&mut sub, c);
                out.push(sub);
                sub = String::new();
                sub_n = 0;
                proof {
                    assert(out.deep_view() =~= out0.push(sub0.push(c)));
                    let rest = chunk_rec(rem.drop_first(), len as nat, Seq::empty());
                    assert(chunk_rec(rem, len as nat, sub0) =~= seq![sub0.push(c)] + rest);
                    assert(out0 + (seq![sub0.push(c)] + rest) =~= out0.push(sub0.push(c)) + rest);
                    assert(sub@ =~= Seq::<char>::empty());
                }
            } else {
                push_char(&mut sub, c);
                sub_n = sub_n + 1;
            }
            proof {
                assert(chunks_of(content@, len as nat) == out.deep_view() + chunk_rec(
                    content@.subrange(i + 1, n as int),
                    len as nat,
                    sub@,
                ));
            }
            i = i + 1;
        }
        proof {
            assert(content@.subrange(n as int, n as int) =~= Seq::<char>::empty());
        }
        if sub_n > 0 {
            let ghost out0 = out.deep_view();
            let ghost sub0 = sub@;
            out.push(sub);
            proof {
                assert(out.deep_view() =~= out0.push(sub0));
                assert(out0 + seq![sub0] =~= out0.push(sub0));
            }
        } else {
            proof {
                assert(out.deep_view() + Seq::<Seq<char>>::empty() =~= out.deep_view());
            }
        }
        out
    }

    /// Builds one document per chunk of the normalised content — one
    /// empty-content document when there is no content — all under the
    /// same partition, carrying the slash-normalised path and the name
    /// after its last separator.
    pub fn split_to_list(file_path: String, content: String, index_dir_id: i64) -> (r: Vec<Self>)
        ensures
            r@.len() == content_chunks(normalized(content@)).len(),
            r@.len() >= 1,
            forall|k: int|
                0 <= k < r@.len() ==> {
                    &&& (#[trigger] r@[k]).index_dir_id == index_dir_id
                    &&& r@[k].file_path@ == slash_path(file_path@)
                    &&& r@[k].file_name@ == name_after_last_slash(slash_path(file_path@))
                    &&& r@[k].file_content@ == content_chunks(normalized(content@))[k]
                },
    {
        let normalized_content = normalize_text(content.as_str());
        let mut contents = Self::split_content(normalized_content.as_str(), 1000);
        if contents.len() == 0 {
            let ghost pre = contents.deep_view();
            contents.push(String::new());
            proof {
                assert(contents.deep_view() =~= pre.push(Seq::<char>::empty()));
                assert(contents.deep_view() =~= seq![Seq::<char>::empty()]);
            }
        }
        let path = to_slash_path(file_path.as_str());
        let name = file_name_of(path.as_str());
        let mut docs: Vec<IndexDocument> = Vec::new();
        let mut i: usize = 0;
        while i < contents.len()
            invariant
                i <= contents.len(),
                contents.deep_view() == content_chunks(normalized(content@)),
                path@ == slash_path(file_path@),
                name@ == name_after_last_slash(slash_path(file_path@)),
                docs@.len() == i,
                forall|k: int|
                    0 <= k < i ==> {
                        &&& (#[trigger] docs@[k]).index_dir_id == index_dir_id
                        &&& docs@[k].file_path@ == slash_path(file_path@)
                        &&& docs@[k].file_name@ == name_after_last_slash(slash_path(file_path@))
                        &&& docs@[k].file_content@ == content_chunks(normalized(content@))[k]
                    },
            decreases contents.len() - i,
        {
            proof {
                assert(contents.deep_view()[i as int] == contents@[i as int]@);
            }
            docs.push(IndexDocument {
                index_dir_id,
                file_path: path.clone(),
                file_name: name.clone(),
                file_content: contents[i].clone(),
            });
            i = i + 1;
        }
        docs
    }
}

/// The engine's index handle, opaque to the proofs; its contents are
/// modelled by `index_docs`.
#[verifier::external_type_specification]
#[verifier::external_body]
pub struct ExIndex(tantivy::Index);

/// The engine's batch writer, opaque to the proofs, which track it
/// through `staged_docs` and `staged_deletes` alone.
#[verifier::external_body]
pub struct BatchWriter {
    inner: tantivy::IndexWriter<tantivy::TantivyDocument>,
}

#[verifier::external_type_specification]
#[verifier::external_body]
pub struct ExTantivyDocument(tantivy::TantivyDocument);

#[verifier::external_type_specification]
#[verifier::external_body]
pub struct ExField(tantivy::schema::Field);

#[verifier::external_type_specification]
#[verifier::external_body]
pub struct ExTantivyError(tantivy::TantivyError);

/// One indexed document as plain values: partition, path, name, content.
pub open spec fn doc_view(d: IndexDocument) -> (i64, Seq<char>, Seq<char>, Seq<char>) {
    (d.index_dir_id, d.file_path@, d.file_name@, d.file_content@)
}

pub open spec fn docs_multiset(s: Seq<IndexDocument>) -> Multiset<
    (i64, Seq<char>, Seq<char>, Seq<char>),
> {
    s.map_values(|d: IndexDocument| doc_view(d)).to_multiset()
}

/// The committed documents of the index behind this handle.
pub uninterp spec fn index_docs(i: tantivy::Index) -> Multiset<
    (i64, Seq<char>, Seq<char>, Seq<char>),
>;

/// The documents this writer has staged and not yet committed.
pub uninterp spec fn staged_docs(w: BatchWriter) -> Multiset<
    (i64, Seq<char>, Seq<char>, Seq<char>),
>;

/// The partitions this writer has marked for deletion and not yet
/// committed.
pub uninterp spec fn staged_deletes(w: BatchWriter) -> Set<i64>;

/// A writer with nothing staged, neither additions nor deletions.
pub open spec fn writer_clean(w: BatchWriter) -> bool {
    &&& staged_docs(w) == Multiset::<(i64, Seq<char>, Seq<char>, Seq<char>)>::empty()
    &&& staged_deletes(w) == Set::<i64>::empty()
}

/// The writer was created from the engine behind this index handle;
/// its commits publish into exactly that index.
pub uninterp spec fn writer_for(w: BatchWriter, i: tantivy::Index) -> bool;

/// The handle names this field of the index's schema.
pub uninterp spec fn field_named(i: tantivy::Index, f: tantivy::schema::Field, name: Seq<char>) -> bool;

/// What the engine's integer field reader yields on this document and
/// field; a function of the two values alone.
pub uninterp spec fn doc_i64_at(d: tantivy::TantivyDocument, f: tantivy::schema::Field) -> Option<
    i64,
>;

/// What the engine's text field reader yields on this document and
/// field; a function of the two values alone.
pub uninterp spec fn doc_text_at(d: tantivy::TantivyDocument, f: tantivy::schema::Field) -> Option<
    Seq<char>,
>;

/// The record the library rebuilds from one stored document: each field
/// is what the reader yields there, with the record defaults where the
/// document carries nothing.
pub open spec fn record_of(
    d: tantivy::TantivyDocument,
    f_id: tantivy::schema::Field,
    f_name: tantivy::schema::Field,
    f_path: tantivy::schema::Field,
    f_content: tantivy::schema::Field,
) -> (i64, Seq<char>, Seq<char>, Seq<char>) {
    (
        match doc_i64_at(d, f_id) {
            Some(v) => v,
            None => 0,
        },
        match doc_text_at(d, f_path) {
            Some(t) => t,
            None => Seq::empty(),
        },
        match doc_text_at(d, f_name) {
            Some(t) => t,
            None => Seq::empty(),
        },
        match doc_text_at(d, f_content) {
            Some(t) => t,
            None => Seq::empty(),
        },
    )
}

/// The record sequence `v` is, element by element, the reconstruction
/// of the stored documents `ds` under these field handles.
pub open spec fn records_of(
    ds: Seq<tantivy::TantivyDocument>,
    v: Seq<IndexDocument>,
    f_id: tantivy::schema::Field,
    f_name: tantivy::schema::Field,
    f_path: tantivy::schema::Field,
    f_content: tantivy::schema::Field,
) -> bool {
    &&& ds.len() == v.len()
    &&& forall|k: int|
        0 <= k < v.len() ==> doc_view(#[trigger] v[k]) == record_of(
            ds[k],
            f_id,
            f_name,
            f_path,
            f_content,
        )
}

/// Every returned record is the reconstruction, by the engine's field
/// readers under the four schema names, of one stored document.
pub open spec fn results_reconstructed(i: tantivy::Index, v: Seq<IndexDocument>) -> bool {
    exists|ds: Seq<tantivy::TantivyDocument>, f_id: tantivy::schema::Field, f_name: tantivy::schema::Field, f_path: tantivy::schema::Field, f_content: tantivy::schema::Field|
        {
            &&& field_named(i, f_id, "index_dir_id"@)
            &&& field_named(i, f_name, "file_name"@)
            &&& field_named(i, f_path, "file_path"@)
            &&& field_named(i, f_content, "file_content"@)
            &&& #[trigger] records_of(ds, v, f_id, f_name, f_path, f_content)
        }
}

/// Relies on Index::schema and Schema::get_field: the handle for the
/// field of this schema with this name, or the engine's field-not-found
/// error.
#[verifier::external_body]
fn index_field(index: &tantivy::Index, name: &str) -> (r: Result<
    tantivy::schema::Field,
    tantivy::TantivyError,
>)
    ensures
        r matches Ok(f) ==> field_named(*index, f, name@),
{
    index.schema().get_field(name)
}

/// Relies on Index::writer: a fresh writer has nothing staged and
/// belongs to this index's engine.
#[verifier::external_body]
fn create_writer(index: &tantivy::Index, budget: usize) -> (r: Result<
    BatchWriter,
    tantivy::TantivyError,
>)
    ensures
        r matches Ok(w) ==> writer_clean(w) && writer_for(w, *index),
{
    match index.writer(budget) {
        Ok(inner) => Ok(BatchWriter { inner }),
        Err(e) => Err(e),
    }
}

/// Relies on IndexWriter::set_merge_policy with the engine's log merge
/// policy, suited to write-heavy bulk loads; staging is untouched.
#[verifier::external_body]
fn use_log_merge_policy(w: &mut BatchWriter)
    ensures
        staged_docs(*final(w)) == staged_docs(*old(w)),
        staged_deletes(*final(w)) == staged_deletes(*old(w)),
        forall|i: tantivy::Index| #[trigger] writer_for(*final(w), i) == writer_for(*old(w), i),
{
    w.inner.set_merge_policy(Box::new(tantivy::indexer::LogMergePolicy::default()));
}

/// Relies on IndexWriter::add_document, handing it the engine's
/// document built from the record's four fields under the writer's own
/// schema handles; a failed send queues nothing.
#[verifier::external_body]
fn add_doc(
    w: &mut BatchWriter,
    f_id: tantivy::schema::Field,
    f_name: tantivy::schema::Field,
    f_path: tantivy::schema::Field,
    f_content: tantivy::schema::Field,
    doc: &IndexDocument,
) -> (r: Result<u64, tantivy::TantivyError>)
    requires
        exists|i: tantivy::Index|
            {
                &&& #[trigger] writer_for(*old(w), i)
                &&& field_named(i, f_id, "index_dir_id"@)
                &&& field_named(i, f_name, "file_name"@)
                &&& field_named(i, f_path, "file_path"@)
                &&& field_named(i, f_content, "file_content"@)
            },
    ensures
        r is Ok ==> staged_docs(*final(w)) == staged_docs(*old(w)).insert(doc_view(*doc)),
        r is Err ==> staged_docs(*final(w)) == staged_docs(*old(w)),
        staged_deletes(*final(w)) == staged_deletes(*old(w)),
        forall|i: tantivy::Index| #[trigger] writer_for(*final(w), i) == writer_for(*old(w), i),
{
    let mut td = tantivy::TantivyDocument::default();
    td.add_i64(f_id, doc.index_dir_id);
    td.add_text(f_name, &doc.file_name);
    td.add_text(f_path, &doc.file_path);
    td.add_text(f_content, &doc.file_content);
    w.inner.add_document(td)
}

/// Relies on IndexWriter::commit: the staged documents become visible
/// in the writer's own index, which the caller must pass; the commit
/// point is published atomically through the index metadata, so a
/// failed commit leaves either nothing or the whole staged batch
/// visible.  The schema, and so the field handles, never change.
#[verifier::external_body]
fn commit_adds(w: &mut BatchWriter, index: &mut tantivy::Index) -> (r: Result<u64, tantivy::TantivyError>)
    requires
        staged_deletes(*old(w)) == Set::<i64>::empty(),
        writer_for(*old(w), *old(index)),
    ensures
        r is Ok ==> index_docs(*final(index)) == index_docs(*old(index)).add(
            staged_docs(*old(w)),
        ),
        r is Ok ==> writer_clean(*final(w)) && writer_for(*final(w), *final(index)),
        r is Err ==> (index_docs(*final(index)) == index_docs(*old(index)) || index_docs(
            *final(index),
        ) == index_docs(*old(index)).add(staged_docs(*old(w)))),
        forall|f: tantivy::schema::Field, nm: Seq<char>| #[trigger] field_named(
            *final(index),
            f,
            nm,
        ) == field_named(*old(index), f, nm),
{
    let _ = &index;
    w.inner.commit()
}

/// Relies on IndexWriter::delete_term over the writer's own partition
/// field: the partition's documents are marked for deletion.  A handle
/// foreign to the writer's schema would be a silent no-op, so the
/// handle is required to be this schema's partition field.
#[verifier::external_body]
fn delete_partition(
    w: &mut BatchWriter,
    f_id: tantivy::schema::Field,
    partition: i64,
) -> (r: u64)
    requires
        exists|i: tantivy::Index|
            #[trigger] writer_for(*old(w), i) && field_named(i, f_id, "index_dir_id"@),
    ensures
        staged_deletes(*final(w)) == staged_deletes(*old(w)).insert(partition),
        staged_docs(*final(w)) == staged_docs(*old(w)),
        forall|i: tantivy::Index| #[trigger] writer_for(*final(w), i) == writer_for(*old(w), i),
{
    w.inner.delete_term(tantivy::Term::from_field_i64(f_id, partition))
}

/// Relies on IndexWriter::commit: with nothing staged for addition,
/// exactly the documents of unmarked partitions remain visible in the
/// writer's own index, which the caller must pass.  The schema, and so
/// the field handles, never change.
#[verifier::external_body]
fn commit_deletes(w: &mut BatchWriter, index: &mut tantivy::Index) -> (r: Result<u64, tantivy::TantivyError>)
    requires
        staged_docs(*old(w)) == Multiset::<(i64, Seq<char>, Seq<char>, Seq<char>)>::empty(),
        writer_for(*old(w), *old(index)),
    ensures
        r is Ok ==> index_docs(*final(index)) == index_docs(*old(index)).filter(
            (|t: (i64, Seq<char>, Seq<char>, Seq<char>)| !staged_deletes(*old(w)).contains(t.0)),
        ),
        r is Ok ==> writer_clean(*final(w)) && writer_for(*final(w), *final(index)),
        forall|f: tantivy::schema::Field, nm: Seq<char>| #[trigger] field_named(
            *final(index),
            f,
            nm,
        ) == field_named(*old(index), f, nm),
{
    let _ = &index;
    w.inner.commit()
}

/// Relies on the reader, searcher, query parser and top-docs collector:
/// the ranked page of stored documents matching the query over the name
/// and content fields, at most `limit` of them, skipping `offset`.
#[verifier::external_body]
fn run_search(
    index: &tantivy::Index,
    query_str: &str,
    f_name: tantivy::schema::Field,
    f_content: tantivy::schema::Field,
    offset: usize,
    limit: usize,
) -> (r: Result<Vec<tantivy::TantivyDocument>, tantivy::TantivyError>)
    requires
        limit >= 1,
        field_named(*index, f_name, "file_name"@),
        field_named(*index, f_content, "file_content"@),
    ensures
        r matches Ok(v) ==> v@.len() <= limit,
{
    let reader = index.reader()?;
    let searcher = reader.searcher();
    let parser = tantivy::query::QueryParser::for_index(index, vec![f_name, f_content]);
    let query = parser.parse_query(query_str)?;
    let collector = tantivy::collector::TopDocs::with_limit(limit).and_offset(offset).order_by_score();
    let top = searcher.search(&query, &collector)?;
    let mut docs = Vec::new();
    for (_score, addr) in top {
        docs.push(searcher.doc::<tantivy::TantivyDocument>(addr)?);
    }
    Ok(docs)
}

/// Relies on TantivyDocument::get_first and Value::as_i64: the reading
/// is a function of the document and field values alone.
#[verifier::external_body]
fn doc_i64(d: &tantivy::TantivyDocument, f: tantivy::schema::Field) -> (r: Option<i64>)
    ensures
        r == doc_i64_at(*d, f),
{
    d.get_first(f).and_then(|v| tantivy::schema::Value::as_i64(&v))
}

/// Relies on TantivyDocument::get_first and Value::as_str: the reading
/// is a function of the document and field values alone.
#[verifier::external_body]
fn doc_text(d: &tantivy::TantivyDocument, f: tantivy::schema::Field) -> (r: Option<String>)
    ensures
        (r is Some) == (doc_text_at(*d, f) is Some),
        r matches Some(t) ==> doc_text_at(*d, f) == Some(t@),
{
    d.get_first(f).and_then(|v| tantivy::schema::Value::as_str(&v)).map(|s| s.to_string())
}

/// Rebuilds one record per stored document, field by field; a missing
/// or mistyped field keeps the fresh record's default.
fn to_index_docs(
    docs: Vec<tantivy::TantivyDocument>,
    f_id: tantivy::schema::Field,
    f_name: tantivy::schema::Field,
    f_path: tantivy::schema::Field,
    f_content: tantivy::schema::Field,
) -> (r: Vec<IndexDocument>)
    ensures
        records_of(docs@, r@, f_id, f_name, f_path, f_content),
{
    let mut out: Vec<IndexDocument> = Vec::new();
    let mut i: usize = 0;
    while i < docs.len()
        invariant
            i <= docs@.len(),
            out@.len() == i,
            forall|k: int|
                0 <= k < i ==> doc_view(#[trigger] out@[k]) == record_of(
                    docs@[k],
                    f_id,
                    f_name,
                    f_path,
                    f_content,
                ),
        decreases docs@.len() - i,
    {
        let d = &docs[i];
        let mut rec = IndexDocument::new();
        match doc_i64(d, f_id) {
            Some(v) => {
                rec.index_dir_id = v;
            },
            None => {},
        }
        match doc_text(d, f_name) {
            Some(s) => {
                rec.file_name = s;
            },
            None => {},
        }
        match doc_text(d, f_path) {
            Some(s) => {
                rec.file_path = s;
            },
            None => {},
        }
        match doc_text(d, f_content) {
            Some(s) => {
                rec.file_content = s;
            },
            None => {},
        }
        proof {
            assert(doc_view(rec) == record_of(docs@[i as int], f_id, f_name, f_path, f_content));
        }
        out.push(rec);
        i = i + 1;
    }
    out
}

/// Looks up the four schema fields and opens a fresh writer over the
/// same index, with the budget in bytes.
fn open_batch(index_obj: &tantivy::Index, budget: usize) -> (r: GlobalResult<
    (
        tantivy::schema::Field,
        tantivy::schema::Field,
        tantivy::schema::Field,
        tantivy::schema::Field,
        BatchWriter,
    ),
>)
    ensures
        r matches Ok(t) ==> {
            &&& field_named(*index_obj, t.0, "index_dir_id"@)
            &&& field_named(*index_obj, t.1, "file_name"@)
            &&& field_named(*index_obj, t.2, "file_path"@)
            &&& field_named(*index_obj, t.3, "file_content"@)
            &&& writer_clean(t.4)
            &&& writer_for(t.4, *index_obj)
        },
{
    let f_id = to_global_result(index_field(index_obj, "index_dir_id"))?;
    let f_name = to_global_result(index_field(index_obj, "file_name"))?;
    let f_path = to_global_result(index_field(index_obj, "file_path"))?;
    let f_content = to_global_result(index_field(index_obj, "file_content"))?;
    let writer = to_global_result(create_writer(index_obj, budget))?;
    Ok((f_id, f_name, f_path, f_content, writer))
}

proof fn lemma_docs_multiset_split(s: Seq<IndexDocument>, a: int, b: int)
    requires
        0 <= a <= b <= s.len(),
    ensures
        docs_multiset(s.subrange(0, b)) == docs_multiset(s.subrange(0, a)).add(
            docs_multiset(s.subrange(a, b)),
        ),
{
    let p = s.subrange(0, a);
    let q = s.subrange(a, b);
    assert(s.subrange(0, b) =~= p + q);
    let views_p = p.map_values(|d: IndexDocument| doc_view(d));
    let views_q = q.map_values(|d: IndexDocument| doc_view(d));
    assert((p + q).map_values(|d: IndexDocument| doc_view(d)) =~= views_p + views_q);
    vstd::seq_lib::lemma_multiset_commutative(views_p, views_q);
}

proof fn lemma_docs_multiset_empty(s: Seq<IndexDocument>, a: int, m: Multiset<
    (i64, Seq<char>, Seq<char>, Seq<char>),
>)
    requires
        0 <= a <= s.len(),
    ensures
        m.add(docs_multiset(s.subrange(a, a))) == m,
{
    assert(s.subrange(a, a).map_values(|d: IndexDocument| doc_view(d)) =~= Seq::<
        (i64, Seq<char>, Seq<char>, Seq<char>),
    >::empty());
    assert(docs_multiset(s.subrange(a, a)).len() == 0);
    assert(m.add(docs_multiset(s.subrange(a, a))) =~= m);
}

/// Adds one document and commits it: on success the index holds
/// exactly one more copy of it.
pub fn insert_doc(index_obj: &mut tantivy::Index, doc: &IndexDocument) -> (r: GlobalResult<()>)
    ensures
        r is Ok ==> index_docs(*final(index_obj)) == index_docs(*old(index_obj)).insert(
            doc_view(*doc),
        ),
{
    let (f_id, f_name, f_path, f_content, mut writer) = open_batch(index_obj, 50_000_000)?;
    proof {
        assert(writer_for(writer, *index_obj) && field_named(*index_obj, f_id, "index_dir_id"@)
            && field_named(*index_obj, f_name, "file_name"@) && field_named(
            *index_obj,
            f_path,
            "file_path"@,
        ) && field_named(*index_obj, f_content, "file_content"@));
    }
    to_global_result(add_doc(&mut writer, f_id, f_name, f_path, f_content, doc))?;
    let ghost before = index_docs(*index_obj);
    proof {
        assert(writer_for(writer, *index_obj));
    }
    to_global_result(commit_adds(&mut writer, index_obj))?;
    proof {
        assert(index_docs(*index_obj) =~= before.insert(doc_view(*doc)));
    }
    Ok(())
}

/// Adds a batch of documents, committing every ten thousand and once at
/// the end: on success the index holds exactly the batch more; on
/// failure it holds the old documents plus some prefix of the batch —
/// what an earlier intra-batch commit made durable stays committed.
pub fn insert_doc_list(
    index_obj: &mut tantivy::Index,
    docs: &Vec<IndexDocument>,
) -> (r: GlobalResult<()>)
    ensures
        r is Ok ==> index_docs(*final(index_obj)) == index_docs(*old(index_obj)).add(
            docs_multiset(docs@),
        ),
        r is Err ==> exists|k: int|
            0 <= k <= docs@.len() && index_docs(*final(index_obj)) == index_docs(
                *old(index_obj),
            ).add(docs_multiset(#[trigger] docs@.subrange(0, k))),
{
    let ghost orig = index_docs(*index_obj);
    let (f_id, f_name, f_path, f_content, mut writer) = match open_batch(
        index_obj,
        200_000_000,
    ) {
        Ok(t) => t,
        Err(e) => {
            proof {
                lemma_docs_multiset_empty(docs@, 0, orig);
                assert(index_docs(*index_obj) == orig.add(docs_multiset(docs@.subrange(0, 0))));
            }
            return Err(e);
        },
    };
    use_log_merge_policy(&mut writer);
    let ghost mut committed: int = 0;
    let mut i: usize = 0;
    proof {
        lemma_docs_multiset_empty(docs@, 0, orig);
        assert(index_docs(*index_obj) == orig.add(docs_multiset(docs@.subrange(0, 0))));
        assert(docs@.subrange(0, 0).map_values(|d: IndexDocument| doc_view(d)) =~= Seq::<
            (i64, Seq<char>, Seq<char>, Seq<char>),
        >::empty());
        assert(docs_multiset(docs@.subrange(0, 0)).len() == 0);
        assert(staged_docs(writer) =~= docs_multiset(docs@.subrange(0, 0)));
    }
    while i < docs.len()
        invariant
            i <= docs@.len(),
            0 <= committed <= i as int,
            orig == index_docs(*old(index_obj)),
            writer_for(writer, *index_obj),
            field_named(*index_obj, f_id, "index_dir_id"@),
            field_named(*index_obj, f_name, "file_name"@),
            field_named(*index_obj, f_path, "file_path"@),
            field_named(*index_obj, f_content, "file_content"@),
            staged_deletes(writer) == Set::<i64>::empty(),
            index_docs(*index_obj) == orig.add(docs_multiset(docs@.subrange(0, committed))),
            staged_docs(writer) == docs_multiset(docs@.subrange(committed, i as int)),
        decreases docs@.len() - i,
    {
        let ghost staged0 = staged_docs(writer);
        proof {
            assert(writer_for(writer, *index_obj) && field_named(
                *index_obj,
                f_id,
                "index_dir_id"@,
            ) && field_named(*index_obj, f_name, "file_name"@) && field_named(
                *index_obj,
                f_path,
                "file_path"@,
            ) && field_named(*index_obj, f_content, "file_content"@));
        }
        match add_doc(&mut writer, f_id, f_name, f_path, f_content, &docs[i]) {
            Ok(_) => {},
            Err(e) => {
                proof {
                    assert(0 <= committed <= docs@.len() && index_docs(*index_obj) == orig.add(
                        docs_multiset(docs@.subrange(0, committed)),
                    ));
                }
                return Err(GlobalError::new(e.to_string()));
            },
        }
        proof {
            let v = doc_view(docs@[i as int]);
            let views0 = docs@.subrange(committed, i as int).map_values(
                |d: IndexDocument| doc_view(d),
            );
            let views1 = docs@.subrange(committed, i + 1).map_values(
                |d: IndexDocument| doc_view(d),
            );
            assert(views1 =~= views0.push(v));
            assert(views1.to_multiset() =~= views0.to_multiset().insert(v));
            assert(staged_docs(writer) == docs_multiset(docs@.subrange(committed, i + 1)));
        }
        i = i + 1;
        if i % 10000 == 0 {
            let ghost pre_index = index_docs(*index_obj);
            let ghost pre_staged = staged_docs(writer);
            match commit_adds(&mut writer, index_obj) {
                Ok(_) => {
                    proof {
                        lemma_docs_multiset_split(docs@, committed, i as int);
                        assert(index_docs(*index_obj) =~= orig.add(
                            docs_multiset(docs@.subrange(0, i as int)),
                        ));
                        committed = i as int;
                        assert(field_named(*index_obj, f_id, "index_dir_id"@));
                        assert(field_named(*index_obj, f_name, "file_name"@));
                        assert(field_named(*index_obj, f_path, "file_path"@));
                        assert(field_named(*index_obj, f_content, "file_content"@));
                        assert(docs@.subrange(committed, i as int).map_values(
                            |d: IndexDocument| doc_view(d),
                        ) =~= Seq::<(i64, Seq<char>, Seq<char>, Seq<char>)>::empty());
                        assert(docs_multiset(docs@.subrange(committed, i as int)).len() == 0);
                        assert(staged_docs(writer) =~= docs_multiset(
                            docs@.subrange(committed, i as int),
                        ));
                    }
                },
                Err(e) => {
                    proof {
                        if index_docs(*index_obj) == pre_index {
                            assert(0 <= committed <= docs@.len() && index_docs(*index_obj)
                                == orig.add(docs_multiset(docs@.subrange(0, committed))));
                        } else {
                            lemma_docs_multiset_split(docs@, committed, i as int);
                            assert(index_docs(*index_obj) =~= orig.add(
                                docs_multiset(docs@.subrange(0, i as int)),
                            ));
                            assert(0 <= i as int <= docs@.len() && index_docs(*index_obj)
                                == orig.add(docs_multiset(docs@.subrange(0, i as int))));
                        }
                    }
                    return Err(GlobalError::new(e.to_string()));
                },
            }
        }
    }
    let ghost pre_index = index_docs(*index_obj);
    let ghost pre_staged = staged_docs(writer);
    match commit_adds(&mut writer, index_obj) {
        Ok(_) => {
            proof {
                lemma_docs_multiset_split(docs@, committed, docs@.len() as int);
                assert(docs@.subrange(0, docs@.len() as int) =~= docs@);
                assert(index_docs(*index_obj) =~= orig.add(docs_multiset(docs@)));
            }
        },
        Err(e) => {
            proof {
                if index_docs(*index_obj) == pre_index {
                    assert(0 <= committed <= docs@.len() && index_docs(*index_obj) == orig.add(
                        docs_multiset(docs@.subrange(0, committed)),
                    ));
                } else {
                    lemma_docs_multiset_split(docs@, committed, docs@.len() as int);
                    assert(index_docs(*index_obj) =~= orig.add(
                        docs_multiset(docs@.subrange(0, docs@.len() as int)),
                    ));
                    assert(0 <= docs@.len() as int <= docs@.len() && index_docs(*index_obj)
                        == orig.add(docs_multiset(docs@.subrange(0, docs@.len() as int))));
                }
            }
            return Err(GlobalError::new(e.to_string()));
        },
    }
    Ok(())
}

/// Answers one page of the ranked results for the query, at most
/// `page_size` documents, skipping the earlier pages; each returned
/// record is the field-by-field reconstruction of one stored document.
pub fn search_doc(
    index_obj: &tantivy::Index,
    query_str: &str,
    page_num: usize,
    page_size: usize,
) -> (r: GlobalResult<Vec<IndexDocument>>)
    requires
        page_num >= 1,
        page_size >= 1,
        (page_num - 1) * page_size <= usize::MAX,
    ensures
        r matches Ok(v) ==> v@.len() <= page_size,
        r matches Ok(v) ==> results_reconstructed(*index_obj, v@),
{
    let offset = (page_num - 1) * page_size;
    let f_id = to_global_result(index_field(index_obj, "index_dir_id"))?;
    let f_name = to_global_result(index_field(index_obj, "file_name"))?;
    let f_content = to_global_result(index_field(index_obj, "file_content"))?;
    let f_path = to_global_result(index_field(index_obj, "file_path"))?;
    let docs = to_global_result(
        run_search(index_obj, query_str, f_name, f_content, offset, page_size),
    )?;
    let ghost ds = docs@;
    let out = to_index_docs(docs, f_id, f_name, f_path, f_content);
    proof {
        assert(records_of(ds, out@, f_id, f_name, f_path, f_content));
        assert(results_reconstructed(*index_obj, out@));
    }
    Ok(out)
}

/// Removes one partition: on success exactly the documents of the
/// other partitions remain.
pub fn delete_by_index_dir_id(index_obj: &mut tantivy::Index, index_dir_id: i64) -> (r:
    GlobalResult<()>)
    ensures
        r is Ok ==> index_docs(*final(index_obj)) == index_docs(*old(index_obj)).filter(
            (|t: (i64, Seq<char>, Seq<char>, Seq<char>)| t.0 != index_dir_id),
        ),
{
    let f_id = to_global_result(index_field(index_obj, "index_dir_id"))?;
    let mut writer = to_global_result(create_writer(index_obj, 50_000_000))?;
    proof {
        assert(writer_for(writer, *index_obj) && field_named(
            *index_obj,
            f_id,
            "index_dir_id"@,
        ));
    }
    delete_partition(&mut writer, f_id, index_dir_id);
    let ghost before = index_docs(*index_obj);
    let ghost dels = staged_deletes(writer);
    proof {
        assert(writer_for(writer, *index_obj));
    }
    to_global_result(commit_deletes(&mut writer, index_obj))?;
    proof {
        let f1 = (|t: (i64, Seq<char>, Seq<char>, Seq<char>)| !dels.contains(t.0));
        let f2 = (|t: (i64, Seq<char>, Seq<char>, Seq<char>)| t.0 != index_dir_id);
        assert(index_docs(*index_obj) =~= before.filter(f2)) by {
            assert forall|t: (i64, Seq<char>, Seq<char>, Seq<char>)|
                index_docs(*index_obj).count(t) == before.filter(f2).count(t) by {
                assert(dels.contains(t.0) == (t.0 == index_dir_id));
                assert(index_docs(*index_obj).count(t) == before.filter(f1).count(t));
                assert(before.filter(f1).count(t) == (if f1(t) {
                    before.count(t)
                } else {
                    0
                }));
                assert(before.filter(f2).count(t) == (if f2(t) {
                    before.count(t)
                } else {
                    0
                }));
            }
        }
    }
    Ok(())
}


/// The first index in `acc` holding this path, scanning from `i`.
pub open spec fn find_path_idx(
    acc: Seq<(i64, Seq<char>, Seq<char>, Seq<char>)>,
    path: Seq<char>,
    i: int,
) -> Option<int>
    decreases acc.len() - i,
{
    if i < 0 || i >= acc.len() {
        None
    } else if acc[i].1 == path {
        Some(i)
    } else {
        find_path_idx(acc, path, i + 1)
    }
}

/// Grouping documents by path: each document's content is appended to
/// the first earlier document of the same path, and a new path keeps
/// its place in first-seen order.
pub open spec fn group_views(
    docs: Seq<(i64, Seq<char>, Seq<char>, Seq<char>)>,
    acc: Seq<(i64, Seq<char>, Seq<char>, Seq<char>)>,
) -> Seq<(i64, Seq<char>, Seq<char>, Seq<char>)>
    decreases docs.len(),
{
    if docs.len() == 0 {
        acc
    } else {
        let d = docs[0];
        let acc2 = match find_path_idx(acc, d.1, 0) {
            Some(j) => acc.update(j, (acc[j].0, acc[j].1, acc[j].2, acc[j].3 + d.3)),
            None => acc.push(d),
        };
        group_views(docs.drop_first(), acc2)
    }
}

/// Merges result documents of the same file: contents are concatenated
/// onto the first record of each path, in first-seen order.
pub fn group_by_file_path(files: Vec<IndexDocument>) -> (r: Vec<IndexDocument>)
    ensures
        r@.map_values(|d: IndexDocument| doc_view(d)) == group_views(
            files@.map_values(|d: IndexDocument| doc_view(d)),
            Seq::empty(),
        ),
{
    let ghost all = files@.map_values(|d: IndexDocument| doc_view(d));
    let mut out: Vec<IndexDocument> = Vec::new();
    let mut i: usize = 0;
    proof {
        assert(out@.map_values(|d: IndexDocument| doc_view(d)) =~= Seq::<
            (i64, Seq<char>, Seq<char>, Seq<char>),
        >::empty());
        assert(all.subrange(0, all.len() as int) =~= all);
    }
    while i < files.len()
        invariant
            i <= files@.len(),
            all == files@.map_values(|d: IndexDocument| doc_view(d)),
            group_views(all, Seq::empty()) == group_views(
                all.subrange(i as int, all.len() as int),
                out@.map_values(|d: IndexDocument| doc_view(d)),
            ),
        decreases files@.len() - i,
    {
        let ghost rem = all.subrange(i as int, all.len() as int);
        let ghost out_views = out@.map_values(|d: IndexDocument| doc_view(d));
        proof {
            assert(rem[0] == all[i as int]);
            assert(all[i as int] == doc_view(files@[i as int]));
            assert(rem.drop_first() =~= all.subrange(i + 1, all.len() as int));
        }
        let d = &files[i];
        let mut j: usize = 0;
        let mut found: Option<usize> = None;
        loop
            invariant_except_break
                j <= out@.len(),
                out_views == out@.map_values(|x: IndexDocument| doc_view(x)),
                out_views.len() == out@.len(),
                d == &files@[i as int],
                i < files@.len(),
                found is None,
                find_path_idx(out_views, d.file_path@, 0) == find_path_idx(
                    out_views,
                    d.file_path@,
                    j as int,
                ),
            ensures
                out_views == out@.map_values(|x: IndexDocument| doc_view(x)),
                d == &files@[i as int],
                i < files@.len(),
                match found {
                    Some(f) => f < out@.len() && find_path_idx(out_views, d.file_path@, 0)
                        == Some(f as int),
                    None => find_path_idx(out_views, d.file_path@, 0) is None,
                },
            decreases out@.len() - j,
        {
            if j >= out.len() {
                break ;
            }
            proof {
                assert(out_views[j as int] == doc_view(out@[j as int]));
            }
            if str_eq(out[j].file_path.as_str(), d.file_path.as_str()) {
                found = Some(j);
                break ;
            }
            j = j + 1;
        }
        match found {
            Some(f) => {
                let ghost out0 = out@;
                let addition = d.file_content.clone();
                out[f].file_content.append(addition.as_str());
                proof {
                    assert(out@ =~= out0.update(
                        f as int,
                        IndexDocument {
                            file_content: out@[f as int].file_content,
                            ..out0[f as int]
                        },
                    ));
                    assert(out@.map_values(|x: IndexDocument| doc_view(x)) =~= out_views.update(
                        f as int,
                        (
                            out_views[f as int].0,
                            out_views[f as int].1,
                            out_views[f as int].2,
                            out_views[f as int].3 + d.file_content@,
                        ),
                    ));
                }
            },
            None => {
                proof {
                    assert(find_path_idx(out_views, d.file_path@, 0) is None);
                }
                let rec = IndexDocument {
                    index_dir_id: d.index_dir_id,
                    file_path: d.file_path.clone(),
                    file_name: d.file_name.clone(),
                    file_content: d.file_content.clone(),
                };
                let ghost out0 = out@;
                out.push(rec);
                proof {
                    assert(out@.map_values(|x: IndexDocument| doc_view(x)) =~= out_views.push(
                        doc_view(files@[i as int]),
                    ));
                }
            },
        }
        proof {
            assert(group_views(all, Seq::empty()) == group_views(
                all.subrange(i + 1, all.len() as int),
                out@.map_values(|x: IndexDocument| doc_view(x)),
            ));
        }
        i = i + 1;
    }
    proof {
        assert(all.subrange(all.len() as int, all.len() as int) =~= Seq::<
            (i64, Seq<char>, Seq<char>, Seq<char>),
        >::empty());
    }
    out
}

} // verus!
