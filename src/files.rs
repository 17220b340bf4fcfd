//! Documents and the corpus index built from them: one term-count table per
//! document and their sum over the corpus.
use vstd::prelude::*;
use crate::term_counts::{count_in, counts_positive, keys_distinct, table_of, tally, total_of, TermCounts};
use crate::tokenizer::{terms, tokenize};

verus! {

/// Why a document or an index could not be had.
#[derive(Debug, PartialEq, Eq)]
pub enum IndexError {
    /// The text of the document at this path could not be extracted.
    PathUnreadable(String),
    /// The persisted index under this handle does not hold a valid index.
    CacheCorrupt(String),
}

/// What to do with a document whose text could not be extracted.
#[derive(Debug, Clone, Copy, PartialEq, Eq, Structural)]
pub enum UnreadablePolicy {
    /// Leave the document out of every table and report its path.
    Skip,
    /// Fail the whole build.
    Abort,
}

/// A document's path and its term-count table.
pub type DocView = (Seq<char>, Map<Seq<char>, nat>);

/// What a corpus index holds: the documents in order, and the count of each
/// term over the whole corpus.
pub struct FilesView {
    pub docs: Seq<DocView>,
    pub overall: Map<Seq<char>, nat>,
}

/// The number of occurrences of `t` summed over the documents `docs`.
pub open spec fn corpus_count(docs: Seq<DocView>, t: Seq<char>) -> nat
    decreases docs.len(),
{
    if docs.len() == 0 {
        0
    } else {
        corpus_count(docs.drop_last(), t) + count_in(docs.last().1, t)
    }
}

/// No two documents share a path.
pub open spec fn paths_distinct(docs: Seq<DocView>) -> bool {
    forall|i: int, j: int| 0 <= i < j < docs.len() ==> docs[i].0 != docs[j].0
}

/// The per-document tables as a mapping from path to table.
pub open spec fn doc_map(docs: Seq<DocView>) -> Map<Seq<char>, Map<Seq<char>, nat>>
    decreases docs.len(),
{
    if docs.len() == 0 {
        Map::empty()
    } else {
        doc_map(docs.drop_last()).insert(docs.last().0, docs.last().1)
    }
}

/// The documents, in order, whose text could be extracted, each with the tally
/// of its terms.
pub open spec fn readable_docs(input: Seq<(String, Option<String>)>) -> Seq<DocView>
    decreases input.len(),
{
    if input.len() == 0 {
        seq![]
    } else {
        let rest = readable_docs(input.drop_last());
        match input.last().1 {
            Some(text) => rest.push((input.last().0@, tally(terms(text@)))),
            None => rest,
        }
    }
}

/// The paths, in order, of the documents whose text could not be extracted.
pub open spec fn unreadable_paths(input: Seq<(String, Option<String>)>) -> Seq<Seq<char>>
    decreases input.len(),
{
    if input.len() == 0 {
        seq![]
    } else {
        let rest = unreadable_paths(input.drop_last());
        match input.last().1 {
            Some(_) => rest,
            None => rest.push(input.last().0@),
        }
    }
}

/// The total length of the texts that could be extracted.
pub open spec fn text_len_total(input: Seq<(String, Option<String>)>) -> nat
    decreases input.len(),
{
    if input.len() == 0 {
        0
    } else {
        text_len_total(input.drop_last()) + match input.last().1 {
            Some(text) => text@.len(),
            None => 0,
        }
    }
}

/// No two inputs share a path.
pub open spec fn input_paths_distinct(input: Seq<(String, Option<String>)>) -> bool {
    forall|i: int, j: int| 0 <= i < j < input.len() ==> input[i].0@ != input[j].0@
}

/// The index is consistent: distinct paths, and each term's corpus count is
/// the sum of its counts in the documents.
pub open spec fn index_consistent(v: FilesView) -> bool {
    &&& paths_distinct(v.docs)
    &&& forall|t: Seq<char>| count_in(v.overall, t) == corpus_count(v.docs, t)
    &&& forall|t: Seq<char>| v.overall.contains_key(t) ==> v.overall[t] > 0
}

/// A document's path and its (term, count) pairs, as an index is stored.
pub type DocParts = (String, Vec<(String, usize)>);

/// The documents that stored parts describe.
pub open spec fn parts_view(p: Seq<DocParts>) -> Seq<DocView> {
    p.map_values(|d: DocParts| (d.0@, table_of(d.1@)))
}

/// The sum of all counts of stored parts.
pub open spec fn parts_total(p: Seq<DocParts>) -> nat
    decreases p.len(),
{
    if p.len() == 0 {
        0
    } else {
        parts_total(p.drop_last()) + total_of(p.last().1@)
    }
}

/// Stored parts describe an index: distinct paths, distinct terms and
/// positive counts in each document, and a sum of counts that fits a `usize`.
pub open spec fn parts_valid(p: Seq<DocParts>) -> bool {
    &&& forall|i: int, j: int| 0 <= i < j < p.len() ==> p[i].0@ != p[j].0@
    &&& forall|i: int|
        0 <= i < p.len() ==> keys_distinct(#[trigger] p[i].1@) && counts_positive(p[i].1@)
    &&& parts_total(p) <= usize::MAX
}

proof fn lemma_parts_total_prefix(p: Seq<DocParts>, n: int)
    requires
        0 <= n <= p.len(),
    ensures
        parts_total(p.take(n)) <= parts_total(p),
    decreases p.len(),
{
    if n == p.len() {
        assert(p.take(n) =~= p);
    } else {
        assert(p.drop_last().take(n) =~= p.take(n));
        lemma_parts_total_prefix(p.drop_last(), n);
    }
}

/// The path that an error names.
pub open spec fn error_path(e: IndexError) -> Seq<char> {
    match e {
        IndexError::PathUnreadable(p) => p@,
        IndexError::CacheCorrupt(h) => h@,
    }
}

/// The documents, in order, that were indexed.
pub open spec fn indexed_docs(rs: Seq<Result<File, IndexError>>) -> Seq<DocView>
    decreases rs.len(),
{
    if rs.len() == 0 {
        seq![]
    } else {
        let rest = indexed_docs(rs.drop_last());
        match rs.last() {
            Ok(f) => rest.push(f@),
            Err(_) => rest,
        }
    }
}

/// The paths, in order, of the documents that could not be indexed.
pub open spec fn failed_paths(rs: Seq<Result<File, IndexError>>) -> Seq<Seq<char>>
    decreases rs.len(),
{
    if rs.len() == 0 {
        seq![]
    } else {
        let rest = failed_paths(rs.drop_last());
        match rs.last() {
            Ok(_) => rest,
            Err(e) => rest.push(error_path(e)),
        }
    }
}

/// The sum of the counts of the documents that were indexed.
pub open spec fn indexed_total(rs: Seq<Result<File, IndexError>>) -> nat
    decreases rs.len(),
{
    if rs.len() == 0 {
        0
    } else {
        indexed_total(rs.drop_last()) + match rs.last() {
            Ok(f) => f.total(),
            Err(_) => 0,
        }
    }
}

/// Every document that was indexed is well formed.
pub open spec fn indexed_wf(rs: Seq<Result<File, IndexError>>) -> bool {
    forall|i: int| 0 <= i < rs.len() ==> (#[trigger] rs[i] matches Ok(f) ==> f.wf())
}

/// A document: its path and how often each term occurs in it.
pub struct File {
    path: String,
    counts: TermCounts,
}

impl View for File {
    type V = DocView;

    closed spec fn view(&self) -> DocView {
        (self.path@, self.counts@)
    }
}

impl File {
    /// Well formed: the table is.
    pub closed spec fn wf(&self) -> bool {
        self.counts.wf()
    }

    /// The sum of the counts of all terms of the document.
    pub closed spec fn total(&self) -> nat {
        self.counts.total()
    }

    /// Indexes the document at `path` from its extracted text; `None` stands
    /// for a text that could not be extracted.
    pub fn new(path: &str, text: Option<&str>) -> (r: Result<File, IndexError>)
        ensures
            text is None <==> r is Err,
            r matches Err(e) ==> e matches IndexError::PathUnreadable(p) && p@ == path@,
            r matches Ok(f) ==> {
                &&& f.wf()
                &&& f@ == (path@, tally(terms(text->0@)))
                &&& f.total() == terms(text->0@).len()
                &&& f.total() <= text->0@.len()
            },
    {
        match text {
            None => Err(IndexError::PathUnreadable(path.to_owned())),
            Some(t) => {
                let ts = tokenize(t);
                let counts = TermCounts::from_terms(&ts);
                Ok(File { path: path.to_owned(), counts })
            },
        }
    }

    /// The path of the document.
    pub fn path(&self) -> (r: &String)
        ensures
            r@ == self@.0,
    {
        &self.path
    }

    /// How often `word` occurs in the document.
    pub fn get_count(&self, word: &String) -> (r: usize)
        requires
            self.wf(),
        ensures
            r == count_in(self@.1, word@),
    {
        self.counts.get(word)
    }

    /// The (term, count) pairs of the document.
    pub fn entries(&self) -> (r: Vec<(String, usize)>)
        requires
            self.wf(),
        ensures
            crate::term_counts::keys_distinct(r@),
            crate::term_counts::counts_positive(r@),
            crate::term_counts::table_of(r@) == self@.1,
    {
        self.counts.to_entries()
    }
}

/// The views of a list of documents.
pub closed spec fn docs_of(fs: Seq<File>) -> Seq<DocView> {
    fs.map_values(|f: File| f@)
}

pub closed spec fn files_total(fs: Seq<File>) -> nat
    decreases fs.len(),
{
    if fs.len() == 0 {
        0
    } else {
        files_total(fs.drop_last()) + fs.last().total()
    }
}

proof fn lemma_readable_paths(input: Seq<(String, Option<String>)>)
    ensures
        forall|k: int|
            0 <= k < readable_docs(input).len() ==> exists|j: int|
                0 <= j < input.len() && input[j].0@ == #[trigger] readable_docs(input)[k].0,
    decreases input.len(),
{
    if input.len() > 0 {
        let d = input.drop_last();
        lemma_readable_paths(d);
        assert forall|k: int| 0 <= k < readable_docs(input).len() implies exists|j: int|
            0 <= j < input.len() && input[j].0@ == #[trigger] readable_docs(input)[k].0 by {
            if k < readable_docs(d).len() {
                let j = choose|j: int| 0 <= j < d.len() && d[j].0@ == #[trigger] readable_docs(d)[k].0;
                assert(input[j] == d[j]);
            } else {
                assert(input[input.len() - 1].0@ == readable_docs(input)[k].0);
            }
        }
    }
}

/// A corpus index: the term-count table of each document, and the count of
/// each term over all documents.
pub struct Files {
    files: Vec<File>,
    dictionary: TermCounts,
}

impl View for Files {
    type V = FilesView;

    closed spec fn view(&self) -> FilesView {
        FilesView { docs: docs_of(self.files@), overall: self.dictionary@ }
    }
}

impl Files {
    /// Well formed: consistent, with well-formed tables, and a sum of all
    /// counts that fits a `usize`.
    pub closed spec fn wf(&self) -> bool {
        &&& index_consistent(self@)
        &&& self.dictionary.wf()
        &&& forall|i: int| 0 <= i < self.files@.len() ==> #[trigger] self.files@[i].wf()
        &&& files_total(self.files@) <= usize::MAX
    }

    /// A well-formed index is consistent.
    pub proof fn lemma_consistent(&self)
        requires
            self.wf(),
        ensures
            index_consistent(self@),
    {
    }

    /// Merges documents that were indexed one by one (in any order, on any
    /// number of workers) into a corpus index, in a single pass. Under `Skip`
    /// the documents that could not be indexed are left out and their paths
    /// returned beside the index; under `Abort` the first of them fails the
    /// merge with its error.
    pub fn from_files(results: Vec<Result<File, IndexError>>, policy: UnreadablePolicy) -> (r: Result<
        (Files, Vec<String>),
        IndexError,
    >)
        requires
            indexed_wf(results@),
            paths_distinct(indexed_docs(results@)),
            indexed_total(results@) <= usize::MAX,
        ensures
            r is Err <==> (policy == UnreadablePolicy::Abort && failed_paths(results@).len() > 0),
            r matches Err(e) ==> error_path(e) == failed_paths(results@)[0] && exists|k: int|
                0 <= k < results@.len() && results@[k] == Err::<File, IndexError>(e),
            r matches Ok((f, skipped)) ==> {
                &&& f.wf()
                &&& index_consistent(f@)
                &&& f@.docs == indexed_docs(results@)
                &&& skipped@.map_values(|s: String| s@) == failed_paths(results@)
            },
    {
        let mut files: Vec<File> = Vec::new();
        let mut dictionary = TermCounts::new();
        let mut skipped: Vec<String> = Vec::new();
        let ghost rs = results@;
        assert(docs_of(files@) =~= seq![]);
        for item in it: results
            invariant
                it.seq() == rs,
                indexed_wf(rs),
                paths_distinct(indexed_docs(rs)),
                indexed_total(rs) <= usize::MAX,
                docs_of(files@) == indexed_docs(rs.take(it.index() as int)),
                skipped@.map_values(|s: String| s@) == failed_paths(rs.take(it.index() as int)),
                policy == UnreadablePolicy::Abort ==> failed_paths(rs.take(it.index() as int)).len() == 0,
                dictionary.wf(),
                forall|j: int| 0 <= j < files@.len() ==> #[trigger] files@[j].wf(),
                forall|t: Seq<char>|
                    count_in(#[trigger] dictionary@, t) == corpus_count(docs_of(files@), t),
                dictionary.total() == files_total(files@),
                files_total(files@) == indexed_total(rs.take(it.index() as int)),
        {
            let ghost i = it.index();
            let ghost pre = rs.take(i as int);
            let ghost post = rs.take(i as int + 1);
            assert(post.drop_last() =~= pre);
            assert(post.last() == rs[i as int]);
            proof {
                lemma_indexed_prefix(rs, i as int + 1);
            }
            match item {
                Err(e) => {
                    if policy == UnreadablePolicy::Abort {
                        proof {
                            lemma_failed_prefix(rs, i as int + 1);
                            assert(failed_paths(post) == failed_paths(pre).push(error_path(e)));
                            assert(failed_paths(post)[0] == failed_paths(rs)[0]);
                        }
                        return Err(e);
                    }
                    let p = match e {
                        IndexError::PathUnreadable(p) => p,
                        IndexError::CacheCorrupt(h) => h,
                    };
                    let ghost prev = skipped@;
                    skipped.push(p);
                    assert(skipped@.map_values(|s: String| s@) =~= prev.map_values(|s: String| s@).push(
                        error_path(rs[i as int]->Err_0),
                    ));
                },
                Ok(f) => {
                    assert(rs[i as int] matches Ok(g) ==> g.wf());
                    proof {
                        dictionary.lemma_positive();
                    }
                    dictionary.merge(&f.counts);
                    let ghost prev = files@;
                    files.push(f);
                    assert(files@.drop_last() == prev);
                    assert(docs_of(files@) =~= docs_of(prev).push(f@));
                    assert(docs_of(files@).drop_last() =~= docs_of(prev));
                    assert forall|t: Seq<char>|
                        count_in(#[trigger] dictionary@, t) == corpus_count(docs_of(files@), t) by {
                        assert(docs_of(files@).last() == f@);
                    }
                    assert forall|j: int| 0 <= j < files@.len() implies #[trigger] files@[j].wf() by {
                        if j < prev.len() {
                            assert(files@[j] == prev[j]);
                        }
                    }
                },
            }
        }
        assert(rs.take(rs.len() as int) =~= rs);
        proof {
            dictionary.lemma_positive();
        }
        Ok((Files { files, dictionary }, skipped))
    }

    /// The documents as stored: each path with its (term, count) pairs.
    pub fn to_parts(&self) -> (r: Vec<DocParts>)
        requires
            self.wf(),
        ensures
            parts_valid(r@),
            parts_view(r@) == self@.docs,
    {
        let mut r: Vec<DocParts> = Vec::new();
        let mut i: usize = 0;
        while i < self.files.len()
            invariant
                self.wf(),
                i <= self.files.len(),
                r.len() == i,
                forall|k: int| 0 <= k < i ==> #[trigger] r@[k].0@ == self@.docs[k].0,
                forall|k: int| 0 <= k < i ==> table_of(#[trigger] r@[k].1@) == self@.docs[k].1,
                forall|k: int| 0 <= k < i ==> keys_distinct(#[trigger] r@[k].1@) && counts_positive(r@[k].1@),
                forall|k: int| 0 <= k < i ==> total_of(#[trigger] r@[k].1@) == self.files@[k].total(),
                parts_total(r@) == files_total(self.files@.take(i as int)),
            decreases self.files.len() - i,
        {
            let ghost prev = r@;
            assert(self.files@[i as int].wf());
            let e = self.files[i].counts.to_entries();
            r.push((self.files[i].path.clone(), e));
            assert(r@.drop_last() =~= prev);
            assert(self.files@.take(i as int + 1).drop_last() =~= self.files@.take(i as int));
            i = i + 1;
        }
        assert(self.files@.take(self.files.len() as int) =~= self.files@);
        assert(parts_view(r@) =~= self@.docs);
        r
    }

    /// The index that stored parts describe; `None` where they describe none.
    pub fn from_parts(parts: Vec<DocParts>) -> (r: Option<Files>)
        ensures
            r is Some <==> parts_valid(parts@),
            r matches Some(f) ==> f.wf() && f@.docs == parts_view(parts@),
    {
        let mut files: Vec<File> = Vec::new();
        let mut dictionary = TermCounts::new();
        let mut sum: usize = 0;
        let mut i: usize = 0;
        assert(docs_of(files@) =~= seq![]);
        while i < parts.len()
            invariant
                i <= parts.len(),
                forall|a: int, b: int| 0 <= a < b < i ==> parts@[a].0@ != parts@[b].0@,
                forall|a: int|
                    0 <= a < i ==> keys_distinct(#[trigger] parts@[a].1@) && counts_positive(parts@[a].1@),
                sum == parts_total(parts@.take(i as int)),
                docs_of(files@) == parts_view(parts@.take(i as int)),
                dictionary.wf(),
                forall|j: int| 0 <= j < files@.len() ==> #[trigger] files@[j].wf(),
                forall|t: Seq<char>|
                    count_in(#[trigger] dictionary@, t) == corpus_count(docs_of(files@), t),
                dictionary.total() == files_total(files@),
                files_total(files@) == sum,
            decreases parts.len() - i,
        {
            let ghost pre = parts@.take(i as int);
            let ghost post = parts@.take(i as int + 1);
            assert(post.drop_last() =~= pre);
            assert(post.last() == parts@[i as int]);
            let mut j: usize = 0;
            while j < i
                invariant
                    i < parts.len(),
                    j <= i,
                    forall|a: int| 0 <= a < j ==> #[trigger] parts@[a].0@ != parts@[i as int].0@,
                decreases i - j,
            {
                if parts[j].0 == parts[i].0 {
                    return None;
                }
                j = j + 1;
            }
            let counts = match TermCounts::from_entries(&parts[i].1) {
                Some(c) => c,
                None => {
                    return None;
                },
            };
            let t = match counts.checked_total() {
                Some(t) => t,
                None => {
                    proof {
                        lemma_parts_total_prefix(parts@, i as int + 1);
                    }
                    return None;
                },
            };
            if t > usize::MAX - sum {
                proof {
                    lemma_parts_total_prefix(parts@, i as int + 1);
                }
                return None;
            }
            proof {
                dictionary.lemma_positive();
            }
            dictionary.merge(&counts);
            let f = File { path: parts[i].0.clone(), counts };
            let ghost prev = files@;
            files.push(f);
            sum = sum + t;
            assert(files@.drop_last() == prev);
            assert(docs_of(files@) =~= docs_of(prev).push(f@));
            assert(docs_of(files@).drop_last() =~= docs_of(prev));
            assert(parts_view(post) =~= parts_view(pre).push(f@));
            assert forall|t: Seq<char>|
                count_in(#[trigger] dictionary@, t) == corpus_count(docs_of(files@), t) by {
                assert(docs_of(files@).last() == f@);
            }
            assert forall|j: int| 0 <= j < files@.len() implies #[trigger] files@[j].wf() by {
                if j < prev.len() {
                    assert(files@[j] == prev[j]);
                }
            }
            i = i + 1;
        }
        assert(parts@.take(parts.len() as int) =~= parts@);
        proof {
            dictionary.lemma_positive();
            assert forall|a: int, b: int| 0 <= a < b < docs_of(files@).len() implies docs_of(
                files@,
            )[a].0 != docs_of(files@)[b].0 by {
                assert(parts_view(parts@)[a].0 == parts@[a].0@);
                assert(parts_view(parts@)[b].0 == parts@[b].0@);
            }
        }
        Some(Files { files, dictionary })
    }

    /// The index persisted under `handle`, given the parts decoded from it;
    /// `None` stands for bytes that could not be decoded. Anything but valid
    /// parts is a corrupt cache.
    pub fn from_stored(handle: &str, parts: Option<Vec<DocParts>>) -> (r: Result<Files, IndexError>)
        ensures
            r is Ok <==> (parts matches Some(p) && parts_valid(p@)),
            r matches Ok(f) ==> f.wf() && f@.docs == parts_view(parts->0@),
            r matches Err(e) ==> e matches IndexError::CacheCorrupt(h) && h@ == handle@,
    {
        match parts {
            Some(p) => match Files::from_parts(p) {
                Some(f) => Ok(f),
                None => Err(IndexError::CacheCorrupt(handle.to_owned())),
            },
            None => Err(IndexError::CacheCorrupt(handle.to_owned())),
        }
    }

    /// The number of documents.
    pub fn len(&self) -> (r: usize)
        ensures
            r == self@.docs.len(),
    {
        self.files.len()
    }

    /// The document at position `i`.
    pub fn file(&self, i: usize) -> (r: &File)
        requires
            i < self@.docs.len(),
        ensures
            r@ == self@.docs[i as int],
            self.wf() ==> r.wf(),
    {
        &self.files[i]
    }

    /// How often `word` occurs over the whole corpus.
    pub fn count_in_dictionary(&self, word: &str) -> (r: usize)
        requires
            self.wf(),
        ensures
            r == count_in(self@.overall, word@),
    {
        let w = word.to_owned();
        self.dictionary.get(&w)
    }

    /// Each document's path with the number of occurrences of `word` in it,
    /// in the order of the documents.
    pub fn count_in_files(&self, word: &str) -> (r: Vec<(String, usize)>)
        requires
            self.wf(),
        ensures
            r.len() == self@.docs.len(),
            forall|i: int|
                0 <= i < r.len() ==> (#[trigger] r@[i]).0@ == self@.docs[i].0 && r@[i].1 == count_in(
                    self@.docs[i].1,
                    word@,
                ),
    {
        let w = word.to_owned();
        let mut r: Vec<(String, usize)> = Vec::new();
        let mut i: usize = 0;
        while i < self.files.len()
            invariant
                self.wf(),
                i <= self.files.len(),
                w@ == word@,
                r.len() == i,
                forall|k: int|
                    0 <= k < i ==> (#[trigger] r@[k]).0@ == self@.docs[k].0 && r@[k].1 == count_in(
                        self@.docs[k].1,
                        word@,
                    ),
            decreases self.files.len() - i,
        {
            let c = self.files[i].get_count(&w);
            r.push((self.files[i].path.clone(), c));
            i = i + 1;
        }
        r
    }

    /// An index of no documents.
    pub fn build() -> (r: Files)
        ensures
            r.wf(),
            r@.docs.len() == 0,
            r@.overall == Map::<Seq<char>, nat>::empty(),
    {
        let r = Files { files: Vec::new(), dictionary: TermCounts::new() };
        assert(docs_of(r.files@) =~= seq![]);
        r
    }

    /// Indexes the documents of a corpus, given as (path, extracted text)
    /// pairs; `None` stands for a text that could not be extracted. Under
    /// `Skip` such documents are left out and their paths returned beside the
    /// index; under `Abort` the first of them fails the build.
    pub fn new(docs: Vec<(String, Option<String>)>, policy: UnreadablePolicy) -> (r: Result<
        (Files, Vec<String>),
        IndexError,
    >)
        requires
            input_paths_distinct(docs@),
            text_len_total(docs@) <= usize::MAX,
        ensures
            r is Err <==> (policy == UnreadablePolicy::Abort && unreadable_paths(docs@).len() > 0),
            r matches Err(e) ==> e matches IndexError::PathUnreadable(p) && p@ == unreadable_paths(
                docs@,
            )[0],
            r matches Ok((f, skipped)) ==> {
                &&& f.wf()
                &&& index_consistent(f@)
                &&& f@.docs == readable_docs(docs@)
                &&& skipped@.map_values(|s: String| s@) == unreadable_paths(docs@)
            },
    {
        let mut results: Vec<Result<File, IndexError>> = Vec::new();
        let mut i: usize = 0;
        assert(docs@.take(0) =~= Seq::<(String, Option<String>)>::empty());
        while i < docs.len()
            invariant
                i <= docs.len(),
                results.len() == i,
                indexed_docs(results@) == readable_docs(docs@.take(i as int)),
                failed_paths(results@) == unreadable_paths(docs@.take(i as int)),
                indexed_wf(results@),
                indexed_total(results@) <= text_len_total(docs@.take(i as int)),
                forall|k: int| 0 <= k < i ==> (#[trigger] results@[k] matches Err(e) ==> e is PathUnreadable),
            decreases docs.len() - i,
        {
            let text = match &docs[i].1 {
                Some(t) => Some(t.as_str()),
                None => None,
            };
            let r = File::new(docs[i].0.as_str(), text);
            let ghost prev = results@;
            results.push(r);
            proof {
                let pre = docs@.take(i as int);
                let post = docs@.take(i as int + 1);
                assert(post.drop_last() =~= pre);
                assert(post.last() == docs@[i as int]);
                assert(results@.drop_last() =~= prev);
                assert(results@.last() == r);
                assert forall|k: int| 0 <= k < results@.len() implies (#[trigger] results@[k] matches Ok(f) ==> f.wf()) by {
                    if k < prev.len() {
                        assert(results@[k] == prev[k]);
                    }
                }
                assert forall|k: int| 0 <= k <= i implies (#[trigger] results@[k] matches Err(e) ==> e is PathUnreadable) by {
                    if k < i {
                        assert(results@[k] == prev[k]);
                    }
                }
            }
            i = i + 1;
        }
        assert(docs@.take(docs.len() as int) =~= docs@);
        proof {
            lemma_readable_distinct(docs@);
            lemma_text_total_prefix(docs@, docs.len() as int);
        }
        let r = Files::from_files(results, policy);
        proof {
            if r is Err {
                let e = r->Err_0;
                let k = choose|k: int| 0 <= k < results@.len() && results@[k] == Err::<File, IndexError>(e);
                assert(results@[k] matches Err(e) ==> e is PathUnreadable);
            }
        }
        r
    }
}

/// A document's count of a term is at most the term's count over the corpus.
pub proof fn lemma_doc_count_le_corpus(docs: Seq<DocView>, i: int, t: Seq<char>)
    requires
        0 <= i < docs.len(),
    ensures
        count_in(docs[i].1, t) <= corpus_count(docs, t),
    decreases docs.len(),
{
    if i < docs.len() - 1 {
        lemma_doc_count_le_corpus(docs.drop_last(), i, t);
    }
}

proof fn lemma_indexed_prefix(rs: Seq<Result<File, IndexError>>, n: int)
    requires
        0 <= n <= rs.len(),
    ensures
        indexed_total(rs.take(n)) <= indexed_total(rs),
        indexed_docs(rs.take(n)).len() <= indexed_docs(rs).len(),
        forall|k: int|
            0 <= k < indexed_docs(rs.take(n)).len() ==> #[trigger] indexed_docs(rs.take(n))[k]
                == indexed_docs(rs)[k],
    decreases rs.len(),
{
    if n == rs.len() {
        assert(rs.take(n) =~= rs);
    } else {
        assert(rs.drop_last().take(n) =~= rs.take(n));
        lemma_indexed_prefix(rs.drop_last(), n);
    }
}

proof fn lemma_failed_prefix(rs: Seq<Result<File, IndexError>>, n: int)
    requires
        0 <= n <= rs.len(),
    ensures
        failed_paths(rs.take(n)).len() <= failed_paths(rs).len(),
        forall|k: int|
            0 <= k < failed_paths(rs.take(n)).len() ==> #[trigger] failed_paths(rs.take(n))[k]
                == failed_paths(rs)[k],
    decreases rs.len(),
{
    if n == rs.len() {
        assert(rs.take(n) =~= rs);
    } else {
        assert(rs.drop_last().take(n) =~= rs.take(n));
        lemma_failed_prefix(rs.drop_last(), n);
    }
}

proof fn lemma_readable_distinct(input: Seq<(String, Option<String>)>)
    requires
        input_paths_distinct(input),
    ensures
        paths_distinct(readable_docs(input)),
    decreases input.len(),
{
    if input.len() > 0 {
        let d = input.drop_last();
        assert(input_paths_distinct(d)) by {
            assert forall|i: int, j: int| 0 <= i < j < d.len() implies d[i].0@ != d[j].0@ by {
                assert(d[i] == input[i] && d[j] == input[j]);
            }
        }
        lemma_readable_distinct(d);
        lemma_readable_paths(d);
        let rd = readable_docs(d);
        let r = readable_docs(input);
        if input.last().1 is Some {
            assert forall|a: int, b: int| 0 <= a < b < r.len() implies r[a].0 != r[b].0 by {
                if b == rd.len() {
                    let j = choose|j: int| 0 <= j < d.len() && d[j].0@ == #[trigger] rd[a].0;
                    assert(input[j] == d[j]);
                    assert(r[a] == rd[a]);
                } else {
                    assert(r[a] == rd[a] && r[b] == rd[b]);
                }
            }
        }
    }
}

proof fn lemma_text_total_prefix(input: Seq<(String, Option<String>)>, n: int)
    requires
        0 <= n <= input.len(),
    ensures
        text_len_total(input.take(n)) <= text_len_total(input),
    decreases input.len(),
{
    if n == input.len() {
        assert(input.take(n) =~= input);
    } else {
        assert(input.drop_last().take(n) =~= input.take(n));
        lemma_text_total_prefix(input.drop_last(), n);
    }
}

/// The view of an extracted text, if there is one.
pub open spec fn text_view(o: Option<String>) -> Option<Seq<char>> {
    match o {
        Some(s) => Some(s@),
        None => None,
    }
}

/// The input of a build by path: each path's extracted text, or `None`.
pub open spec fn input_map(input: Seq<(String, Option<String>)>) -> Map<Seq<char>, Option<Seq<char>>>
    decreases input.len(),
{
    if input.len() == 0 {
        Map::empty()
    } else {
        input_map(input.drop_last()).insert(input.last().0@, text_view(input.last().1))
    }
}

/// The per-document tables that an input by path calls for.
pub open spec fn expected_docs(m: Map<Seq<char>, Option<Seq<char>>>) -> Map<Seq<char>, Map<Seq<char>, nat>> {
    Map::new(|p: Seq<char>| m.contains_key(p) && m[p] is Some, |p: Seq<char>| tally(terms(m[p]->0)))
}

proof fn lemma_input_map_keys(input: Seq<(String, Option<String>)>)
    ensures
        forall|k: Seq<char>|
            input_map(input).contains_key(k) <==> exists|j: int| 0 <= j < input.len() && #[trigger] input[j].0@ == k,
    decreases input.len(),
{
    if input.len() > 0 {
        let d = input.drop_last();
        lemma_input_map_keys(d);
        assert forall|k: Seq<char>|
            input_map(input).contains_key(k) <==> exists|j: int| 0 <= j < input.len() && #[trigger] input[j].0@ == k by {
            if input_map(input).contains_key(k) {
                if k == input.last().0@ {
                    assert(input[input.len() - 1].0@ == k);
                } else {
                    assert(input_map(d).contains_key(k));
                    let j = choose|j: int| 0 <= j < d.len() && #[trigger] d[j].0@ == k;
                    assert(input[j] == d[j]);
                }
            }
            if exists|j: int| 0 <= j < input.len() && #[trigger] input[j].0@ == k {
                let j = choose|j: int| 0 <= j < input.len() && #[trigger] input[j].0@ == k;
                if j < d.len() {
                    assert(d[j] == input[j]);
                    assert(d[j].0@ == k);
                    assert(input_map(d).contains_key(k));
                } else {
                    assert(input.last().0@ == k);
                }
                assert(input_map(input).contains_key(k));
            }
        }
    }
}

proof fn lemma_doc_map_of_input(input: Seq<(String, Option<String>)>)
    requires
        input_paths_distinct(input),
    ensures
        doc_map(readable_docs(input)) == expected_docs(input_map(input)),
    decreases input.len(),
{
    if input.len() == 0 {
        assert(doc_map(readable_docs(input)) =~= expected_docs(input_map(input)));
    } else {
        let d = input.drop_last();
        let x = input.last();
        lemma_doc_map_of_input(d);
        lemma_input_map_keys(d);
        assert(!input_map(d).contains_key(x.0@)) by {
            if input_map(d).contains_key(x.0@) {
                let j = choose|j: int| 0 <= j < d.len() && #[trigger] d[j].0@ == x.0@;
                assert(input[j] == d[j]);
            }
        }
        match x.1 {
            Some(text) => {
                let v = (x.0@, tally(terms(text@)));
                let r = readable_docs(input);
                assert(r == readable_docs(d).push(v));
                assert(r.drop_last() =~= readable_docs(d));
                assert(r.last() == v);
                assert(doc_map(r) == doc_map(readable_docs(d)).insert(v.0, v.1));
            },
            None => {
                assert(readable_docs(input) == readable_docs(d));
            },
        }
        assert(doc_map(readable_docs(input)) =~= expected_docs(input_map(input)));
    }
}

pub proof fn lemma_doc_map_keys(docs: Seq<DocView>)
    requires
        paths_distinct(docs),
    ensures
        forall|j: int|
            0 <= j < docs.len() ==> doc_map(docs).contains_key(#[trigger] docs[j].0) && doc_map(docs)[docs[j].0]
                == docs[j].1,
        forall|k: Seq<char>|
            doc_map(docs).contains_key(k) ==> exists|j: int| 0 <= j < docs.len() && #[trigger] docs[j].0 == k,
    decreases docs.len(),
{
    if docs.len() > 0 {
        let d = docs.drop_last();
        lemma_doc_map_keys(d);
        assert forall|k: Seq<char>| doc_map(docs).contains_key(k) implies exists|j: int|
            0 <= j < docs.len() && #[trigger] docs[j].0 == k by {
            if k != docs.last().0 {
                assert(doc_map(d).contains_key(k));
                let j = choose|j: int| 0 <= j < d.len() && #[trigger] d[j].0 == k;
                assert(docs[j] == d[j]);
            } else {
                assert(docs[docs.len() - 1].0 == k);
            }
        }
        assert forall|j: int| 0 <= j < docs.len() implies doc_map(docs).contains_key(#[trigger] docs[j].0)
            && doc_map(docs)[docs[j].0] == docs[j].1 by {
            if j < docs.len() - 1 {
                assert(d[j] == docs[j]);
            }
        }
    }
}

proof fn lemma_doc_map_remove(docs: Seq<DocView>, k: int)
    requires
        paths_distinct(docs),
        0 <= k < docs.len(),
    ensures
        doc_map(docs.remove(k)) == doc_map(docs).remove(docs[k].0),
    decreases docs.len(),
{
    let d = docs.drop_last();
    lemma_doc_map_keys(d);
    if k == docs.len() - 1 {
        assert(docs.remove(k) =~= d);
        assert(!doc_map(d).contains_key(docs[k].0)) by {
            if doc_map(d).contains_key(docs[k].0) {
                let j = choose|j: int| 0 <= j < d.len() && #[trigger] d[j].0 == docs[k].0;
                assert(docs[j] == d[j]);
            }
        }
        assert(doc_map(docs.remove(k)) =~= doc_map(docs).remove(docs[k].0));
    } else {
        assert(docs.remove(k).drop_last() =~= d.remove(k));
        assert(docs.remove(k).last() == docs.last());
        lemma_doc_map_remove(d, k);
        assert(d[k] == docs[k]);
        assert(doc_map(docs.remove(k)) =~= doc_map(docs).remove(docs[k].0));
    }
}

proof fn lemma_corpus_count_remove(docs: Seq<DocView>, k: int, t: Seq<char>)
    requires
        0 <= k < docs.len(),
    ensures
        corpus_count(docs, t) == corpus_count(docs.remove(k), t) + count_in(docs[k].1, t),
    decreases docs.len(),
{
    if k == docs.len() - 1 {
        assert(docs.remove(k) =~= docs.drop_last());
    } else {
        let d = docs.drop_last();
        assert(docs.remove(k).drop_last() =~= d.remove(k));
        assert(docs.remove(k).last() == docs.last());
        lemma_corpus_count_remove(d, k, t);
        assert(d[k] == docs[k]);
    }
}

proof fn lemma_corpus_count_by_map(a: Seq<DocView>, b: Seq<DocView>, t: Seq<char>)
    requires
        paths_distinct(a),
        paths_distinct(b),
        doc_map(a) == doc_map(b),
    ensures
        corpus_count(a, t) == corpus_count(b, t),
    decreases a.len(),
{
    lemma_doc_map_keys(a);
    lemma_doc_map_keys(b);
    if a.len() == 0 {
        if b.len() > 0 {
            assert(doc_map(b).contains_key(b[0].0));
        }
    } else {
        let x = a.last();
        let d = a.drop_last();
        assert(a[a.len() - 1] == x);
        assert(doc_map(b).contains_key(x.0));
        let k = choose|j: int| 0 <= j < b.len() && #[trigger] b[j].0 == x.0;
        assert(b[k] == x);
        lemma_doc_map_remove(a, a.len() - 1);
        assert(a.remove(a.len() - 1) =~= d);
        lemma_doc_map_remove(b, k);
        let e = b.remove(k);
        assert(paths_distinct(e)) by {
            assert forall|i: int, j: int| 0 <= i < j < e.len() implies e[i].0 != e[j].0 by {
                let bi = if i < k { i } else { i + 1 };
                let bj = if j < k { j } else { j + 1 };
                assert(e[i] == b[bi] && e[j] == b[bj]);
            }
        }
        assert(paths_distinct(d)) by {
            assert forall|i: int, j: int| 0 <= i < j < d.len() implies d[i].0 != d[j].0 by {
                assert(d[i] == a[i] && d[j] == a[j]);
            }
        }
        lemma_corpus_count_by_map(d, e, t);
        lemma_corpus_count_remove(b, k, t);
    }
}

/// Two tables with positive counts that count every term alike are equal.
pub proof fn lemma_counts_determine_table(m1: Map<Seq<char>, nat>, m2: Map<Seq<char>, nat>)
    requires
        forall|t: Seq<char>| m1.contains_key(t) ==> m1[t] > 0,
        forall|t: Seq<char>| m2.contains_key(t) ==> m2[t] > 0,
        forall|t: Seq<char>| count_in(m1, t) == count_in(m2, t),
    ensures
        m1 == m2,
{
    assert forall|t: Seq<char>| m1.contains_key(t) <==> m2.contains_key(t) by {
        assert(count_in(m1, t) == count_in(m2, t));
    }
    assert forall|t: Seq<char>| m1.contains_key(t) implies m1[t] == m2[t] by {
        assert(count_in(m1, t) == count_in(m2, t));
    }
    assert(m1 =~= m2);
}

/// Idempotence: builds from the same documents (the same paths with the same
/// texts, in any order) give equal per-document tables, as a mapping from
/// path, and equal corpus counts.
pub proof fn lemma_build_order_independent(
    a: Seq<(String, Option<String>)>,
    b: Seq<(String, Option<String>)>,
    fa: FilesView,
    fb: FilesView,
)
    requires
        input_paths_distinct(a),
        input_paths_distinct(b),
        input_map(a) == input_map(b),
        index_consistent(fa),
        fa.docs == readable_docs(a),
        index_consistent(fb),
        fb.docs == readable_docs(b),
    ensures
        doc_map(fa.docs) == doc_map(fb.docs),
        fa.overall == fb.overall,
{
    lemma_doc_map_of_input(a);
    lemma_doc_map_of_input(b);
    assert forall|t: Seq<char>| count_in(fa.overall, t) == count_in(fb.overall, t) by {
        lemma_corpus_count_by_map(fa.docs, fb.docs, t);
    }
    lemma_counts_determine_table(fa.overall, fb.overall);
}

} // verus!
