//! The single-slot index cache: at most one index, tagged with the root it
//! was built for.
use vstd::prelude::*;
use crate::files::{index_consistent, parts_valid, parts_view, DocParts, Files, FilesView};
use crate::term_counts::count_in;

verus! {

/// Whether a single-slot cache whose stored index is tagged `tag` must build
/// anew to serve `root`: on any difference of root, however small.
pub open spec fn single_slot_builds(tag: Option<Seq<char>>, root: Seq<char>) -> bool {
    tag != Some(root)
}

/// The tag of a single-slot cache once it has served `root`.
pub open spec fn single_slot_tag_after(tag: Option<Seq<char>>, root: Seq<char>) -> Option<Seq<char>> {
    Some(root)
}

/// Single-slot policy: once a root has been served, serving it again is a
/// pure cache hit, whatever the cache held before.
pub proof fn lemma_single_slot_second_call_hits(tag: Option<Seq<char>>, root: Seq<char>)
    ensures
        !single_slot_builds(single_slot_tag_after(tag, root), root),
        single_slot_tag_after(single_slot_tag_after(tag, root), root) == single_slot_tag_after(
            tag,
            root,
        ),
{
}

/// Serving the roots `roots` one after another from a single-slot cache
/// tagged `tag`: the final tag, and how many times an index was built.
pub open spec fn single_slot_run(tag: Option<Seq<char>>, roots: Seq<Seq<char>>) -> (Option<Seq<char>>, nat)
    decreases roots.len(),
{
    if roots.len() == 0 {
        (tag, 0)
    } else {
        let (t, n) = single_slot_run(tag, roots.drop_last());
        let r = roots.last();
        (single_slot_tag_after(t, r), n + if single_slot_builds(t, r) {
            1nat
        } else {
            0nat
        })
    }
}

/// Single-slot policy: serving the same root twice in succession builds at
/// most once, and not at all where the cache already held that root.
pub proof fn lemma_single_slot_builds_once(tag: Option<Seq<char>>, root: Seq<char>)
    ensures
        single_slot_run(tag, seq![root, root]).1 <= 1,
        tag == Some(root) ==> single_slot_run(tag, seq![root, root]).1 == 0,
        single_slot_run(tag, seq![root, root]).0 == Some(root),
{
    reveal_with_fuel(single_slot_run, 3);
    assert(seq![root, root].drop_last() =~= seq![root]);
    assert(seq![root].drop_last() =~= Seq::<Seq<char>>::empty());
}

/// A corpus index together with the root it was built for.
pub struct Count {
    root: String,
    files: Files,
}

/// The tag of a stored index, if there is one.
pub open spec fn tag_of(stored: Option<Count>) -> Option<Seq<char>> {
    match stored {
        Some(c) => Some(c.tag()),
        None => None,
    }
}

impl Count {
    /// Well formed: the index is.
    pub closed spec fn wf(&self) -> bool {
        self.files.wf()
    }

    /// The root that the index was built for.
    pub closed spec fn tag(&self) -> Seq<char> {
        self.root@
    }

    /// The index.
    pub closed spec fn index(&self) -> FilesView {
        self.files@
    }

    /// Each term's corpus count in a well-formed index is the sum of its
    /// counts in the documents.
    pub proof fn lemma_consistent(&self)
        requires
            self.wf(),
        ensures
            index_consistent(self.index()),
    {
        self.files.lemma_consistent();
    }

    /// The index `files`, built for `root`.
    pub fn new(root: &str, files: Files) -> (r: Count)
        ensures
            r.tag() == root@,
            r.index() == files@,
            r.wf() == files.wf(),
    {
        Count { root: root.to_owned(), files }
    }

    /// The stored index where it was built for `root`; `None` where the
    /// index must be built anew.
    pub fn cached(stored: Option<Count>, root: &str) -> (r: Option<Count>)
        ensures
            r is Some <==> !single_slot_builds(tag_of(stored), root@),
            r is Some ==> r == stored,
    {
        match stored {
            Some(c) => {
                let key = root.to_owned();
                if c.root == key {
                    Some(c)
                } else {
                    None
                }
            },
            None => None,
        }
    }

    /// Whether the index must be written out, given the root of the index
    /// that is persisted now: only where that root differs or there is none.
    pub fn needs_write(&self, persisted_root: Option<&str>) -> (r: bool)
        ensures
            r == single_slot_builds(
                match persisted_root {
                    Some(p) => Some(p@),
                    None => None,
                },
                self.tag(),
            ),
    {
        match persisted_root {
            Some(p) => {
                let key = p.to_owned();
                !(key == self.root)
            },
            None => true,
        }
    }

    /// The root that the index was built for.
    pub fn root(&self) -> (r: &String)
        ensures
            r@ == self.tag(),
    {
        &self.root
    }

    /// The index.
    pub fn files(&self) -> (r: &Files)
        ensures
            r@ == self.index(),
            self.wf() ==> r.wf(),
    {
        &self.files
    }

    /// The index, taken out.
    pub fn into_files(self) -> (r: Files)
        ensures
            r@ == self.index(),
            self.wf() ==> r.wf(),
    {
        self.files
    }

    /// How often `word` occurs over the corpus.
    pub fn overall_counts(&self, word: &str) -> (r: usize)
        requires
            self.wf(),
        ensures
            r == count_in(self.index().overall, word@),
    {
        self.files.count_in_dictionary(word)
    }

    /// Each document's path with its (term, count) pairs.
    pub fn in_files_count(&self) -> (r: Vec<DocParts>)
        requires
            self.wf(),
        ensures
            parts_valid(r@),
            parts_view(r@) == self.index().docs,
    {
        self.files.to_parts()
    }
}

} // verus!
