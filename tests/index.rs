use doc_search::counts::Count;
use doc_search::files::{File, Files, IndexError, UnreadablePolicy};
use doc_search::files_cache::{CacheMap, Lookup, Slot};
use doc_search::tokenizer::{char_is_space, select_terms, split_words, tokenize};

fn doc(path: &str, text: &str) -> (String, Option<String>) {
    (path.to_string(), Some(text.to_string()))
}

fn corpus() -> Vec<(String, Option<String>)> {
    vec![
        doc("Test\\a.txt", "Tensor algebra and tensor calculus"),
        doc("Test\\b.txt", "Programming with tensor libraries, programming daily"),
        doc("Test\\Category.pdf", "Category theory for programming"),
    ]
}

fn build(docs: Vec<(String, Option<String>)>) -> Files {
    Files::new(docs, UnreadablePolicy::Skip).unwrap().0
}

fn sorted(mut v: Vec<(String, usize)>) -> Vec<(String, usize)> {
    v.sort();
    v
}

#[test]
fn test_overall_counts() {
    let root = "Test\\";
    let counts = Count::new(root, build(corpus()));
    assert_eq!(counts.root(), "Test\\");
    assert_eq!(counts.overall_counts("tensor"), 3);
    assert_eq!(counts.overall_counts("programming"), 3);
    assert_eq!(counts.overall_counts("libraries,"), 0);
    assert_eq!(counts.overall_counts("absent"), 0);
}

#[test]
fn test_in_files_count() {
    let root = "Test\\";
    let counts = Count::new(root, build(corpus()));
    let per_file = counts.in_files_count();
    assert_eq!(per_file.len(), 3);
    assert_eq!(per_file[0].0, "Test\\a.txt");
    assert_eq!(
        sorted(per_file[0].1.clone()),
        vec![
            ("algebra".to_string(), 1),
            ("and".to_string(), 1),
            ("calculus".to_string(), 1),
            ("tensor".to_string(), 2)
        ]
    );
    assert_eq!(
        sorted(per_file[1].1.clone()),
        vec![
            ("daily".to_string(), 1),
            ("programming".to_string(), 2),
            ("tensor".to_string(), 1),
            ("with".to_string(), 1)
        ]
    );
}

#[test]
fn test_print() {
    let file_path = "Test\\Category.pdf";
    let file = File::new(file_path, Some("Category theory, Category THEORY")).unwrap();
    assert_eq!(file.path(), "Test\\Category.pdf");
    assert_eq!(sorted(file.entries()), vec![("category".to_string(), 2), ("theory".to_string(), 1)]);
}

#[test]
fn test_files() {
    let root_docs = corpus();
    let files = build(root_docs);
    assert_eq!(files.len(), 3);
    assert_eq!(files.file(2).path(), "Test\\Category.pdf");
    assert_eq!(files.count_in_dictionary("category"), 1);
    assert_eq!(files.count_in_dictionary("theory"), 1);
}

#[test]
fn test_files_count() {
    let files = build(corpus());
    let word = "tensor";
    let count = files.count_in_dictionary(word);
    assert_eq!(count, 3);
    let per_file = files.count_in_files(word);
    assert_eq!(
        per_file,
        vec![
            ("Test\\a.txt".to_string(), 2),
            ("Test\\b.txt".to_string(), 1),
            ("Test\\Category.pdf".to_string(), 0)
        ]
    );
}

#[test]
fn test_serialization() {
    let files = build(corpus());
    let parts = files.to_parts();
    let back = Files::from_parts(parts.clone()).unwrap();
    assert_eq!(back.to_parts(), parts);
    assert_eq!(back.count_in_dictionary("tensor"), files.count_in_dictionary("tensor"));
    assert_eq!(back.count_in_files("programming"), files.count_in_files("programming"));
}

#[test]
fn test_cache() {
    let mut cache = CacheMap::build("Cache\\cache.bin", "Cache\\FilesCache");
    let root = "Test\\Math";
    assert_eq!(cache.get_files(root), Lookup::Build);
    assert_eq!(cache.add_files(root), Some(Slot::Fresh(0)));
    assert_eq!(cache.get_files(root), Lookup::Load(0));
    assert_eq!(cache.add_files(root), Some(Slot::Cached(0)));
    assert_eq!(cache.next_slot(), 1);
}

#[test]
fn tokenizer_keeps_alphanumeric_words_lowercased() {
    let t = tokenize("  Hello, WORLD\tfoo-bar Übung x2\n\u{2003}ÄBC 42  ");
    assert_eq!(t, vec!["world", "übung", "x2", "äbc", "42"]);
}

#[test]
fn tokenizer_of_empty_text_is_empty() {
    assert!(tokenize("").is_empty());
    assert!(tokenize(" \t\n ").is_empty());
    assert!(tokenize("?! ...").is_empty());
}

#[test]
fn document_counts_sum_to_token_count() {
    let text = "a b a c? C c";
    let file = File::new("d", Some(text)).unwrap();
    let total: usize = file.entries().iter().map(|e| e.1).sum();
    assert_eq!(total, tokenize(text).len());
    assert_eq!(total, 5);
}

#[test]
fn empty_document_has_empty_table() {
    let file = File::new("empty.txt", Some("")).unwrap();
    assert!(file.entries().is_empty());
}

#[test]
fn unreadable_document_is_reported() {
    assert_eq!(
        File::new("bad.pdf", None).err(),
        Some(IndexError::PathUnreadable("bad.pdf".to_string()))
    );
}

#[test]
fn overall_counts_are_sums_over_documents() {
    let files = build(corpus());
    for word in ["tensor", "programming", "category", "and", "nothing"] {
        let per_file: usize = files.count_in_files(word).iter().map(|e| e.1).sum();
        assert_eq!(files.count_in_dictionary(word), per_file);
    }
}

#[test]
fn build_is_independent_of_document_order() {
    let a = build(corpus());
    let mut reversed = corpus();
    reversed.reverse();
    let b = build(reversed);
    let mut pa: Vec<(String, Vec<(String, usize)>)> =
        a.to_parts().into_iter().map(|(p, e)| (p, sorted(e))).collect();
    let mut pb: Vec<(String, Vec<(String, usize)>)> =
        b.to_parts().into_iter().map(|(p, e)| (p, sorted(e))).collect();
    pa.sort();
    pb.sort();
    assert_eq!(pa, pb);
    for word in ["tensor", "programming", "category", "daily"] {
        assert_eq!(a.count_in_dictionary(word), b.count_in_dictionary(word));
    }
}

#[test]
fn skip_policy_leaves_unreadable_out() {
    let mut docs = corpus();
    docs.insert(1, ("Test\\broken.pdf".to_string(), None));
    let (files, skipped) = Files::new(docs, UnreadablePolicy::Skip).unwrap();
    assert_eq!(skipped, vec!["Test\\broken.pdf".to_string()]);
    assert_eq!(files.len(), 3);
    assert_eq!(files.count_in_dictionary("tensor"), 3);
}

#[test]
fn abort_policy_fails_on_first_unreadable() {
    let mut docs = corpus();
    docs.push(("Test\\x.pdf".to_string(), None));
    docs.push(("Test\\y.pdf".to_string(), None));
    let r = Files::new(docs, UnreadablePolicy::Abort);
    assert_eq!(r.err(), Some(IndexError::PathUnreadable("Test\\x.pdf".to_string())));
    assert!(Files::new(corpus(), UnreadablePolicy::Abort).is_ok());
}

#[test]
fn empty_corpus_builds_empty_index() {
    let (files, skipped) = Files::new(Vec::new(), UnreadablePolicy::Abort).unwrap();
    assert_eq!(files.len(), 0);
    assert_eq!(Files::build().to_parts(), files.to_parts());
    assert!(skipped.is_empty());
    assert!(files.to_parts().is_empty());
    assert_eq!(files.count_in_dictionary("anything"), 0);
}

#[test]
fn invalid_stored_parts_are_corrupt() {
    let dup_terms = vec![("p".to_string(), vec![("a".to_string(), 1), ("a".to_string(), 2)])];
    assert!(Files::from_parts(dup_terms.clone()).is_none());
    let zero = vec![("p".to_string(), vec![("a".to_string(), 0)])];
    assert!(Files::from_parts(zero).is_none());
    let dup_paths = vec![("p".to_string(), vec![]), ("p".to_string(), vec![])];
    assert!(Files::from_parts(dup_paths).is_none());
    assert_eq!(
        Files::from_stored("Cache\\FilesCache\\0.bin", Some(dup_terms)).err(),
        Some(IndexError::CacheCorrupt("Cache\\FilesCache\\0.bin".to_string()))
    );
    assert_eq!(
        Files::from_stored("h", None).err(),
        Some(IndexError::CacheCorrupt("h".to_string()))
    );
    assert!(Files::from_stored("h", Some(Vec::new())).is_ok());
}

#[test]
fn single_slot_second_request_is_a_hit() {
    let first = Count::cached(None, "Test\\");
    assert!(first.is_none());
    let built = Count::new("Test\\", build(corpus()));
    let again = Count::cached(Some(built), "Test\\").unwrap();
    assert_eq!(again.overall_counts("tensor"), 3);
    assert!(Count::cached(Some(again), "Test\\\\").is_none());
}

#[test]
fn single_slot_writes_only_on_root_change() {
    let c = Count::new("Test\\", build(corpus()));
    assert!(!c.needs_write(Some("Test\\")));
    assert!(c.needs_write(Some("Test")));
    assert!(c.needs_write(None));
}

#[test]
fn multi_slot_distinct_roots_get_distinct_slots() {
    let mut cache = CacheMap::build("c.bin", "slots");
    assert_eq!(cache.add_files("root1"), Some(Slot::Fresh(0)));
    assert_eq!(cache.add_files("root2"), Some(Slot::Fresh(1)));
    assert_eq!(cache.add_files("root1"), Some(Slot::Cached(0)));
    assert_eq!(cache.add_files("root2"), Some(Slot::Cached(1)));
    assert_eq!(cache.get_files("root1"), Lookup::Load(0));
    assert_eq!(cache.get_files("root2"), Lookup::Load(1));
    assert_eq!(cache.get_files("root3"), Lookup::Build);
}

#[test]
fn cache_entries_round_trip() {
    let mut cache = CacheMap::build("c.bin", "slots");
    cache.add_files("a");
    cache.add_files("b");
    let back = CacheMap::from_entries("c.bin", "slots", &cache.entries(), cache.next_slot()).unwrap();
    assert_eq!(back.entries(), cache.entries());
    assert_eq!(back.get_files("b"), Lookup::Load(1));
    assert_eq!(back.path(), "c.bin");
    assert_eq!(back.files_cache(), "slots");
    let clash = vec![("a".to_string(), 0), ("b".to_string(), 0)];
    assert!(CacheMap::from_entries("c.bin", "slots", &clash, 5).is_none());
    let high = vec![("a".to_string(), 7)];
    assert!(CacheMap::from_entries("c.bin", "slots", &high, 7).is_none());
}

#[test]
fn merging_separately_indexed_files_matches_build() {
    let built = build(corpus());
    let results: Vec<Result<File, IndexError>> =
        corpus().iter().map(|(p, t)| File::new(p, t.as_deref())).collect();
    let (merged, skipped) = Files::from_files(results, UnreadablePolicy::Abort).unwrap();
    assert!(skipped.is_empty());
    assert_eq!(merged.to_parts(), built.to_parts());
    for word in ["tensor", "programming", "category"] {
        assert_eq!(merged.count_in_dictionary(word), built.count_in_dictionary(word));
    }
}

#[test]
fn merging_reports_or_fails_on_unreadable() {
    let results = vec![
        File::new("a", Some("x y")),
        File::new("b", None),
        File::new("c", Some("y")),
        File::new("d", None),
    ];
    let (files, skipped) = Files::from_files(results, UnreadablePolicy::Skip).unwrap();
    assert_eq!(skipped, vec!["b".to_string(), "d".to_string()]);
    assert_eq!(files.len(), 2);
    assert_eq!(files.count_in_dictionary("y"), 2);
    let results = vec![File::new("a", Some("x")), File::new("b", None), File::new("d", None)];
    assert_eq!(
        Files::from_files(results, UnreadablePolicy::Abort).err(),
        Some(IndexError::PathUnreadable("b".to_string()))
    );
}

#[test]
fn whitespace_is_the_unicode_set() {
    for c in [' ', '\t', '\n', '\r', '\u{0b}', '\u{0c}', '\u{85}', '\u{a0}', '\u{1680}', '\u{2003}', '\u{2028}', '\u{3000}'] {
        assert!(char_is_space(c));
        assert_eq!(char_is_space(c), c.is_whitespace());
    }
    for c in ['a', '_', '\u{200b}', '\u{180e}', '0', '\u{feff}'] {
        assert!(!char_is_space(c));
        assert_eq!(char_is_space(c), c.is_whitespace());
    }
}

#[test]
fn split_words_keeps_every_word() {
    let w = split_words("  a,b \t c\u{3000}d  ");
    let w: Vec<String> = w.iter().map(|cs| cs.iter().collect()).collect();
    assert_eq!(w, vec!["a,b", "c", "d"]);
    assert!(split_words("").is_empty());
    assert!(split_words(" \n ").is_empty());
}

#[test]
fn select_terms_keeps_flagged_candidates_in_order() {
    let cands = vec!["a".to_string(), "b,".to_string(), "c".to_string(), "d".to_string()];
    let r = select_terms(cands, &vec![true, false, true, false]);
    assert_eq!(r, vec!["a", "c"]);
    assert!(select_terms(Vec::new(), &Vec::new()).is_empty());
}
