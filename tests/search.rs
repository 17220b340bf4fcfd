use doc_search::files::{Files, UnreadablePolicy};
use doc_search::files_cache::{Lookup, Slot};
use doc_search::search::{rank, Search, SCORE_SCALE};

fn build(docs: &[(&str, &str)]) -> Files {
    let docs = docs.iter().map(|(p, t)| (p.to_string(), Some(t.to_string()))).collect();
    Files::new(docs, UnreadablePolicy::Skip).unwrap().0
}

fn paths(r: &[(String, u128)]) -> Vec<&str> {
    r.iter().map(|(p, _)| p.as_str()).collect()
}

#[test]
fn test_search() {
    let root = "Test\\";
    let prompt = "programming";
    let files = build(&[
        ("Test\\a.txt", "tensor programming"),
        ("Test\\b.txt", "programming programming"),
        ("Test\\c.txt", "nothing here"),
    ]);
    let mut search = Search::default();
    assert_eq!(search.lookup(root), Lookup::Build);
    let (ranking, slot) = search.search(root, prompt, &files);
    assert_eq!(slot, Some(Slot::Fresh(0)));
    assert_eq!(paths(&ranking), vec!["Test\\b.txt", "Test\\a.txt", "Test\\c.txt"]);
    assert_eq!(search.lookup(root), Lookup::Load(0));
    assert_eq!(search.cache().path(), "Cache\\cache.bin");
    assert_eq!(search.cache().files_cache(), "Cache\\FilesCache");
    let (_, again) = search.search(root, prompt, &files);
    assert_eq!(again, Some(Slot::Cached(0)));
}

#[test]
fn ranking_scores_are_corpus_shares() {
    let files = build(&[("docA", "cat cat"), ("docB", "cat")]);
    let r = rank(&files, "cat");
    assert_eq!(paths(&r), vec!["docA", "docB"]);
    assert_eq!(r[0].1, 2 * SCORE_SCALE / 3);
    assert_eq!(r[1].1, SCORE_SCALE / 3);
    assert_eq!(r[0].1, 2863311530);
    assert!(((r[0].1 as f64 / SCORE_SCALE as f64) - 0.667).abs() < 0.001);
    assert!(((r[1].1 as f64 / SCORE_SCALE as f64) - 0.333).abs() < 0.001);
}

#[test]
fn ranking_sums_over_query_terms() {
    let files = build(&[("x", "cat dog"), ("y", "dog dog dog"), ("z", "cat")]);
    let r = rank(&files, "CAT dog");
    // x: 1/2 + 1/4, y: 3/4, z: 1/2; x and y tie on score and go by path.
    assert_eq!(paths(&r), vec!["x", "y", "z"]);
    assert_eq!(r[0].1, SCORE_SCALE / 2 + SCORE_SCALE / 4);
    assert_eq!(r[1].1, 3 * SCORE_SCALE / 4);
    assert_eq!(r[2].1, SCORE_SCALE / 2);
    let twice = rank(&files, "cat cat");
    assert_eq!(twice[0].1, SCORE_SCALE);
}

#[test]
fn absent_or_empty_query_scores_zero_in_path_order() {
    let names: Vec<String> = (0..12).map(|i| format!("d{:02}", 11 - i)).collect();
    let docs: Vec<(&str, &str)> = names.iter().map(|n| (n.as_str(), "some words")).collect();
    let files = build(&docs);
    for q in ["", "zebra", "   ", "some?"] {
        let r = rank(&files, q);
        assert_eq!(r.len(), 10);
        assert!(r.iter().all(|(_, s)| *s == 0));
        let expected: Vec<String> = (0..10).map(|i| format!("d{:02}", i)).collect();
        assert_eq!(paths(&r), expected.iter().map(|s| s.as_str()).collect::<Vec<_>>());
    }
}

#[test]
fn at_most_ten_results() {
    let names: Vec<String> = (0..15).map(|i| format!("doc{:02}", i)).collect();
    let texts: Vec<String> = (0..15).map(|i| "w ".repeat(i + 1)).collect();
    let docs: Vec<(&str, &str)> =
        names.iter().zip(texts.iter()).map(|(n, t)| (n.as_str(), t.as_str())).collect();
    let files = build(&docs);
    let r = rank(&files, "w");
    assert_eq!(r.len(), 10);
    assert_eq!(r[0].0, "doc14");
    assert_eq!(r[9].0, "doc05");
    assert!(r.windows(2).all(|w| w[0].1 > w[1].1));
}

#[test]
fn fewer_than_ten_documents_all_returned() {
    let files = build(&[("b", "x"), ("a", "y")]);
    let r = rank(&files, "x");
    assert_eq!(paths(&r), vec!["b", "a"]);
    assert_eq!(r[1].1, 0);
}

#[test]
fn empty_corpus_ranks_nothing() {
    let files = build(&[]);
    assert!(rank(&files, "anything at all").is_empty());
    assert!(rank(&files, "").is_empty());
}

#[test]
fn round_trip_ranks_alike() {
    let files = build(&[("p", "alpha beta beta"), ("q", "beta gamma"), ("r", "alpha")]);
    let back = Files::from_parts(files.to_parts()).unwrap();
    for q in ["alpha", "beta", "gamma alpha", "", "delta"] {
        assert_eq!(rank(&files, q), rank(&back, q));
    }
}

#[test]
fn search_session_over_loaded_cache() {
    let mut s = Search::new("m.bin", "slots");
    let files = build(&[("a", "x")]);
    assert_eq!(s.search("r1", "x", &files).1, Some(Slot::Fresh(0)));
    assert_eq!(s.search("r2", "x", &files).1, Some(Slot::Fresh(1)));
    let cache = s.cache();
    assert_eq!(cache.entries(), vec![("r1".to_string(), 0), ("r2".to_string(), 1)]);
}

#[test]
fn ranking_compares_exact_scores() {
    // Exact scores: w = 3 * 2/3 = 2, x = 3 * 1/3 = 1, y = 1/1 = 1; x and y
    // tie exactly and go by path.
    let files = build(&[("w", "a a"), ("x", "a"), ("y", "b")]);
    let r = rank(&files, "a a a b");
    assert_eq!(paths(&r), vec!["w", "x", "y"]);
}

#[test]
fn ranking_separates_scores_closer_than_display_units() {
    // y scores 1 - 1/(65536 * 65537), x scores exactly 1: both round to the
    // same display score, yet x ranks first.
    let mut big_a = String::new();
    let mut big_b = String::new();
    let mut third_c = String::new();
    let mut third_d = String::new();
    let mut third_e = String::new();
    for _ in 0..65535 {
        big_a.push_str("a ");
    }
    big_b.push_str("b ");
    for _ in 0..1 {
        third_c.push_str("c ");
        third_d.push_str("d ");
        third_e.push_str("e ");
    }
    let y_text = format!("{}{}", big_a, big_b);
    let x_text = format!("{}{}{}", third_c, third_d, third_e);
    let mut rest_b = String::new();
    for _ in 0..65536 {
        rest_b.push_str("b ");
    }
    let files = build(&[
        ("a_rest", "a"),
        ("b_rest", rest_b.as_str()),
        ("c_rest", "c c"),
        ("d_rest", "d d"),
        ("e_rest", "e e"),
        ("x", x_text.as_str()),
        ("y", y_text.as_str()),
    ]);
    assert_eq!(files.count_in_dictionary("a"), 65536);
    assert_eq!(files.count_in_dictionary("b"), 65537);
    let r = rank(&files, "a b c d e");
    assert_eq!(paths(&r)[0], "x");
    assert_eq!(paths(&r)[1], "y");
    assert_eq!(r[0].1, r[1].1);
}
