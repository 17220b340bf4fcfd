//! Ranking of the documents of an index against a query, and the search
//! session that keeps the cache of indices.
use vstd::prelude::*;
use crate::files::{
    doc_map, lemma_doc_map_keys,
    index_consistent, lemma_doc_count_le_corpus, parts_valid, parts_view, paths_distinct, DocParts,
    DocView, Files, FilesView,
};
use crate::bignum::{big_add, big_from, big_lt, big_mul_small, big_val};
use crate::files_cache::{after_add, CacheMap, CacheView, Lookup, Slot};
use crate::term_counts::count_in;
use crate::tokenizer::{terms, tokenize, views};

verus! {

/// Units of score in one whole: a term that occurs in one document only adds
/// this much to that document's score.
pub const SCORE_SCALE: u128 = 4294967296;

/// The most documents that a query returns.
pub const TOP_K: usize = 10;

/// The share of a term's corpus count that falls in one document, in units of
/// `SCORE_SCALE`, rounded down; zero for a term that the corpus lacks.
pub open spec fn term_score(c: nat, o: nat) -> nat {
    if o == 0 {
        0
    } else {
        ((c * SCORE_SCALE) / (o as int)) as nat
    }
}

/// The score of a document with table `doc` for the query terms `q`.
pub open spec fn doc_score(doc: Map<Seq<char>, nat>, overall: Map<Seq<char>, nat>, q: Seq<Seq<char>>) -> nat
    decreases q.len(),
{
    if q.len() == 0 {
        0
    } else {
        doc_score(doc, overall, q.drop_last()) + term_score(
            count_in(doc, q.last()),
            count_in(overall, q.last()),
        )
    }
}

/// The common denominator of the exact scores for `q`: the product of the
/// corpus counts of the terms of `q` that the corpus holds.
pub open spec fn exact_den(overall: Map<Seq<char>, nat>, q: Seq<Seq<char>>) -> nat
    decreases q.len(),
{
    if q.len() == 0 {
        1
    } else {
        let d = exact_den(overall, q.drop_last());
        let o = count_in(overall, q.last());
        if o == 0 {
            d
        } else {
            (d * o) as nat
        }
    }
}

/// The numerator of the exact score of a document with table `doc` for `q`:
/// the score is the sum, over the terms `t` of `q` that the corpus holds, of
/// `count_in(doc, t) / count_in(overall, t)`, which equals
/// `exact_num(doc, overall, q) / exact_den(overall, q)`.
pub open spec fn exact_num(doc: Map<Seq<char>, nat>, overall: Map<Seq<char>, nat>, q: Seq<Seq<char>>) -> nat
    decreases q.len(),
{
    if q.len() == 0 {
        0
    } else {
        let n = exact_num(doc, overall, q.drop_last());
        let d = exact_den(overall, q.drop_last());
        let o = count_in(overall, q.last());
        if o == 0 {
            n
        } else {
            (n * o + count_in(doc, q.last()) * d) as nat
        }
    }
}

/// A document's path, its exact score as numerator and denominator, and its
/// score for display in units of `SCORE_SCALE`.
pub type Scored = (Seq<char>, nat, nat, nat);

/// Every document of the index, in order, with its scores for `q`.
pub open spec fn scored(v: FilesView, q: Seq<Seq<char>>) -> Seq<Scored> {
    v.docs.map_values(
        |d: DocView|
            (d.0, exact_num(d.1, v.overall, q), exact_den(v.overall, q), doc_score(d.1, v.overall, q)),
    )
}

/// Every exact score has a positive denominator.
pub open spec fn positive_dens(s: Seq<Scored>) -> bool {
    forall|i: int| 0 <= i < s.len() ==> #[trigger] s[i].2 > 0
}

proof fn lemma_exact_den_pos(overall: Map<Seq<char>, nat>, q: Seq<Seq<char>>)
    ensures
        exact_den(overall, q) > 0,
    decreases q.len(),
{
    if q.len() > 0 {
        lemma_exact_den_pos(overall, q.drop_last());
        let d = exact_den(overall, q.drop_last());
        let o = count_in(overall, q.last());
        if o != 0 {
            assert(d * o > 0) by (nonlinear_arith)
                requires d > 0, o > 0;
        }
    }
}

proof fn lemma_member_den_pos(s: Seq<Scored>, x: Scored)
    requires
        positive_dens(s),
        s.contains(x),
    ensures
        x.2 > 0,
{
    let i = choose|i: int| 0 <= i < s.len() && s[i] == x;
    assert(s[i].2 > 0);
}

proof fn lemma_same_den_order(a: nat, b: nat, d: nat)
    requires
        d > 0,
    ensures
        (a * d > b * d) == (a > b),
        (a * d == b * d) == (a == b),
{
    if a > b {
        assert(a * d > b * d) by (nonlinear_arith)
            requires a > b, d > 0;
    } else if a < b {
        assert(a * d < b * d) by (nonlinear_arith)
            requires a < b, d > 0;
    }
}

/// Lexicographic order of character sequences, by code point.
pub open spec fn path_lt(a: Seq<char>, b: Seq<char>) -> bool
    decreases a.len(),
{
    if a.len() == 0 {
        b.len() > 0
    } else if b.len() == 0 {
        false
    } else if a[0] != b[0] {
        a[0] < b[0]
    } else {
        path_lt(a.drop_first(), b.drop_first())
    }
}

/// `x` comes before `y`: a higher exact score, or an equal exact score and a
/// smaller path (the fractions compared by cross-multiplication).
pub open spec fn ranks_before(x: Scored, y: Scored) -> bool {
    x.1 * y.2 > y.1 * x.2 || (x.1 * y.2 == y.1 * x.2 && path_lt(x.0, y.0))
}

/// `r` is the first `TOP_K` of `s` in ranking order: it is strictly ordered,
/// drawn from `s`, and every entry of `s` that it lacks comes after its last
/// one, which only happens when it is full.
pub open spec fn is_top_ranked(s: Seq<Scored>, r: Seq<Scored>) -> bool {
    &&& r.len() <= TOP_K
    &&& forall|i: int, j: int| 0 <= i < j < r.len() ==> ranks_before(r[i], r[j])
    &&& forall|i: int| 0 <= i < r.len() ==> s.contains(#[trigger] r[i])
    &&& forall|i: int|
        0 <= i < s.len() ==> r.contains(#[trigger] s[i]) || (r.len() == TOP_K && ranks_before(
            r.last(),
            s[i],
        ))
}

/// The views of a ranking: paths with display scores.
pub open spec fn ranking_view(r: Seq<(String, u128)>) -> Seq<(Seq<char>, nat)> {
    r.map_values(|p: (String, u128)| (p.0@, p.1 as nat))
}

/// The paths and display scores of scored documents.
pub open spec fn display_view(r: Seq<Scored>) -> Seq<(Seq<char>, nat)> {
    r.map_values(|x: Scored| (x.0, x.3))
}

proof fn lemma_path_lt_irreflexive(a: Seq<char>)
    ensures
        !path_lt(a, a),
    decreases a.len(),
{
    if a.len() > 0 {
        lemma_path_lt_irreflexive(a.drop_first());
    }
}

proof fn lemma_path_lt_asymmetric(a: Seq<char>, b: Seq<char>)
    requires
        path_lt(a, b),
    ensures
        !path_lt(b, a),
    decreases a.len(),
{
    if a.len() > 0 && b.len() > 0 && a[0] == b[0] {
        lemma_path_lt_asymmetric(a.drop_first(), b.drop_first());
    }
}

proof fn lemma_path_lt_transitive(a: Seq<char>, b: Seq<char>, c: Seq<char>)
    requires
        path_lt(a, b),
        path_lt(b, c),
    ensures
        path_lt(a, c),
    decreases a.len(),
{
    if a.len() > 0 && b.len() > 0 && c.len() > 0 && a[0] == b[0] && b[0] == c[0] {
        lemma_path_lt_transitive(a.drop_first(), b.drop_first(), c.drop_first());
    }
}

proof fn lemma_path_lt_total(a: Seq<char>, b: Seq<char>)
    requires
        a != b,
    ensures
        path_lt(a, b) || path_lt(b, a),
    decreases a.len(),
{
    if a.len() == 0 && b.len() == 0 {
        assert(a =~= b);
    }
    if a.len() > 0 && b.len() > 0 && a[0] == b[0] {
        if a.drop_first() == b.drop_first() {
            assert(a =~= seq![a[0]] + a.drop_first());
            assert(b =~= seq![b[0]] + b.drop_first());
        } else {
            lemma_path_lt_total(a.drop_first(), b.drop_first());
        }
    }
}

proof fn lemma_before_transitive(x: Scored, y: Scored, z: Scored)
    requires
        ranks_before(x, y),
        ranks_before(y, z),
        x.2 > 0,
        y.2 > 0,
        z.2 > 0,
    ensures
        ranks_before(x, z),
{
    let (a, b, c) = (x.1 as int, y.1 as int, z.1 as int);
    let (p, q, r) = (x.2 as int, y.2 as int, z.2 as int);
    assert(a * q * r >= b * p * r) by (nonlinear_arith)
        requires a * q >= b * p, r > 0;
    assert(b * r * p >= c * q * p) by (nonlinear_arith)
        requires b * r >= c * q, p > 0;
    if a * q > b * p || b * r > c * q {
        assert(a * q * r > b * p * r || b * r * p > c * q * p) by (nonlinear_arith)
            requires a * q > b * p || b * r > c * q, p > 0, r > 0;
        assert(a * q * r > c * q * p) by (nonlinear_arith)
            requires a * q * r >= b * p * r, b * r * p >= c * q * p, a * q * r > b * p * r || b * r * p > c * q * p;
        assert(a * r > c * p) by (nonlinear_arith)
            requires a * q * r > c * q * p, q > 0;
    } else {
        assert(a * q * r == c * q * p) by (nonlinear_arith)
            requires a * q == b * p, b * r == c * q;
        assert(a * r == c * p) by (nonlinear_arith)
            requires a * q * r == c * q * p, q > 0;
        lemma_path_lt_transitive(x.0, y.0, z.0);
    }
}

proof fn lemma_before_asymmetric(x: Scored, y: Scored)
    requires
        ranks_before(x, y),
    ensures
        !ranks_before(y, x),
        x != y,
{
    if x.1 * y.2 == y.1 * x.2 {
        lemma_path_lt_asymmetric(x.0, y.0);
        lemma_path_lt_irreflexive(x.0);
    }
}

proof fn lemma_before_total(x: Scored, y: Scored)
    requires
        x.0 != y.0,
    ensures
        ranks_before(x, y) || ranks_before(y, x),
{
    lemma_path_lt_total(x.0, y.0);
}

/// The characters of a string.
fn chars_of(s: &String) -> (r: Vec<char>)
    ensures
        r@ == s@,
{
    let mut r: Vec<char> = Vec::new();
    for c in it: s.as_str().chars()
        invariant
            it.seq() == s@,
            r@ == s@.take(it.index()),
    {
        r.push(c);
        assert(r@ =~= s@.take(it.index() + 1));
    }
    assert(s@.take(s@.len() as int) =~= s@);
    r
}

/// Whether `a` comes before `b` in lexicographic order.
fn chars_lt(a: &Vec<char>, b: &Vec<char>) -> (r: bool)
    ensures
        r == path_lt(a@, b@),
{
    let mut i: usize = 0;
    assert(a@.skip(0) =~= a@ && b@.skip(0) =~= b@);
    while i < a.len() && i < b.len()
        invariant
            i <= a.len(),
            i <= b.len(),
            path_lt(a@, b@) == path_lt(a@.skip(i as int), b@.skip(i as int)),
        decreases a.len() - i,
    {
        let x = a[i];
        let y = b[i];
        assert(a@.skip(i as int)[0] == x);
        assert(b@.skip(i as int)[0] == y);
        if x != y {
            return x < y;
        }
        assert(a@.skip(i as int).drop_first() =~= a@.skip(i as int + 1));
        assert(b@.skip(i as int).drop_first() =~= b@.skip(i as int + 1));
        i = i + 1;
    }
    i < b.len()
}

/// The score of document `i` of `files` for the query terms `q`.
fn score_of(files: &Files, i: usize, q: &Vec<String>) -> (r: u128)
    requires
        files.wf(),
        i < files@.docs.len(),
    ensures
        r == doc_score(files@.docs[i as int].1, files@.overall, views(q@)),
{
    proof {
        files.lemma_consistent();
    }
    let f = files.file(i);
    let ghost doc = files@.docs[i as int].1;
    let mut acc: u128 = 0;
    let mut j: usize = 0;
    while j < q.len()
        invariant
            files.wf(),
            index_consistent(files@),
            i < files@.docs.len(),
            f@ == files@.docs[i as int],
            f.wf(),
            doc == f@.1,
            j <= q.len(),
            acc == doc_score(doc, files@.overall, views(q@).take(j as int)),
            acc <= j * SCORE_SCALE,
        decreases q.len() - j,
    {
        let t = &q[j];
        let c = f.get_count(t);
        let o = files.count_in_dictionary(t.as_str());
        let ghost pre = views(q@).take(j as int);
        let ghost post = views(q@).take(j as int + 1);
        assert(post.drop_last() =~= pre);
        assert(post.last() == t@);
        proof {
            lemma_doc_count_le_corpus(files@.docs, i as int, t@);
        }
        let add: u128 = if o == 0 {
            0
        } else {
            let cs = (c as u128) * SCORE_SCALE;
            proof {
                assert((c as int) * (SCORE_SCALE as int) <= (o as int) * (SCORE_SCALE as int)) by (nonlinear_arith)
                    requires c <= o;
                vstd::arithmetic::div_mod::lemma_div_is_ordered(
                    (c as int) * (SCORE_SCALE as int),
                    (o as int) * (SCORE_SCALE as int),
                    o as int,
                );
                vstd::arithmetic::div_mod::lemma_div_multiples_vanish(SCORE_SCALE as int, o as int);
            }
            cs / (o as u128)
        };
        assert(j * SCORE_SCALE + SCORE_SCALE == (j + 1) * SCORE_SCALE) by (nonlinear_arith);
        acc = acc + add;
        j = j + 1;
    }
    assert(views(q@).take(q.len() as int) =~= views(q@));
    acc
}

/// The numerator of the exact score of document `i` of `files` for the
/// query terms `q`.
fn exact_num_of(files: &Files, i: usize, q: &Vec<String>) -> (r: Vec<u32>)
    requires
        files.wf(),
        i < files@.docs.len(),
    ensures
        big_val(r@) == exact_num(files@.docs[i as int].1, files@.overall, views(q@)),
{
    let f = files.file(i);
    let ghost doc = files@.docs[i as int].1;
    let mut num = big_from(0);
    let mut den = big_from(1);
    let mut j: usize = 0;
    while j < q.len()
        invariant
            files.wf(),
            i < files@.docs.len(),
            f@ == files@.docs[i as int],
            f.wf(),
            doc == f@.1,
            j <= q.len(),
            big_val(num@) == exact_num(doc, files@.overall, views(q@).take(j as int)),
            big_val(den@) == exact_den(files@.overall, views(q@).take(j as int)),
        decreases q.len() - j,
    {
        let t = &q[j];
        let c = f.get_count(t);
        let o = files.count_in_dictionary(t.as_str());
        let ghost pre = views(q@).take(j as int);
        let ghost post = views(q@).take(j as int + 1);
        assert(post.drop_last() =~= pre);
        assert(post.last() == t@);
        if o != 0 {
            let scaled = big_mul_small(&num, o as u64);
            let part = big_mul_small(&den, c as u64);
            num = big_add(&scaled, &part);
            den = big_mul_small(&den, o as u64);
        }
        j = j + 1;
    }
    assert(views(q@).take(q.len() as int) =~= views(q@));
    num
}

/// The documents of `files` that rank highest for the query `prompt`, at most
/// `TOP_K` of them, best first: by exact score, the sum over the query terms
/// of a document's count over the corpus count, and by path among equal
/// scores. Each comes with its score in units of `SCORE_SCALE`, rounded down
/// term by term, for display.
pub fn rank(files: &Files, prompt: &str) -> (r: Vec<(String, u128)>)
    requires
        files.wf(),
    ensures
        exists|rv: Seq<Scored>|
            is_top_ranked(scored(files@, terms(prompt@)), rv) && display_view(rv) == ranking_view(
                r@,
            ),
{
    proof {
        files.lemma_consistent();
    }
    let q = tokenize(prompt);
    let ghost s = scored(files@, terms(prompt@));
    let ghost dd = exact_den(files@.overall, terms(prompt@));
    proof {
        lemma_exact_den_pos(files@.overall, terms(prompt@));
    }
    let n = files.len();
    let mut paths: Vec<String> = Vec::new();
    let mut keys: Vec<Vec<char>> = Vec::new();
    let mut scores: Vec<u128> = Vec::new();
    let mut nums: Vec<Vec<u32>> = Vec::new();
    let mut i: usize = 0;
    while i < n
        invariant
            files.wf(),
            n == files@.docs.len(),
            s == scored(files@, terms(prompt@)),
            views(q@) == terms(prompt@),
            i <= n,
            paths.len() == i,
            keys.len() == i,
            scores.len() == i,
            nums.len() == i,
            forall|k: int| 0 <= k < i ==> #[trigger] paths@[k]@ == s[k].0,
            forall|k: int| 0 <= k < i ==> #[trigger] keys@[k]@ == s[k].0,
            forall|k: int| 0 <= k < i ==> #[trigger] scores@[k] == s[k].3,
            forall|k: int| 0 <= k < i ==> big_val(#[trigger] nums@[k]@) == s[k].1,
        decreases n - i,
    {
        let sc = score_of(files, i, &q);
        let nm = exact_num_of(files, i, &q);
        let p = files.file(i).path();
        keys.push(chars_of(p));
        paths.push(p.clone());
        scores.push(sc);
        nums.push(nm);
        i = i + 1;
    }
    assert(paths_distinct(files@.docs));
    assert(forall|k: int| 0 <= k < n ==> #[trigger] s[k].2 == dd);
    let mut out: Vec<(String, u128)> = Vec::new();
    let ghost mut rv: Seq<Scored> = seq![];
    let mut last: Option<usize> = None;
    while out.len() < TOP_K
        invariant
            n == s.len(),
            dd > 0,
            paths.len() == n,
            keys.len() == n,
            scores.len() == n,
            nums.len() == n,
            forall|k: int| 0 <= k < n ==> #[trigger] paths@[k]@ == s[k].0,
            forall|k: int| 0 <= k < n ==> #[trigger] keys@[k]@ == s[k].0,
            forall|k: int| 0 <= k < n ==> #[trigger] scores@[k] == s[k].3,
            forall|k: int| 0 <= k < n ==> big_val(#[trigger] nums@[k]@) == s[k].1,
            forall|k: int| 0 <= k < n ==> #[trigger] s[k].2 == dd,
            forall|a: int, b: int| 0 <= a < b < n ==> s[a].0 != s[b].0,
            out.len() == rv.len(),
            display_view(rv) == ranking_view(out@),
            rv.len() <= TOP_K,
            forall|a: int, b: int| 0 <= a < b < rv.len() ==> ranks_before(rv[a], rv[b]),
            forall|a: int| 0 <= a < rv.len() ==> s.contains(#[trigger] rv[a]),
            last is None <==> rv.len() == 0,
            last matches Some(b) ==> b < n && rv.last() == s[b as int],
            forall|a: int|
                0 <= a < n ==> rv.contains(#[trigger] s[a]) || rv.len() == 0 || ranks_before(
                    rv.last(),
                    s[a],
                ),
        ensures
            out.len() == rv.len(),
            display_view(rv) == ranking_view(out@),
            rv.len() <= TOP_K,
            forall|a: int, b: int| 0 <= a < b < rv.len() ==> ranks_before(rv[a], rv[b]),
            forall|a: int| 0 <= a < rv.len() ==> s.contains(#[trigger] rv[a]),
            forall|a: int|
                0 <= a < n ==> rv.contains(#[trigger] s[a]) || (rv.len() == TOP_K && ranks_before(
                    rv.last(),
                    s[a],
                )),
        decreases TOP_K - out.len(),
    {
        let mut best: Option<usize> = None;
        let mut j: usize = 0;
        while j < n
            invariant
                n == s.len(),
                dd > 0,
                keys.len() == n,
                nums.len() == n,
                forall|k: int| 0 <= k < n ==> #[trigger] keys@[k]@ == s[k].0,
                forall|k: int| 0 <= k < n ==> big_val(#[trigger] nums@[k]@) == s[k].1,
                forall|k: int| 0 <= k < n ==> #[trigger] s[k].2 == dd,
                forall|a: int, b: int| 0 <= a < b < n ==> s[a].0 != s[b].0,
                last is None <==> rv.len() == 0,
                last matches Some(b) ==> b < n && rv.last() == s[b as int],
                j <= n,
                best matches Some(b) ==> b < j && (rv.len() == 0 || ranks_before(rv.last(), s[b as int])),
                forall|a: int|
                    0 <= a < j && (rv.len() == 0 || ranks_before(rv.last(), #[trigger] s[a])) ==> best is Some
                        && (a == best->0 || ranks_before(s[best->0 as int], s[a])),
            decreases n - j,
        {
            let eligible = match last {
                None => true,
                Some(b) => {
                    proof {
                        lemma_same_den_order(s[b as int].1, s[j as int].1, dd);
                    }
                    big_lt(&nums[j], &nums[b]) || (!big_lt(&nums[b], &nums[j]) && chars_lt(
                        &keys[b],
                        &keys[j],
                    ))
                },
            };
            if eligible {
                match best {
                    None => {
                        best = Some(j);
                    },
                    Some(b) => {
                        proof {
                            lemma_same_den_order(s[j as int].1, s[b as int].1, dd);
                        }
                        let better = big_lt(&nums[b], &nums[j]) || (!big_lt(&nums[j], &nums[b])
                            && chars_lt(&keys[j], &keys[b]));
                        proof {
                            lemma_before_total(s[j as int], s[b as int]);
                            assert forall|a: int|
                                0 <= a < j && (rv.len() == 0 || ranks_before(rv.last(), #[trigger] s[a]))
                                    && better implies ranks_before(s[j as int], s[a]) || a == j by {
                                if a != b {
                                    lemma_before_transitive(s[j as int], s[b as int], s[a]);
                                }
                            }
                        }
                        if better {
                            best = Some(j);
                        }
                    },
                }
            }
            j = j + 1;
        }
        match best {
            None => {
                assert forall|a: int| 0 <= a < n implies rv.contains(#[trigger] s[a]) by {
                    if !rv.contains(s[a]) {
                        assert(rv.len() == 0 || ranks_before(rv.last(), s[a]));
                    }
                }
                break;
            },
            Some(b) => {
                let ghost prev = rv;
                let ghost prev_out = out@;
                out.push((paths[b].clone(), scores[b]));
                proof {
                    rv = rv.push(s[b as int]);
                    assert(out@ == prev_out.push(out@[out@.len() - 1]));
                    assert(ranking_view(out@) =~= ranking_view(prev_out).push((s[b as int].0, s[b as int].3)));
                    assert(display_view(rv) =~= display_view(prev).push((s[b as int].0, s[b as int].3)));
                    assert(display_view(rv) =~= ranking_view(out@));
                    assert(s.contains(s[b as int]));
                    assert forall|x: int, y: int| 0 <= x < y < rv.len() implies ranks_before(
                        rv[x],
                        rv[y],
                    ) by {
                        if y == rv.len() - 1 && x < prev.len() - 1 {
                            let w = choose|w: int| 0 <= w < s.len() && s[w] == rv[x];
                            let v = choose|v: int| 0 <= v < s.len() && s[v] == prev.last();
                            assert(prev.last() == prev[prev.len() - 1]);
                            lemma_before_transitive(rv[x], prev.last(), rv[y]);
                        }
                    }
                    assert forall|a: int| 0 <= a < n implies rv.contains(#[trigger] s[a])
                        || ranks_before(rv.last(), s[a]) by {
                        if prev.contains(s[a]) {
                            let w = choose|w: int| 0 <= w < prev.len() && prev[w] == s[a];
                            assert(rv[w] == s[a]);
                        } else if a == b {
                            assert(rv[rv.len() - 1] == s[a]);
                        }
                    }
                }
                last = Some(b);
            },
        }
    }
    out
}

/// Distinct entries of `s` have distinct paths.
pub open spec fn scored_paths_distinct(s: Seq<Scored>) -> bool {
    forall|a: int, b: int| 0 <= a < b < s.len() ==> s[a].0 != s[b].0
}

proof fn lemma_same_path_same_entry(s: Seq<Scored>, x: Scored, y: Scored)
    requires
        scored_paths_distinct(s),
        s.contains(x),
        s.contains(y),
        x.0 == y.0,
    ensures
        x == y,
{
    let a = choose|a: int| 0 <= a < s.len() && s[a] == x;
    let b = choose|b: int| 0 <= b < s.len() && s[b] == y;
    if a < b {
        assert(s[a].0 != s[b].0);
    } else if b < a {
        assert(s[b].0 != s[a].0);
    }
}

proof fn lemma_first_difference(s: Seq<Scored>, r1: Seq<Scored>, r2: Seq<Scored>, i: int)
    requires
        positive_dens(s),
        is_top_ranked(s, r1),
        is_top_ranked(s, r2),
        0 <= i < r1.len(),
        i < r2.len(),
        forall|j: int| 0 <= j < i ==> r1[j] == r2[j],
    ensures
        !ranks_before(r1[i], r2[i]),
{
    if ranks_before(r1[i], r2[i]) {
        let x = r1[i];
        assert(s.contains(x));
        if r2.contains(x) {
            let j = choose|j: int| 0 <= j < r2.len() && r2[j] == x;
            if j < i {
                assert(ranks_before(r1[j], r1[i]));
                lemma_before_asymmetric(r1[j], r1[i]);
            } else if j == i {
                lemma_before_asymmetric(r1[i], r2[i]);
            } else {
                assert(ranks_before(r2[i], r2[j]));
                lemma_before_asymmetric(r1[i], r2[i]);
            }
        } else {
            let last = r2.len() - 1;
            assert(ranks_before(r2[last], x));
            assert(s.contains(r2[i]) && s.contains(r2[last]));
            lemma_member_den_pos(s, r2[i]);
            lemma_member_den_pos(s, r2[last]);
            lemma_member_den_pos(s, x);
            if i < last {
                assert(ranks_before(r2[i], r2[last]));
                lemma_before_transitive(r2[i], r2[last], x);
            }
            lemma_before_asymmetric(r1[i], r2[i]);
        }
    }
}

proof fn lemma_top_ranked_prefix(s: Seq<Scored>, r1: Seq<Scored>, r2: Seq<Scored>, n: int)
    requires
        positive_dens(s),
        scored_paths_distinct(s),
        is_top_ranked(s, r1),
        is_top_ranked(s, r2),
        0 <= n <= r1.len(),
        n <= r2.len(),
    ensures
        forall|j: int| 0 <= j < n ==> r1[j] == r2[j],
    decreases n,
{
    if n > 0 {
        let i = n - 1;
        lemma_top_ranked_prefix(s, r1, r2, i);
        if r1[i] != r2[i] {
            assert(s.contains(r1[i]) && s.contains(r2[i]));
            if r1[i].0 == r2[i].0 {
                lemma_same_path_same_entry(s, r1[i], r2[i]);
            }
            lemma_before_total(r1[i], r2[i]);
            lemma_first_difference(s, r1, r2, i);
            lemma_first_difference(s, r2, r1, i);
        }
    }
}

proof fn lemma_prefix_is_whole(s: Seq<Scored>, r1: Seq<Scored>, r2: Seq<Scored>)
    requires
        is_top_ranked(s, r1),
        is_top_ranked(s, r2),
        r1.len() <= r2.len(),
        forall|j: int| 0 <= j < r1.len() ==> r1[j] == r2[j],
    ensures
        r1.len() == r2.len(),
{
    if r1.len() < r2.len() {
        let n = r1.len() as int;
        let y = r2[n];
        assert(s.contains(y));
        if r1.contains(y) {
            let j = choose|j: int| 0 <= j < r1.len() && r1[j] == y;
            assert(ranks_before(r2[j], r2[n]));
            lemma_before_asymmetric(r2[j], r2[n]);
        }
    }
}

/// A ranking is determined by the scored documents: two results that both
/// are the top of the same scored documents (with distinct paths) are equal.
pub proof fn lemma_top_ranked_unique(s: Seq<Scored>, r1: Seq<Scored>, r2: Seq<Scored>)
    requires
        positive_dens(s),
        scored_paths_distinct(s),
        is_top_ranked(s, r1),
        is_top_ranked(s, r2),
    ensures
        r1 == r2,
{
    if r1.len() <= r2.len() {
        lemma_top_ranked_prefix(s, r1, r2, r1.len() as int);
        lemma_prefix_is_whole(s, r1, r2);
    } else {
        lemma_top_ranked_prefix(s, r2, r1, r2.len() as int);
        lemma_prefix_is_whole(s, r2, r1);
    }
    assert(r1 =~= r2);
}

/// Two consistent indices with the same documents have the same corpus
/// counts.
pub proof fn lemma_index_determined_by_docs(f: FilesView, g: FilesView)
    requires
        index_consistent(f),
        index_consistent(g),
        g.docs == f.docs,
    ensures
        g == f,
{
    assert forall|t: Seq<char>| g.overall.contains_key(t) <==> f.overall.contains_key(t) by {
        assert(count_in(g.overall, t) == count_in(f.overall, t));
    }
    assert forall|t: Seq<char>| g.overall.contains_key(t) implies g.overall[t] == f.overall[t] by {
        assert(count_in(g.overall, t) == count_in(f.overall, t));
    }
    assert(g.overall =~= f.overall);
}

/// Round trip: where `parts` are the stored parts of index `f` (as
/// `Files::to_parts` gives them) and `g` is read back from them (as
/// `Files::from_parts` gives it), `g` equals `f`, so every query scores and
/// ranks alike on both.
pub proof fn lemma_round_trip(f: FilesView, parts: Seq<DocParts>, g: FilesView, q: Seq<Seq<char>>)
    requires
        index_consistent(f),
        parts_valid(parts),
        parts_view(parts) == f.docs,
        index_consistent(g),
        g.docs == parts_view(parts),
    ensures
        g == f,
        scored(g, q) == scored(f, q),
        forall|r1: Seq<Scored>, r2: Seq<Scored>|
            is_top_ranked(scored(g, q), r1) && is_top_ranked(scored(f, q), r2) ==> r1 == r2,
{
    lemma_index_determined_by_docs(f, g);
    assert forall|r1: Seq<Scored>, r2: Seq<Scored>|
        is_top_ranked(scored(g, q), r1) && is_top_ranked(scored(f, q), r2) implies r1 == r2 by {
        lemma_rank_deterministic(f, q, r1, r2);
    }
}

/// Ranking is deterministic: on a consistent index, a query has exactly one
/// result.
pub proof fn lemma_rank_deterministic(v: FilesView, q: Seq<Seq<char>>, r1: Seq<Scored>, r2: Seq<Scored>)
    requires
        index_consistent(v),
        is_top_ranked(scored(v, q), r1),
        is_top_ranked(scored(v, q), r2),
    ensures
        r1 == r2,
{
    let s = scored(v, q);
    assert forall|a: int, b: int| 0 <= a < b < s.len() implies s[a].0 != s[b].0 by {
        assert(v.docs[a].0 != v.docs[b].0);
    }
    lemma_exact_den_pos(v.overall, q);
    lemma_top_ranked_unique(s, r1, r2);
}

proof fn lemma_top_ranked_same_members(s1: Seq<Scored>, s2: Seq<Scored>, r: Seq<Scored>)
    requires
        forall|x: Scored| s1.contains(x) <==> s2.contains(x),
        is_top_ranked(s1, r),
    ensures
        is_top_ranked(s2, r),
{
    assert forall|i: int| 0 <= i < r.len() implies s2.contains(#[trigger] r[i]) by {
        assert(s1.contains(r[i]));
    }
    assert forall|i: int| 0 <= i < s2.len() implies r.contains(#[trigger] s2[i]) || (r.len() == TOP_K
        && ranks_before(r.last(), s2[i])) by {
        assert(s2.contains(s2[i]));
        let j = choose|j: int| 0 <= j < s1.len() && s1[j] == s2[i];
        assert(r.contains(s1[j]) || (r.len() == TOP_K && ranks_before(r.last(), s1[j])));
    }
}

proof fn lemma_scored_members(v1: FilesView, v2: FilesView, q: Seq<Seq<char>>, x: Scored)
    requires
        index_consistent(v1),
        index_consistent(v2),
        doc_map(v1.docs) == doc_map(v2.docs),
        v1.overall == v2.overall,
        scored(v1, q).contains(x),
    ensures
        scored(v2, q).contains(x),
{
    lemma_doc_map_keys(v1.docs);
    lemma_doc_map_keys(v2.docs);
    let i = choose|i: int| 0 <= i < scored(v1, q).len() && scored(v1, q)[i] == x;
    let d = v1.docs[i];
    assert(doc_map(v2.docs).contains_key(d.0));
    let j = choose|j: int| 0 <= j < v2.docs.len() && #[trigger] v2.docs[j].0 == d.0;
    assert(v2.docs[j] == d);
    assert(scored(v2, q)[j] == x);
}

/// Ranking depends on the index only as mappings: two consistent indices
/// with the same per-document tables by path and the same corpus counts,
/// whatever the order of their documents, give every query the same result.
pub proof fn lemma_rank_independent_of_order(
    v1: FilesView,
    v2: FilesView,
    q: Seq<Seq<char>>,
    r1: Seq<Scored>,
    r2: Seq<Scored>,
)
    requires
        index_consistent(v1),
        index_consistent(v2),
        doc_map(v1.docs) == doc_map(v2.docs),
        v1.overall == v2.overall,
        is_top_ranked(scored(v1, q), r1),
        is_top_ranked(scored(v2, q), r2),
    ensures
        r1 == r2,
{
    assert forall|x: Scored| scored(v1, q).contains(x) <==> scored(v2, q).contains(x) by {
        if scored(v1, q).contains(x) {
            lemma_scored_members(v1, v2, q, x);
        }
        if scored(v2, q).contains(x) {
            lemma_scored_members(v2, v1, q, x);
        }
    }
    lemma_top_ranked_same_members(scored(v1, q), scored(v2, q), r1);
    lemma_rank_deterministic(v2, q, r1, r2);
}

/// A query with no term that the corpus holds scores every document zero,
/// so the ranking is by path alone.
pub proof fn lemma_absent_terms_score_zero(v: FilesView, q: Seq<Seq<char>>, r: Seq<Scored>)
    requires
        forall|i: int| 0 <= i < q.len() ==> count_in(v.overall, #[trigger] q[i]) == 0,
        is_top_ranked(scored(v, q), r),
    ensures
        forall|i: int| 0 <= i < v.docs.len() ==> #[trigger] scored(v, q)[i].1 == 0 && scored(v, q)[i].3 == 0,
        forall|i: int| 0 <= i < r.len() ==> #[trigger] r[i].1 == 0 && r[i].3 == 0,
        forall|i: int, j: int| 0 <= i < j < r.len() ==> path_lt(r[i].0, r[j].0),
{
    assert forall|i: int| 0 <= i < v.docs.len() implies #[trigger] scored(v, q)[i].1 == 0 && scored(v, q)[i].3 == 0 by {
        lemma_score_zero(v.docs[i].1, v.overall, q);
    }
    assert forall|i: int| 0 <= i < r.len() implies #[trigger] r[i].1 == 0 && r[i].3 == 0 by {
        assert(scored(v, q).contains(r[i]));
    }
    assert forall|i: int, j: int| 0 <= i < j < r.len() implies path_lt(r[i].0, r[j].0) by {
        assert(ranks_before(r[i], r[j]));
        assert(r[i].1 == 0 && r[j].1 == 0);
        assert(r[i].1 * r[j].2 == 0 && r[j].1 * r[i].2 == 0);
    }
}

proof fn lemma_score_zero(doc: Map<Seq<char>, nat>, overall: Map<Seq<char>, nat>, q: Seq<Seq<char>>)
    requires
        forall|i: int| 0 <= i < q.len() ==> count_in(overall, #[trigger] q[i]) == 0,
    ensures
        doc_score(doc, overall, q) == 0,
        exact_num(doc, overall, q) == 0,
    decreases q.len(),
{
    if q.len() > 0 {
        let d = q.drop_last();
        assert forall|i: int| 0 <= i < d.len() implies count_in(overall, #[trigger] d[i]) == 0 by {
            assert(d[i] == q[i]);
        }
        lemma_score_zero(doc, overall, d);
        assert(count_in(overall, q[q.len() - 1]) == 0);
    }
}

/// A corpus of no documents ranks nothing, whatever the query.
pub proof fn lemma_empty_corpus_ranks_nothing(v: FilesView, q: Seq<Seq<char>>, r: Seq<Scored>)
    requires
        v.docs.len() == 0,
        is_top_ranked(scored(v, q), r),
    ensures
        r.len() == 0,
{
    if r.len() > 0 {
        assert(scored(v, q).contains(r[0]));
    }
}

/// A search session: the cache of indices that queries are served from.
pub struct Search {
    cache: CacheMap,
}

impl Search {
    /// Well formed: the cache is.
    pub closed spec fn wf(&self) -> bool {
        self.cache.wf()
    }

    /// The session's cache.
    pub closed spec fn cache_spec(&self) -> CacheMap {
        self.cache
    }

    /// What the session's cache holds.
    pub open spec fn cache_view(&self) -> CacheView {
        self.cache_spec()@
    }

    /// A session with an empty cache whose mapping is persisted at
    /// `cache_path` and whose indices live in `files_cache_path`.
    pub fn new(cache_path: &str, files_cache_path: &str) -> (r: Search)
        ensures
            r.wf(),
            r.cache_view().slots == Map::<Seq<char>, nat>::empty(),
            r.cache_view().next == 0,
            r.cache_spec().path_view() == cache_path@,
            r.cache_spec().files_cache_view() == files_cache_path@,
    {
        Search { cache: CacheMap::build(cache_path, files_cache_path) }
    }

    /// A session over a cache that was read back.
    pub fn with_cache(cache: CacheMap) -> (r: Search)
        ensures
            r.wf() == cache.wf(),
            r.cache_spec() == cache,
    {
        Search { cache }
    }

    /// A session with an empty cache at the default places.
    pub fn default() -> (r: Search)
        ensures
            r.wf(),
            r.cache_view().slots == Map::<Seq<char>, nat>::empty(),
            r.cache_view().next == 0,
            r.cache_spec().path_view() == "Cache\\cache.bin"@,
            r.cache_spec().files_cache_view() == "Cache\\FilesCache"@,
    {
        Search::new("Cache\\cache.bin", "Cache\\FilesCache")
    }

    /// The session's cache.
    pub fn cache(&self) -> (r: &CacheMap)
        ensures
            *r == self.cache_spec(),
            self.wf() ==> r.wf(),
    {
        &self.cache
    }

    /// Where the index of `root` is to come from.
    pub fn lookup(&self, root: &str) -> (r: Lookup)
        requires
            self.wf(),
        ensures
            r == (if self.cache_view().slots.contains_key(root@) {
                Lookup::Load(self.cache_view().slots[root@] as u64)
            } else {
                Lookup::Build
            }),
    {
        self.cache.get_files(root)
    }

    /// Answers `prompt` from `files`, the index of `root`, and records `root`
    /// in the cache. Returns the ranking and the slot of `root`: a fresh slot
    /// is where `files` is to be persisted.
    pub fn search(&mut self, root: &str, prompt: &str, files: &Files) -> (r: (
        Vec<(String, u128)>,
        Option<Slot>,
    ))
        requires
            old(self).wf(),
            files.wf(),
        ensures
            final(self).wf(),
            final(self).cache_view() == after_add(old(self).cache_view(), root@),
            exists|rv: Seq<Scored>|
                is_top_ranked(scored(files@, terms(prompt@)), rv) && display_view(rv) == ranking_view(
                    r.0@,
                ),
            r.1 == (if old(self).cache_view().slots.contains_key(root@) {
                Some(Slot::Cached(old(self).cache_view().slots[root@] as u64))
            } else if old(self).cache_view().next < u64::MAX {
                Some(Slot::Fresh(old(self).cache_view().next as u64))
            } else {
                None::<Slot>
            }),
    {
        let slot = self.cache.add_files(root);
        let ranking = rank(files, prompt);
        (ranking, slot)
    }
}

} // verus!
