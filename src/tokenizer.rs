//! Splits raw text into index terms: whitespace-separated words made only of
//! alphanumeric characters, folded to lower case.
use vstd::prelude::*;

verus! {

/// Whether a character has the Unicode `White_Space` property, which is what
/// `char::is_whitespace` tests: these 25 code points.
pub open spec fn is_space(c: char) -> bool {
    let u = c as u32;
    (0x9 <= u <= 0xd) || u == 0x20 || u == 0x85 || u == 0xa0 || u == 0x1680 || (0x2000 <= u
        <= 0x200a) || u == 0x2028 || u == 0x2029 || u == 0x202f || u == 0x205f || u == 0x3000
}

/// Whether `char::is_alphanumeric` holds of a character.
pub uninterp spec fn is_alnum(c: char) -> bool;

/// What `str::to_lowercase` returns for a string.
pub uninterp spec fn lower_of(s: Seq<char>) -> Seq<char>;

/// The words of `s` when a word `cur` has already been started: maximal runs
/// of non-whitespace characters.
pub open spec fn words_from(s: Seq<char>, cur: Seq<char>) -> Seq<Seq<char>>
    decreases s.len(),
{
    if s.len() == 0 {
        if cur.len() == 0 {
            seq![]
        } else {
            seq![cur]
        }
    } else if is_space(s[0]) {
        (if cur.len() == 0 {
            seq![]
        } else {
            seq![cur]
        }) + words_from(s.drop_first(), seq![])
    } else {
        words_from(s.drop_first(), cur.push(s[0]))
    }
}

/// The whitespace-separated words of `s`.
pub open spec fn words(s: Seq<char>) -> Seq<Seq<char>> {
    words_from(s, seq![])
}

/// A word is kept as a term when every character of it is alphanumeric.
pub open spec fn is_term_word(w: Seq<char>) -> bool {
    forall|i: int| 0 <= i < w.len() ==> is_alnum(#[trigger] w[i])
}

/// The kept words of `ws`, in order, each folded to lower case.
pub open spec fn normalize(ws: Seq<Seq<char>>) -> Seq<Seq<char>>
    decreases ws.len(),
{
    if ws.len() == 0 {
        seq![]
    } else if is_term_word(ws.last()) {
        normalize(ws.drop_last()).push(lower_of(ws.last()))
    } else {
        normalize(ws.drop_last())
    }
}

/// The terms of a text.
pub open spec fn terms(s: Seq<char>) -> Seq<Seq<char>> {
    normalize(words(s))
}

/// The views of a sequence of strings.
pub open spec fn views(v: Seq<String>) -> Seq<Seq<char>> {
    v.map_values(|t: String| t@)
}

/// Whether `c` is whitespace.
pub fn char_is_space(c: char) -> (r: bool)
    ensures
        r == is_space(c),
{
    let u = c as u32;
    (0x9 <= u && u <= 0xd) || u == 0x20 || u == 0x85 || u == 0xa0 || u == 0x1680 || (0x2000 <= u
        && u <= 0x200a) || u == 0x2028 || u == 0x2029 || u == 0x202f || u == 0x205f || u == 0x3000
}

/// The views of a sequence of words.
pub open spec fn word_views(v: Seq<Vec<char>>) -> Seq<Seq<char>> {
    v.map_values(|w: Vec<char>| w@)
}

/// Relies on `char::is_alphanumeric`.
#[verifier::external_body]
fn char_is_alnum(c: char) -> (r: bool)
    ensures
        r == is_alnum(c),
{
    c.is_alphanumeric()
}

/// Relies on `str::to_lowercase`: the result depends on the characters alone.
#[verifier::external_body]
fn lowercase(s: &str) -> (r: String)
    ensures
        r@ == lower_of(s@),
{
    s.to_lowercase()
}

/// Relies on `String`'s `FromIterator<char>`: the characters in order.
#[verifier::external_body]
fn string_of_chars(cs: &Vec<char>) -> (r: String)
    ensures
        r@ == cs@,
{
    cs.iter().collect()
}

/// Whether every character of `w` is alphanumeric.
fn all_alnum(w: &Vec<char>) -> (r: bool)
    ensures
        r == is_term_word(w@),
{
    let mut i: usize = 0;
    while i < w.len()
        invariant
            i <= w.len(),
            forall|j: int| 0 <= j < i ==> is_alnum(#[trigger] w@[j]),
        decreases w.len() - i,
    {
        if !char_is_alnum(w[i]) {
            return false;
        }
        i = i + 1;
    }
    true
}

/// The whitespace-separated words of `text`, in order.
pub fn split_words(text: &str) -> (r: Vec<Vec<char>>)
    ensures
        word_views(r@) == words(text@),
        r.len() <= text@.len(),
{
    let mut out: Vec<Vec<char>> = Vec::new();
    let mut cur: Vec<char> = Vec::new();
    let ghost mut done: Seq<Seq<char>> = seq![];
    let ghost s = text@;
    assert(s.skip(0) == s);
    assert(done + words_from(s, cur@) == words(s));
    for c in it: text.chars()
        invariant
            it.seq() == s,
            done + words_from(s.skip(it.index()), cur@) == words(s),
            word_views(out@) == done,
            done.len() + cur@.len() <= it.index(),
    {
        let ghost i = it.index();
        assert(s.skip(i).drop_first() == s.skip(i + 1));
        assert(s.skip(i)[0] == c);
        let ghost before = cur@;
        if char_is_space(c) {
            assert(words_from(s.skip(i), before) == (if before.len() == 0 {
                seq![]
            } else {
                seq![before]
            }) + words_from(s.skip(i + 1), seq![]));
            if cur.len() > 0 {
                assert(done + (seq![cur@] + words_from(s.skip(i + 1), seq![])) =~= done.push(cur@)
                    + words_from(s.skip(i + 1), seq![]));
                let ghost prev = out@;
                let w = cur;
                cur = Vec::new();
                out.push(w);
                proof {
                    assert(word_views(out@) =~= word_views(prev).push(w@));
                    done = done.push(w@);
                }
            } else {
                assert(cur@ =~= seq![]);
                assert(done + (seq![] + words_from(s.skip(i + 1), seq![])) =~= done + words_from(
                    s.skip(i + 1),
                    seq![],
                ));
            }
        } else {
            cur.push(c);
            assert(words_from(s.skip(i), before) == words_from(s.skip(i + 1), cur@));
        }
    }
    assert(s.skip(s.len() as int) == Seq::<char>::empty());
    if cur.len() > 0 {
        let ghost prev = out@;
        let ghost w = cur@;
        out.push(cur);
        proof {
            assert(word_views(out@) =~= word_views(prev).push(w));
            done = done.push(w);
        }
    }
    assert(done == words(s));
    out
}

/// The candidates `ts` whose flag in `keep` is set, in order.
pub open spec fn select(ts: Seq<Seq<char>>, keep: Seq<bool>) -> Seq<Seq<char>>
    decreases ts.len(),
{
    if ts.len() == 0 || keep.len() == 0 {
        seq![]
    } else if keep.last() {
        select(ts.drop_last(), keep.drop_last()).push(ts.last())
    } else {
        select(ts.drop_last(), keep.drop_last())
    }
}

proof fn lemma_normalize_is_select(ws: Seq<Seq<char>>)
    ensures
        normalize(ws) == select(ws.map_values(|w: Seq<char>| lower_of(w)), ws.map_values(|w: Seq<char>| is_term_word(w))),
    decreases ws.len(),
{
    if ws.len() > 0 {
        let d = ws.drop_last();
        lemma_normalize_is_select(d);
        assert(ws.map_values(|w: Seq<char>| lower_of(w)).drop_last() =~= d.map_values(|w: Seq<char>| lower_of(w)));
        assert(ws.map_values(|w: Seq<char>| is_term_word(w)).drop_last() =~= d.map_values(|w: Seq<char>| is_term_word(w)));
    }
}

/// The candidate terms whose flag is set, in order: the words that passed
/// the alphanumeric test, given each word's lower-cased form and its result.
pub fn select_terms(cands: Vec<String>, keep: &Vec<bool>) -> (r: Vec<String>)
    requires
        cands.len() == keep.len(),
    ensures
        views(r@) == select(views(cands@), keep@),
        r.len() <= cands.len(),
{
    let ghost cv = views(cands@);
    let mut out: Vec<String> = Vec::new();
    let mut k: usize = 0;
    for t in it: cands
        invariant
            it.seq() == cands@,
            cv == views(cands@),
            cands.len() == keep.len(),
            k == it.index(),
            views(out@) == select(cv.take(k as int), keep@.take(k as int)),
            out.len() <= k,
    {
        proof {
            assert(cv.take(k as int + 1).drop_last() =~= cv.take(k as int));
            assert(keep@.take(k as int + 1).drop_last() =~= keep@.take(k as int));
            assert(cv.take(k as int + 1).last() == t@);
        }
        if keep[k] {
            let ghost prev = out@;
            out.push(t);
            assert(views(out@) =~= views(prev).push(t@));
        }
        k = k + 1;
    }
    assert(cv.take(k as int) =~= cv);
    assert(keep@.take(k as int) =~= keep@);
    out
}

/// The terms of `text`: its whitespace-separated words that consist of
/// alphanumeric characters only, lower-cased, in order of occurrence.
pub fn tokenize(text: &str) -> (r: Vec<String>)
    ensures
        views(r@) == terms(text@),
        r.len() <= text@.len(),
{
    let ws = split_words(text);
    let ghost wv = word_views(ws@);
    let mut cands: Vec<String> = Vec::new();
    let mut keep: Vec<bool> = Vec::new();
    let mut k: usize = 0;
    while k < ws.len()
        invariant
            wv == word_views(ws@),
            k <= ws.len(),
            cands.len() == k,
            keep.len() == k,
            views(cands@) == wv.take(k as int).map_values(|w: Seq<char>| lower_of(w)),
            keep@ == wv.take(k as int).map_values(|w: Seq<char>| is_term_word(w)),
        decreases ws.len() - k,
    {
        let w = string_of_chars(&ws[k]);
        let t = lowercase(w.as_str());
        let ok = all_alnum(&ws[k]);
        let ghost prev_c = cands@;
        let ghost prev_k = keep@;
        cands.push(t);
        keep.push(ok);
        proof {
            assert(wv.take(k as int + 1) =~= wv.take(k as int).push(ws@[k as int]@));
            assert(views(cands@) =~= views(prev_c).push(t@));
            assert(views(cands@) =~= wv.take(k as int + 1).map_values(|w: Seq<char>| lower_of(w)));
            assert(keep@ =~= wv.take(k as int + 1).map_values(|w: Seq<char>| is_term_word(w)));
        }
        k = k + 1;
    }
    assert(wv.take(ws.len() as int) =~= wv);
    proof {
        lemma_normalize_is_select(wv);
    }
    select_terms(cands, &keep)
}

} // verus!
