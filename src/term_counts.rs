//! A table from terms to occurrence counts, kept as a list of entries with
//! distinct terms and positive counts.
use vstd::prelude::*;
use crate::tokenizer::views;

verus! {

/// The count of `t` in a table, zero where the term is absent.
pub open spec fn count_in(m: Map<Seq<char>, nat>, t: Seq<char>) -> nat {
    if m.contains_key(t) {
        m[t]
    } else {
        0
    }
}

/// The table that counts each term of `ts` by its number of occurrences.
pub open spec fn tally(ts: Seq<Seq<char>>) -> Map<Seq<char>, nat>
    decreases ts.len(),
{
    if ts.len() == 0 {
        Map::empty()
    } else {
        let m = tally(ts.drop_last());
        m.insert(ts.last(), count_in(m, ts.last()) + 1)
    }
}

/// The table that a list of entries denotes.
pub open spec fn table_of(e: Seq<(String, usize)>) -> Map<Seq<char>, nat>
    decreases e.len(),
{
    if e.len() == 0 {
        Map::empty()
    } else {
        table_of(e.drop_last()).insert(e.last().0@, e.last().1 as nat)
    }
}

/// The sum of the counts of a list of entries.
pub open spec fn total_of(e: Seq<(String, usize)>) -> nat
    decreases e.len(),
{
    if e.len() == 0 {
        0
    } else {
        total_of(e.drop_last()) + e.last().1 as nat
    }
}

/// No term has two entries.
pub open spec fn keys_distinct(e: Seq<(String, usize)>) -> bool {
    forall|i: int, j: int| 0 <= i < j < e.len() ==> e[i].0@ != e[j].0@
}

/// Every entry counts at least one occurrence.
pub open spec fn counts_positive(e: Seq<(String, usize)>) -> bool {
    forall|i: int| 0 <= i < e.len() ==> #[trigger] e[i].1 > 0
}

/// Occurrence counts of terms.
pub struct TermCounts {
    entries: Vec<(String, usize)>,
}

impl View for TermCounts {
    type V = Map<Seq<char>, nat>;

    closed spec fn view(&self) -> Map<Seq<char>, nat> {
        table_of(self.entries@)
    }
}

proof fn lemma_table_keys(e: Seq<(String, usize)>)
    requires
        keys_distinct(e),
    ensures
        forall|j: int|
            0 <= j < e.len() ==> table_of(e).contains_key(#[trigger] e[j].0@) && table_of(e)[e[j].0@]
                == e[j].1 as nat,
        forall|k: Seq<char>|
            table_of(e).contains_key(k) ==> exists|j: int| 0 <= j < e.len() && #[trigger] e[j].0@ == k,
    decreases e.len(),
{
    if e.len() > 0 {
        let d = e.drop_last();
        lemma_table_keys(d);
        assert forall|k: Seq<char>| table_of(e).contains_key(k) implies exists|j: int|
            0 <= j < e.len() && #[trigger] e[j].0@ == k by {
            if k != e.last().0@ {
                assert(table_of(d).contains_key(k));
                let j = choose|j: int| 0 <= j < d.len() && #[trigger] d[j].0@ == k;
                assert(d[j] == e[j]);
                assert(e[j].0@ == k);
            } else {
                assert(e[e.len() - 1].0@ == k);
            }
        }
        assert forall|j: int| 0 <= j < e.len() implies table_of(e).contains_key(#[trigger] e[j].0@)
            && table_of(e)[e[j].0@] == e[j].1 as nat by {
            if j < e.len() - 1 {
                assert(d[j] == e[j]);
            }
        }
    }
}

proof fn lemma_absent(e: Seq<(String, usize)>, k: Seq<char>)
    requires
        keys_distinct(e),
        forall|j: int| 0 <= j < e.len() ==> #[trigger] e[j].0@ != k,
    ensures
        !table_of(e).contains_key(k),
{
    lemma_table_keys(e);
}

proof fn lemma_table_update(e: Seq<(String, usize)>, j: int, v: usize)
    requires
        keys_distinct(e),
        0 <= j < e.len(),
    ensures
        table_of(e.update(j, (e[j].0, v))) =~= table_of(e).insert(e[j].0@, v as nat),
        total_of(e.update(j, (e[j].0, v))) + e[j].1 == total_of(e) + v,
    decreases e.len(),
{
    let u = e.update(j, (e[j].0, v));
    let d = e.drop_last();
    if j == e.len() - 1 {
        assert(u.drop_last() =~= d);
    } else {
        assert(u.drop_last() =~= d.update(j, (d[j].0, v)));
        lemma_table_update(d, j, v);
    }
}

proof fn lemma_entry_le_total(e: Seq<(String, usize)>, j: int)
    requires
        0 <= j < e.len(),
    ensures
        e[j].1 <= total_of(e),
    decreases e.len(),
{
    if j < e.len() - 1 {
        lemma_entry_le_total(e.drop_last(), j);
    }
}

proof fn lemma_count_le_total(e: Seq<(String, usize)>, k: Seq<char>)
    requires
        keys_distinct(e),
    ensures
        count_in(table_of(e), k) <= total_of(e),
{
    lemma_table_keys(e);
    if table_of(e).contains_key(k) {
        let j = choose|j: int| 0 <= j < e.len() && #[trigger] e[j].0@ == k;
        lemma_entry_le_total(e, j);
    }
}

impl TermCounts {
    /// Entries with distinct terms and positive counts.
    /// Well formed: distinct terms, positive counts.
    pub closed spec fn wf(&self) -> bool {
        keys_distinct(self.entries@) && counts_positive(self.entries@)
    }

    /// The sum of all counts of the table.
    pub closed spec fn total(&self) -> nat {
        total_of(self.entries@)
    }

    /// Every term in the table has a positive count.
    pub proof fn lemma_positive(&self)
        requires
            self.wf(),
        ensures
            forall|t: Seq<char>| self@.contains_key(t) ==> self@[t] > 0,
    {
        lemma_table_keys(self.entries@);
        assert forall|t: Seq<char>| self@.contains_key(t) implies self@[t] > 0 by {
            let j = choose|j: int| 0 <= j < self.entries@.len() && #[trigger] self.entries@[j].0@ == t;
            assert(self.entries@[j].1 > 0);
        }
    }

    /// An empty table.
    pub fn new() -> (r: TermCounts)
        ensures
            r.wf(),
            r@ == Map::<Seq<char>, nat>::empty(),
            r.total() == 0,
    {
        TermCounts { entries: Vec::new() }
    }

    /// The position of the entry for `t`, if there is one.
    fn find(&self, t: &String) -> (r: Option<usize>)
        requires
            self.wf(),
        ensures
            match r {
                Some(j) => j < self.entries.len() && self.entries@[j as int].0@ == t@,
                None => !self@.contains_key(t@),
            },
    {
        let mut j: usize = 0;
        while j < self.entries.len()
            invariant
                j <= self.entries.len(),
                forall|i: int| 0 <= i < j ==> #[trigger] self.entries@[i].0@ != t@,
            decreases self.entries.len() - j,
        {
            if self.entries[j].0 == *t {
                return Some(j);
            }
            j = j + 1;
        }
        proof {
            lemma_absent(self.entries@, t@);
        }
        None
    }

    /// How often `t` occurs; zero for a term that is not in the table.
    pub fn get(&self, t: &String) -> (r: usize)
        requires
            self.wf(),
        ensures
            r == count_in(self@, t@),
    {
        match self.find(t) {
            Some(j) => {
                proof {
                    lemma_table_keys(self.entries@);
                }
                self.entries[j].1
            },
            None => 0,
        }
    }

    /// Adds `n` occurrences of `t`.
    pub fn add(&mut self, t: &String, n: usize)
        requires
            old(self).wf(),
            n > 0,
            old(self).total() + n <= usize::MAX,
        ensures
            final(self).wf(),
            final(self)@ == old(self)@.insert(t@, count_in(old(self)@, t@) + n as nat),
            final(self).total() == old(self).total() + n,
    {
        proof {
            lemma_table_keys(self.entries@);
            lemma_count_le_total(self.entries@, t@);
        }
        match self.find(t) {
            Some(j) => {
                let key = self.entries[j].0.clone();
                let c = self.entries[j].1;
                proof {
                    lemma_table_update(self.entries@, j as int, (c + n) as usize);
                }
                self.entries.set(j, (key, c + n));
                assert(forall|i: int| #![auto] 0 <= i < self.entries.len() && i != j ==> self.entries@[i] == old(self).entries@[i]);
            },
            None => {
                let ghost prev = self.entries@;
                self.entries.push((t.clone(), n));
                assert(self.entries@.drop_last() == prev);
                assert forall|i: int| 0 <= i < prev.len() implies #[trigger] prev[i].0@ != t@ by {
                    if prev[i].0@ == t@ {
                        assert(prev[i].0@ == t@);
                    }
                }
            },
        }
    }

    /// The table that counts each of `ts` by its number of occurrences.
    pub fn from_terms(ts: &Vec<String>) -> (r: TermCounts)
        ensures
            r.wf(),
            r@ == tally(views(ts@)),
            r.total() == ts.len(),
    {
        let mut r = TermCounts::new();
        let mut i: usize = 0;
        while i < ts.len()
            invariant
                i <= ts.len(),
                r.wf(),
                r@ == tally(views(ts@.take(i as int))),
                r.total() == i,
            decreases ts.len() - i,
        {
            proof {
                let pre = views(ts@.take(i as int));
                let post = views(ts@.take(i as int + 1));
                assert(post.drop_last() =~= pre);
                assert(post.last() == ts@[i as int]@);
            }
            r.add(&ts[i], 1);
            i = i + 1;
        }
        assert(ts@.take(ts.len() as int) =~= ts@);
        r
    }

    /// The entries of the table as (term, count) pairs.
    pub fn to_entries(&self) -> (r: Vec<(String, usize)>)
        requires
            self.wf(),
        ensures
            keys_distinct(r@),
            counts_positive(r@),
            table_of(r@) == self@,
            total_of(r@) == self.total(),
    {
        let mut r: Vec<(String, usize)> = Vec::new();
        let mut i: usize = 0;
        while i < self.entries.len()
            invariant
                i <= self.entries.len(),
                r@ == self.entries@.take(i as int),
            decreases self.entries.len() - i,
        {
            r.push((self.entries[i].0.clone(), self.entries[i].1));
            assert(r@ =~= self.entries@.take(i as int + 1));
            i = i + 1;
        }
        assert(r@ =~= self.entries@);
        r
    }

    /// The table of a list of (term, count) pairs; `None` unless the terms
    /// are distinct and the counts positive.
    pub fn from_entries(v: &Vec<(String, usize)>) -> (r: Option<TermCounts>)
        ensures
            r is Some <==> keys_distinct(v@) && counts_positive(v@),
            r matches Some(c) ==> c.wf() && c@ == table_of(v@) && c.total() == total_of(v@),
    {
        let mut i: usize = 0;
        while i < v.len()
            invariant
                i <= v.len(),
                forall|a: int, b: int| 0 <= a < b < i ==> v@[a].0@ != v@[b].0@,
                forall|a: int| 0 <= a < i ==> #[trigger] v@[a].1 > 0,
            decreases v.len() - i,
        {
            if v[i].1 == 0 {
                return None;
            }
            let mut j: usize = 0;
            while j < i
                invariant
                    i < v.len(),
                    j <= i,
                    forall|a: int| 0 <= a < j ==> #[trigger] v@[a].0@ != v@[i as int].0@,
                decreases i - j,
            {
                if v[j].0 == v[i].0 {
                    return None;
                }
                j = j + 1;
            }
            i = i + 1;
        }
        let mut entries: Vec<(String, usize)> = Vec::new();
        let mut k: usize = 0;
        while k < v.len()
            invariant
                k <= v.len(),
                entries@ == v@.take(k as int),
            decreases v.len() - k,
        {
            entries.push((v[k].0.clone(), v[k].1));
            assert(entries@ =~= v@.take(k as int + 1));
            k = k + 1;
        }
        assert(entries@ =~= v@);
        Some(TermCounts { entries })
    }

    /// The sum of all counts, if it fits in a `usize`.
    pub fn checked_total(&self) -> (r: Option<usize>)
        ensures
            r is Some <==> self.total() <= usize::MAX,
            r matches Some(x) ==> x == self.total(),
    {
        let mut acc: usize = 0;
        let mut j: usize = 0;
        while j < self.entries.len()
            invariant
                j <= self.entries.len(),
                acc == total_of(self.entries@.take(j as int)),
            decreases self.entries.len() - j,
        {
            let ghost post = self.entries@.take(j as int + 1);
            assert(post.drop_last() =~= self.entries@.take(j as int));
            if self.entries[j].1 > usize::MAX - acc {
                proof {
                    lemma_prefix_total(self.entries@, j as int + 1);
                }
                return None;
            }
            acc = acc + self.entries[j].1;
            j = j + 1;
        }
        assert(self.entries@.take(self.entries.len() as int) =~= self.entries@);
        Some(acc)
    }

    /// Adds every count of `other` to this table.
    pub fn merge(&mut self, other: &TermCounts)
        requires
            old(self).wf(),
            other.wf(),
            old(self).total() + other.total() <= usize::MAX,
        ensures
            final(self).wf(),
            forall|t: Seq<char>|
                count_in(#[trigger] final(self)@, t) == count_in(old(self)@, t) + count_in(other@, t),
            final(self).total() == old(self).total() + other.total(),
    {
        let ghost start = self@;
        let ghost e = other.entries@;
        let mut j: usize = 0;
        while j < other.entries.len()
            invariant
                other.wf(),
                e == other.entries@,
                j <= e.len(),
                self.wf(),
                forall|t: Seq<char>|
                    count_in(#[trigger] self@, t) == count_in(start, t) + count_in(
                        table_of(e.take(j as int)),
                        t,
                    ),
                self.total() == old(self).total() + total_of(e.take(j as int)),
                old(self).total() + other.total() <= usize::MAX,
            decreases e.len() - j,
        {
            let ghost pre = e.take(j as int);
            assert(e.take(j as int + 1).drop_last() =~= pre);
            proof {
                assert(keys_distinct(pre));
                lemma_absent(pre, e[j as int].0@);
                lemma_count_le_total(e, e[j as int].0@);
                assert(total_of(e.take(j as int + 1)) <= total_of(e)) by {
                    lemma_prefix_total(e, j as int + 1);
                }
            }
            let ghost prev = self@;
            self.add(&other.entries[j].0, other.entries[j].1);
            proof {
                let k = e[j as int].0@;
                let post = e.take(j as int + 1);
                assert(post.last() == e[j as int]);
                assert(table_of(post) == table_of(pre).insert(k, e[j as int].1 as nat));
                assert forall|t: Seq<char>|
                    count_in(#[trigger] self@, t) == count_in(start, t) + count_in(
                        table_of(post),
                        t,
                    ) by {
                    if t != k {
                        assert(count_in(self@, t) == count_in(prev, t));
                    }
                }
            }
            j = j + 1;
        }
        assert(e.take(e.len() as int) =~= e);
    }
}

pub proof fn lemma_prefix_total(e: Seq<(String, usize)>, n: int)
    requires
        0 <= n <= e.len(),
    ensures
        total_of(e.take(n)) <= total_of(e),
    decreases e.len(),
{
    if n < e.len() {
        assert(e.drop_last().take(n) =~= e.take(n));
        lemma_prefix_total(e.drop_last(), n);
    } else {
        assert(e.take(n) =~= e);
    }
}

proof fn lemma_table_remove(e: Seq<(String, usize)>, j: int)
    requires
        keys_distinct(e),
        0 <= j < e.len(),
    ensures
        table_of(e.remove(j)) =~= table_of(e).remove(e[j].0@),
        total_of(e.remove(j)) + e[j].1 == total_of(e),
        keys_distinct(e.remove(j)),
    decreases e.len(),
{
    let d = e.drop_last();
    lemma_table_keys(d);
    if j == e.len() - 1 {
        assert(e.remove(j) =~= d);
        assert(!table_of(d).contains_key(e[j].0@)) by {
            if table_of(d).contains_key(e[j].0@) {
                let i = choose|i: int| 0 <= i < d.len() && #[trigger] d[i].0@ == e[j].0@;
                assert(e[i] == d[i]);
            }
        }
    } else {
        assert(e.remove(j).drop_last() =~= d.remove(j));
        assert(e.remove(j).last() == e.last());
        lemma_table_remove(d, j);
        assert(d[j] == e[j]);
    }
    let r = e.remove(j);
    assert forall|a: int, b: int| 0 <= a < b < r.len() implies r[a].0@ != r[b].0@ by {
        let ea = if a < j { a } else { a + 1 };
        let eb = if b < j { b } else { b + 1 };
        assert(r[a] == e[ea] && r[b] == e[eb]);
    }
}

/// The counts of a tally sum to the number of terms tallied: any list of
/// entries with distinct terms that denotes `tally(ts)` has total `ts.len()`.
pub proof fn lemma_tally_total(ts: Seq<Seq<char>>, e: Seq<(String, usize)>)
    requires
        keys_distinct(e),
        table_of(e) == tally(ts),
    ensures
        total_of(e) == ts.len(),
    decreases ts.len(),
{
    lemma_table_keys(e);
    if ts.len() == 0 {
        if e.len() > 0 {
            assert(table_of(e).contains_key(e[0].0@));
        }
    } else {
        let x = ts.last();
        let p = ts.drop_last();
        let m = tally(p);
        assert(table_of(e).contains_key(x));
        let j = choose|j: int| 0 <= j < e.len() && #[trigger] e[j].0@ == x;
        assert(e[j].1 == count_in(m, x) + 1);
        if e[j].1 == 1 {
            lemma_table_remove(e, j);
            assert(!m.contains_key(x) || m[x] == 0);
            if m.contains_key(x) {
                lemma_tally_positive(p);
            }
            assert(table_of(e.remove(j)) =~= m);
            lemma_tally_total(p, e.remove(j));
        } else {
            let v = (e[j].1 - 1) as usize;
            lemma_table_update(e, j, v);
            let u = e.update(j, (e[j].0, v));
            assert(keys_distinct(u)) by {
                assert forall|a: int, b: int| 0 <= a < b < u.len() implies u[a].0@ != u[b].0@ by {
                    assert(u[a].0@ == e[a].0@ && u[b].0@ == e[b].0@);
                }
            }
            lemma_tally_positive(p);
            assert(table_of(u) =~= m);
            lemma_tally_total(p, u);
        }
    }
}

proof fn lemma_tally_positive(ts: Seq<Seq<char>>)
    ensures
        forall|t: Seq<char>| tally(ts).contains_key(t) ==> tally(ts)[t] > 0,
    decreases ts.len(),
{
    if ts.len() > 0 {
        let m = tally(ts.drop_last());
        lemma_tally_positive(ts.drop_last());
        assert forall|t: Seq<char>| tally(ts).contains_key(t) implies tally(ts)[t] > 0 by {
            if t != ts.last() {
                assert(m.contains_key(t));
            }
        }
    } else {
        assert(tally(ts) =~= Map::<Seq<char>, nat>::empty());
    }
}

} // verus!
