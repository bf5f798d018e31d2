use vstd::prelude::*;

use crate::tokenize::tokens_of;
use crate::tokenize::tokenize;

verus! {

// The corpus index. Keys (terms, document ids) are kept in vectors of pairs
// with unique keys, in first-insertion order; the spec side reads them as
// sequences of (view, value) pairs.

/// Does `s` hold an entry whose key is `k`?
pub open spec fn has_key<V>(s: Seq<(Seq<char>, V)>, k: Seq<char>) -> bool {
    exists|i: int| 0 <= i < s.len() && s[i].0 == k
}

/// No key occurs twice.
pub open spec fn keys_unique<V>(s: Seq<(Seq<char>, V)>) -> bool {
    forall|i: int, j: int| 0 <= i < j < s.len() ==> s[i].0 != s[j].0
}

/// The value stored under `k` (unambiguous when `keys_unique` holds).
pub open spec fn lookup<V>(s: Seq<(Seq<char>, V)>, k: Seq<char>) -> V
    recommends
        has_key(s, k),
{
    let i = choose|i: int| 0 <= i < s.len() && s[i].0 == k;
    s[i].1
}

/// Under unique keys, the value looked up is the value stored.
pub proof fn lemma_lookup_at<V>(s: Seq<(Seq<char>, V)>, i: int)
    requires
        keys_unique(s),
        0 <= i < s.len(),
    ensures
        lookup(s, s[i].0) == s[i].1,
{
    let j = choose|j: int| 0 <= j < s.len() && s[j].0 == s[i].0;
    if j != i {
        assert(s[i].0 != s[j].0);
    }
}

/// One document: how often each term occurs in it, and its total token count.
#[derive(Clone, Debug, PartialEq)]
pub struct Document {
    pub word_count: Vec<(String, u64)>,
    pub lenght: u64,
}

/// The whole index: one document per id, and the corpus document count `N`
/// (reassigned on every scan to the number of directory entries visited).
#[derive(Clone, Debug, PartialEq)]
pub struct Global {
    pub word_count: Vec<(String, Document)>,
    pub lenght: u64,
}

/// The spec-level reading of a term-count vector.
pub open spec fn counts_view(wc: Seq<(String, u64)>) -> Seq<(Seq<char>, u64)> {
    wc.map_values(|p: (String, u64)| (p.0@, p.1))
}

/// The spec-level value of a document: its term counts and its length.
pub type DocV = (Seq<(Seq<char>, u64)>, u64);

impl Document {
    /// The term-count mapping, as the contracts read it.
    pub open spec fn counts(self) -> Seq<(Seq<char>, u64)> {
        counts_view(self.word_count@)
    }

    /// The spec-level value of this document.
    pub open spec fn view_v(self) -> DocV {
        (self.counts(), self.lenght)
    }

    /// Well-formed: term keys are unique and every count is between 1 and the
    /// document length (a term cannot occur more often than there are tokens).
    pub open spec fn wf(self) -> bool {
        &&& keys_unique(self.counts())
        &&& forall|i: int|
            0 <= i < self.counts().len() ==> 1 <= (#[trigger] self.counts()[i]).1 <= self.lenght
    }

    /// How often `t` occurs in this document (0 when absent).
    pub open spec fn freq(self, t: Seq<char>) -> u64 {
        freq_v(self.counts(), t)
    }

    pub fn new(word_count: Vec<(String, u64)>, lenght: u64) -> (d: Document)
        ensures
            d.word_count == word_count,
            d.lenght == lenght,
    {
        Document { word_count, lenght }
    }
}

/// The count stored for `t`, or 0 when `t` is not a key.
pub open spec fn freq_v(counts: Seq<(Seq<char>, u64)>, t: Seq<char>) -> u64 {
    if has_key(counts, t) {
        lookup(counts, t)
    } else {
        0
    }
}

/// The spec-level reading of the index's documents.
pub open spec fn glob_view(g: Global) -> Seq<(Seq<char>, DocV)> {
    g.word_count@.map_values(|p: (String, Document)| (p.0@, p.1.view_v()))
}

impl Global {
    /// Well-formed: document ids are unique keys and every document is
    /// well-formed.
    pub open spec fn wf(self) -> bool {
        &&& keys_unique(glob_view(self))
        &&& forall|i: int|
            0 <= i < self.word_count@.len() ==> (#[trigger] self.word_count@[i]).1.wf()
    }

    pub fn new(word_count: Vec<(String, Document)>, lenght: u64) -> (g: Global)
        ensures
            g.word_count == word_count,
            g.lenght == lenght,
    {
        Global { word_count, lenght }
    }
}

/// Index of the entry whose key is `k`, if any.
fn find_key<V>(wc: &Vec<(String, V)>, k: &String) -> (r: Option<usize>)
    ensures
        match r {
            Some(i) => i < wc@.len() && wc@[i as int].0@ == k@,
            None => forall|i: int| 0 <= i < wc@.len() ==> wc@[i].0@ != k@,
        },
{
    let mut i: usize = 0;
    while i < wc.len()
        invariant
            i <= wc@.len(),
            forall|j: int| 0 <= j < i ==> wc@[j].0@ != k@,
        decreases wc@.len() - i,
    {
        let p = &wc[i];
        if p.0 == *k {
            return Some(i);
        }
        i += 1;
    }
    None
}

/// Index of the document stored under id `k`, if any.
pub fn find_in_global(g: &Global, k: &String) -> (r: Option<usize>)
    ensures
        match r {
            Some(i) => i < g.word_count@.len() && glob_view(*g)[i as int].0 == k@,
            None => !has_key(glob_view(*g), k@),
        },
{
    let r = find_key(&g.word_count, k);
    proof {
        match r {
            Some(i) => {
                assert(glob_view(*g)[i as int].0 == g.word_count@[i as int].0@);
            },
            None => {
                assert forall|i: int| 0 <= i < glob_view(*g).len() implies glob_view(*g)[i].0
                    != k@ by {
                    assert(glob_view(*g)[i].0 == g.word_count@[i].0@);
                }
            },
        }
    }
    r
}

/// Index of the count entry stored under term `k`, if any.
pub fn find_in_document(d: &Document, k: &String) -> (r: Option<usize>)
    ensures
        match r {
            Some(i) => i < d.word_count@.len() && d.counts()[i as int].0 == k@,
            None => !has_key(d.counts(), k@),
        },
{
    let r = find_key(&d.word_count, k);
    proof {
        match r {
            Some(i) => {
                assert(d.counts()[i as int].0 == d.word_count@[i as int].0@);
            },
            None => {
                assert forall|i: int| 0 <= i < d.counts().len() implies d.counts()[i].0 != k@ by {
                    assert(d.counts()[i].0 == d.word_count@[i].0@);
                }
            },
        }
    }
    r
}

/// Adding one token to a term-count mapping: increment its entry, or append a
/// fresh entry with count 1.
pub open spec fn upsert(s: Seq<(Seq<char>, u64)>, t: Seq<char>) -> Seq<(Seq<char>, u64)> {
    if has_key(s, t) {
        s.map_values(|p: (Seq<char>, u64)| if p.0 == t { (p.0, (p.1 + 1) as u64) } else { p })
    } else {
        s.push((t, 1u64))
    }
}

/// What one upsert does: `t`'s count becomes one more, all else is unchanged.
proof fn lemma_upsert(s: Seq<(Seq<char>, u64)>, t: Seq<char>)
    requires
        keys_unique(s),
        forall|i: int| 0 <= i < s.len() ==> (#[trigger] s[i]).1 < u64::MAX,
    ensures
        keys_unique(upsert(s, t)),
        has_key(upsert(s, t), t),
        forall|u: Seq<char>| #[trigger] has_key(upsert(s, t), u) <==> (has_key(s, u) || u == t),
        lookup(upsert(s, t), t) == freq_v(s, t) + 1,
        forall|u: Seq<char>|
            u != t && has_key(s, u) ==> #[trigger] lookup(upsert(s, t), u) == lookup(s, u),
        s.len() <= upsert(s, t).len() <= s.len() + 1,
        forall|i: int| 0 <= i < s.len() ==> (#[trigger] upsert(s, t)[i]).0 == s[i].0,
{
    let m = upsert(s, t);
    if has_key(s, t) {
        let w = choose|i: int| 0 <= i < s.len() && s[i].0 == t;
        assert(forall|i: int| 0 <= i < s.len() ==> (#[trigger] m[i]).0 == s[i].0);
        assert forall|u: Seq<char>| #[trigger] has_key(m, u) implies (has_key(s, u) || u
            == t) by {
            let i = choose|i: int| 0 <= i < m.len() && m[i].0 == u;
            assert(s[i].0 == u);
        }
        assert forall|u: Seq<char>| has_key(s, u) implies #[trigger] has_key(m, u) by {
            let i = choose|i: int| 0 <= i < s.len() && s[i].0 == u;
            assert(m[i].0 == u);
        }
        lemma_lookup_at(s, w);
        lemma_lookup_at(m, w);
        assert(m[w].1 == s[w].1 + 1);
        assert forall|u: Seq<char>| u != t && has_key(s, u) implies #[trigger] lookup(m, u)
            == lookup(s, u) by {
            let i = choose|i: int| 0 <= i < s.len() && s[i].0 == u;
            lemma_lookup_at(s, i);
            lemma_lookup_at(m, i);
            assert(m[i].1 == s[i].1);
        }
    } else {
        assert(m == s.push((t, 1u64)));
        assert forall|i: int, j: int| 0 <= i < j < m.len() implies m[i].0 != m[j].0 by {
            if j < s.len() {
                assert(s[i].0 != s[j].0);
            } else {
                assert(m[j].0 == t);
                assert(m[i].0 == s[i].0);
                assert(has_key(s, s[i].0));
            }
        }
        assert(m[s.len() as int].0 == t);
        lemma_lookup_at(m, s.len() as int);
        assert forall|u: Seq<char>| u != t && has_key(s, u) implies #[trigger] lookup(m, u)
            == lookup(s, u) by {
            let i = choose|i: int| 0 <= i < s.len() && s[i].0 == u;
            lemma_lookup_at(s, i);
            assert(m[i].0 == u);
            lemma_lookup_at(m, i);
        }
        assert forall|u: Seq<char>| #[trigger] has_key(m, u) implies (has_key(s, u) || u
            == t) by {
            let i = choose|i: int| 0 <= i < m.len() && m[i].0 == u;
            if i < s.len() {
                assert(s[i].0 == u);
            }
        }
        assert forall|u: Seq<char>| has_key(s, u) implies #[trigger] has_key(m, u) by {
            let i = choose|i: int| 0 <= i < s.len() && s[i].0 == u;
            assert(m[i].0 == u);
        }
    }
}

/// The term counts of a token sequence, in first-occurrence order.
pub open spec fn counts_of_tokens(toks: Seq<Seq<char>>) -> Seq<(Seq<char>, u64)>
    decreases toks.len(),
{
    if toks.len() == 0 {
        Seq::empty()
    } else {
        upsert(counts_of_tokens(toks.drop_last()), toks.last())
    }
}

/// How often `t` occurs in `toks`.
pub open spec fn count_occ(toks: Seq<Seq<char>>, t: Seq<char>) -> nat
    decreases toks.len(),
{
    if toks.len() == 0 {
        0
    } else {
        count_occ(toks.drop_last(), t) + if toks.last() == t {
            1nat
        } else {
            0nat
        }
    }
}

/// Structural bounds on a token-count mapping: unique keys, at most one key
/// per token, every count between 1 and the token count.
pub proof fn lemma_counts_bounds(toks: Seq<Seq<char>>)
    requires
        toks.len() < u64::MAX,
    ensures
        keys_unique(counts_of_tokens(toks)),
        counts_of_tokens(toks).len() <= toks.len(),
        forall|i: int|
            0 <= i < counts_of_tokens(toks).len() ==> 1 <= (
            #[trigger] counts_of_tokens(toks)[i]).1 <= toks.len(),
    decreases toks.len(),
{
    if toks.len() == 0 {
    } else {
        let prev = counts_of_tokens(toks.drop_last());
        let last = toks.last();
        lemma_counts_bounds(toks.drop_last());
        lemma_upsert(prev, last);
        let cur = counts_of_tokens(toks);
        if has_key(prev, last) {
            let w = choose|i: int| 0 <= i < prev.len() && prev[i].0 == last;
            assert forall|i: int| 0 <= i < cur.len() implies 1 <= (#[trigger] cur[i]).1
                <= toks.len() by {
                assert(cur[i] == if prev[i].0 == last {
                    (prev[i].0, (prev[i].1 + 1) as u64)
                } else {
                    prev[i]
                });
            }
        } else {
            assert forall|i: int| 0 <= i < cur.len() implies 1 <= (#[trigger] cur[i]).1
                <= toks.len() by {
                if i < prev.len() {
                    assert(cur[i] == prev[i]);
                }
            }
        }
    }
}

/// The counts of a token sequence are exactly the occurrence counts: a term
/// is a key if and only if it occurs, and its count is its number of
/// occurrences.
pub proof fn lemma_counts_of_tokens(toks: Seq<Seq<char>>, t: Seq<char>)
    requires
        toks.len() < u64::MAX,
    ensures
        has_key(counts_of_tokens(toks), t) <==> count_occ(toks, t) > 0,
        freq_v(counts_of_tokens(toks), t) == count_occ(toks, t),
    decreases toks.len(),
{
    lemma_counts_bounds(toks);
    if toks.len() == 0 {
    } else {
        let prev = counts_of_tokens(toks.drop_last());
        let last = toks.last();
        lemma_counts_of_tokens(toks.drop_last(), t);
        lemma_counts_bounds(toks.drop_last());
        lemma_upsert(prev, last);
        if t == last {
        } else {
            if has_key(prev, t) {
            } else {
                assert(!has_key(upsert(prev, last), t));
            }
        }
    }
}

/// Builds the term-count mapping and length of one document's text: tokenize,
/// then count each token, in first-occurrence order.
pub fn words_time_by_documents(document: &str) -> (d: Document)
    ensures
        d.wf(),
        d.counts() == counts_of_tokens(tokens_of(document@)),
        d.lenght == tokens_of(document@).len(),
        d.lenght <= document@.len(),
{
    let toks = tokenize(document);
    let ghost tv = toks@.map_values(|w: String| w@);
    let mut wc: Vec<(String, u64)> = Vec::new();
    let mut i: usize = 0;
    while i < toks.len()
        invariant
            i <= toks@.len(),
            tv == toks@.map_values(|w: String| w@),
            tv == tokens_of(document@),
            counts_view(wc@) == counts_of_tokens(tv.take(i as int)),
            keys_unique(counts_view(wc@)),
            forall|j: int| 0 <= j < wc@.len() ==> 1 <= (#[trigger] counts_view(wc@)[j]).1 <= i,
        decreases toks@.len() - i,
    {
        let ghost pre = counts_view(wc@);
        let ghost tview = toks@[i as int]@;
        proof {
            assert(tv.take(i + 1).drop_last() =~= tv.take(i as int));
            assert(tv.take(i + 1).last() == tv[i as int]);
            assert(tv[i as int] == tview);
            lemma_upsert(pre, tview);
        }
        let t = &toks[i];
        match find_key(&wc, t) {
            Some(k) => {
                let c = wc[k].1;
                let name = wc[k].0.clone();
                proof {
                    assert(pre[k as int] == (wc@[k as int].0@, wc@[k as int].1));
                    assert(has_key(pre, tview));
                }
                wc.set(k, (name, c + 1));
                proof {
                    assert forall|j: int| 0 <= j < pre.len() implies counts_view(wc@)[j] == (
                    if pre[j].0 == tview {
                        (pre[j].0, (pre[j].1 + 1) as u64)
                    } else {
                        pre[j]
                    }) by {
                        if j != k {
                            assert(pre[j].0 != tview);
                        }
                    }
                    assert(counts_view(wc@) =~= upsert(pre, tview));
                }
            },
            None => {
                let key = (*t).clone();
                wc.push((key, 1));
                proof {
                    assert(!has_key(pre, tview));
                    assert(counts_view(wc@) =~= pre.push((tview, 1u64)));
                }
            },
        }
        i += 1;
    }
    proof {
        assert(tv.take(toks@.len() as int) =~= tv);
    }
    let n = toks.len() as u64;
    Document::new(wc, n)
}

} // verus!
