//! The counting side of the TF-IDF vectorizer: the sorted vocabulary of a
//! corpus with each term's document frequency, and the term counts of a
//! text over that vocabulary. The weighting by inverse document frequency
//! and the normalisation are floating point and stay with the caller.

use vstd::prelude::*;
use vstd::string::*;
use crate::rag::{tokenize, words, spec_lowercase, strings_view};

verus! {

/// `a` sorts before `b`: lexicographic order of the characters' code
/// points, a proper prefix first.
pub open spec fn seq_less(a: Seq<char>, b: Seq<char>) -> bool
    decreases a.len(),
{
    if a.len() == 0 {
        b.len() > 0
    } else if b.len() == 0 {
        false
    } else if a[0] != b[0] {
        (a[0] as int) < (b[0] as int)
    } else {
        seq_less(a.drop_first(), b.drop_first())
    }
}

/// The tokens of a text, as the tokenizer produces them.
pub open spec fn doc_tokens(text: Seq<char>) -> Seq<Seq<char>> {
    words(spec_lowercase(text))
}

/// How many times `t` occurs in `toks`.
pub open spec fn occurrences(toks: Seq<Seq<char>>, t: Seq<char>) -> nat
    decreases toks.len(),
{
    if toks.len() == 0 {
        0
    } else {
        occurrences(toks.drop_last(), t) + if toks.last() == t {
            1nat
        } else {
            0nat
        }
    }
}

/// How many of the token lists `docs` contain `t`.
pub open spec fn docs_containing(docs: Seq<Seq<Seq<char>>>, t: Seq<char>) -> nat
    decreases docs.len(),
{
    if docs.len() == 0 {
        0
    } else {
        docs_containing(docs.drop_last(), t) + if docs.last().contains(t) {
            1nat
        } else {
            0nat
        }
    }
}

/// The token lists of a corpus.
pub open spec fn corpus_tokens(docs: Seq<String>) -> Seq<Seq<Seq<char>>> {
    docs.map_values(|d: String| doc_tokens(d@))
}

/// `t` occurs in some document of the corpus.
pub open spec fn in_corpus(docs: Seq<Seq<Seq<char>>>, t: Seq<char>) -> bool {
    exists|d: int| 0 <= d < docs.len() && (#[trigger] docs[d]).contains(t)
}

/// The terms are in strictly increasing order.
pub open spec fn strictly_sorted(terms: Seq<Seq<char>>) -> bool {
    forall|i: int, j: int| 0 <= i < j < terms.len() ==> seq_less(#[trigger] terms[i], #[trigger] terms[j])
}

/// The vocabulary of a corpus: its distinct terms in sorted order, and for
/// each the number of documents that contain it.
pub struct Vocabulary {
    pub terms: Vec<String>,
    pub doc_freqs: Vec<usize>,
}

impl Vocabulary {
    /// The terms as character sequences.
    pub open spec fn term_seqs(&self) -> Seq<Seq<char>> {
        strings_view(self.terms@)
    }

    /// The terms are sorted and distinct, one frequency each.
    pub open spec fn wf(&self) -> bool {
        &&& strictly_sorted(self.term_seqs())
        &&& self.doc_freqs@.len() == self.terms@.len()
    }

    /// This is the vocabulary of the token lists `docs`: exactly their
    /// terms, each with its document frequency.
    pub open spec fn describes(&self, docs: Seq<Seq<Seq<char>>>) -> bool {
        &&& self.wf()
        &&& forall|t: Seq<char>| #[trigger] self.term_seqs().contains(t) <==> in_corpus(docs, t)
        &&& forall|i: int|
            0 <= i < self.terms@.len() ==> #[trigger] self.doc_freqs@[i] == docs_containing(
                docs,
                self.term_seqs()[i],
            )
    }
}

proof fn lemma_less_irreflexive(a: Seq<char>)
    ensures
        !seq_less(a, a),
    decreases a.len(),
{
    if a.len() > 0 {
        lemma_less_irreflexive(a.drop_first());
    }
}

proof fn lemma_less_total(a: Seq<char>, b: Seq<char>)
    ensures
        a == b || seq_less(a, b) || seq_less(b, a),
    decreases a.len(),
{
    if a.len() == 0 && b.len() == 0 {
        assert(a =~= b);
    } else if a.len() > 0 && b.len() > 0 && a[0] == b[0] {
        lemma_less_total(a.drop_first(), b.drop_first());
        if a.drop_first() == b.drop_first() {
            assert(a =~= seq![a[0]] + a.drop_first());
            assert(b =~= seq![b[0]] + b.drop_first());
        }
    } else if a.len() > 0 && b.len() > 0 {
        assert((a[0] as int) != (b[0] as int));
    }
}

proof fn lemma_less_transitive(a: Seq<char>, b: Seq<char>, c: Seq<char>)
    requires
        seq_less(a, b),
        seq_less(b, c),
    ensures
        seq_less(a, c),
    decreases a.len(),
{
    if a.len() > 0 && b.len() > 0 && c.len() > 0 && a[0] == b[0] && b[0] == c[0] {
        lemma_less_transitive(a.drop_first(), b.drop_first(), c.drop_first());
    }
}

/// `a` sorts strictly before `b`.
fn str_less(a: &str, b: &str) -> (r: bool)
    ensures
        r == seq_less(a@, b@),
{
    let la = a.unicode_len();
    let lb = b.unicode_len();
    let mut i: usize = 0;
    assert(a@.skip(0) =~= a@);
    assert(b@.skip(0) =~= b@);
    while i < la && i < lb
        invariant
            i <= la,
            i <= lb,
            la == a@.len(),
            lb == b@.len(),
            a@.take(i as int) =~= b@.take(i as int),
            seq_less(a@, b@) == seq_less(a@.skip(i as int), b@.skip(i as int)),
        decreases la - i,
    {
        let x = a.get_char(i);
        let y = b.get_char(i);
        let ghost sa = a@.skip(i as int);
        let ghost sb = b@.skip(i as int);
        assert(sa[0] == x && sb[0] == y);
        if x != y {
            return (x as u32) < (y as u32);
        }
        assert(sa.drop_first() =~= a@.skip(i as int + 1));
        assert(sb.drop_first() =~= b@.skip(i as int + 1));
        i += 1;
        assert(a@.take(i as int) =~= a@.take(i as int - 1).push(x));
        assert(b@.take(i as int) =~= b@.take(i as int - 1).push(y));
    }
    i == la && i < lb
}

/// Where `u` belongs in the sorted `terms`: the first position whose term
/// does not sort before `u`, and whether that term is `u`.
fn position_in(terms: &Vec<String>, u: &String) -> (r: (usize, bool))
    requires
        strictly_sorted(strings_view(terms@)),
    ensures
        r.0 <= terms@.len(),
        forall|i: int| 0 <= i < r.0 ==> seq_less(#[trigger] terms@[i]@, u@),
        forall|i: int| r.0 <= i < terms@.len() ==> !seq_less(#[trigger] terms@[i]@, u@),
        r.1 <==> (r.0 < terms@.len() && terms@[r.0 as int]@ == u@),
        !r.1 ==> forall|i: int| r.0 <= i < terms@.len() ==> seq_less(u@, #[trigger] terms@[i]@),
{
    let ghost tv = strings_view(terms@);
    let mut p: usize = 0;
    while p < terms.len() && str_less(terms[p].as_str(), u.as_str())
        invariant
            p <= terms@.len(),
            tv == strings_view(terms@),
            strictly_sorted(tv),
            forall|i: int| 0 <= i < p ==> seq_less(#[trigger] terms@[i]@, u@),
        decreases terms@.len() - p,
    {
        p += 1;
    }
    let found = p < terms.len() && terms[p] == *u;
    proof {
        assert forall|i: int| p <= i < terms@.len() implies !seq_less(#[trigger] terms@[i]@, u@) by {
            if i > p {
                assert(tv[p as int] == terms@[p as int]@ && tv[i] == terms@[i]@);
                assert(seq_less(tv[p as int], tv[i]));
                if seq_less(terms@[i]@, u@) {
                    lemma_less_transitive(terms@[p as int]@, terms@[i]@, u@);
                }
            }
        }
        if !found {
            assert forall|i: int| p <= i < terms@.len() implies seq_less(u@, #[trigger] terms@[i]@) by {
                lemma_less_total(terms@[p as int]@, u@);
                if i > p {
                    assert(tv[p as int] == terms@[p as int]@ && tv[i] == terms@[i]@);
                    assert(seq_less(tv[p as int], tv[i]));
                    lemma_less_transitive(u@, terms@[p as int]@, terms@[i]@);
                }
            }
        }
    }
    (p, found)
}


proof fn lemma_push_contains(s: Seq<Seq<char>>, e: Seq<char>, x: Seq<char>)
    ensures
        s.push(e).contains(x) <==> (s.contains(x) || x == e),
{
    let t = s.push(e);
    if s.contains(x) {
        let q = choose|q: int| 0 <= q < s.len() && s[q] == x;
        assert(t[q] == x);
    }
    if x == e {
        assert(t[s.len() as int] == x);
    }
    if t.contains(x) {
        let q = choose|q: int| 0 <= q < t.len() && t[q] == x;
        if q < s.len() {
            assert(s[q] == x);
        }
    }
}

/// No term occurs twice.
pub open spec fn distinct(s: Seq<Seq<char>>) -> bool {
    forall|i: int, j: int| 0 <= i < j < s.len() ==> #[trigger] s[i] != #[trigger] s[j]
}

/// The tokens with repeats removed, first occurrences kept.
fn distinct_tokens(toks: &Vec<String>) -> (r: Vec<String>)
    ensures
        distinct(strings_view(r@)),
        forall|t: Seq<char>| #[trigger] strings_view(r@).contains(t) <==> strings_view(toks@).contains(t),
{
    let ghost tv = strings_view(toks@);
    let mut r: Vec<String> = Vec::new();
    let mut k: usize = 0;
    while k < toks.len()
        invariant
            k <= toks@.len(),
            tv == strings_view(toks@),
            distinct(strings_view(r@)),
            forall|t: Seq<char>| #[trigger] strings_view(r@).contains(t) <==> tv.take(k as int).contains(t),
        decreases toks@.len() - k,
    {
        let ghost rv = strings_view(r@);
        let mut seen = false;
        let mut j: usize = 0;
        while j < r.len()
            invariant
                j <= r@.len(),
                k < toks@.len(),
                rv == strings_view(r@),
                seen <==> exists|q: int| 0 <= q < j && rv[q] == toks@[k as int]@,
            decreases r@.len() - j,
        {
            assert(rv[j as int] == r@[j as int]@);
            if r[j] == toks[k] {
                seen = true;
            }
            j += 1;
        }
        let ghost t = tv.take(k as int + 1);
        assert(t =~= tv.take(k as int).push(tv[k as int]));
        assert(tv[k as int] == toks@[k as int]@);
        assert(forall|x: Seq<char>| rv.contains(x) <==> tv.take(k as int).contains(x));
        if !seen {
            r.push(toks[k].clone());
            assert(strings_view(r@) =~= rv.push(tv[k as int]));
            assert forall|x: Seq<char>| #[trigger] strings_view(r@).contains(x) <==> t.contains(x) by {
                lemma_push_contains(rv, tv[k as int], x);
                lemma_push_contains(tv.take(k as int), tv[k as int], x);
            }
            assert forall|i: int, j: int| 0 <= i < j < strings_view(r@).len() implies #[trigger] strings_view(r@)[i]
                != #[trigger] strings_view(r@)[j] by {
                if j == rv.len() {
                    assert(strings_view(r@)[i] == rv[i]);
                }
            }
        } else {
            let ghost q = choose|q: int| 0 <= q < r@.len() && rv[q] == toks@[k as int]@;
            assert forall|x: Seq<char>| #[trigger] strings_view(r@).contains(x) <==> t.contains(x) by {
                lemma_push_contains(tv.take(k as int), tv[k as int], x);
                if x == tv[k as int] {
                    assert(rv[q] == x);
                }
            }
        }
        k += 1;
    }
    assert(tv.take(toks@.len() as int) =~= tv);
    r
}

proof fn lemma_docs_containing_bound(docs: Seq<Seq<Seq<char>>>, t: Seq<char>)
    ensures
        docs_containing(docs, t) <= docs.len(),
        !in_corpus(docs, t) ==> docs_containing(docs, t) == 0,
    decreases docs.len(),
{
    if docs.len() > 0 {
        let init = docs.drop_last();
        lemma_docs_containing_bound(init, t);
        if !in_corpus(docs, t) {
            assert(!docs.last().contains(t)) by {
                assert(docs[docs.len() - 1] == docs.last());
            }
            assert forall|d: int| 0 <= d < init.len() implies !(#[trigger] init[d]).contains(t) by {
                assert(init[d] == docs[d]);
            }
        }
    }
}

proof fn lemma_in_corpus_push(docs: Seq<Seq<Seq<char>>>, extra: Seq<Seq<char>>, t: Seq<char>)
    ensures
        in_corpus(docs.push(extra), t) <==> (in_corpus(docs, t) || extra.contains(t)),
{
    let e = docs.push(extra);
    if in_corpus(docs, t) {
        let d = choose|d: int| 0 <= d < docs.len() && (#[trigger] docs[d]).contains(t);
        assert(e[d] == docs[d]);
    }
    if extra.contains(t) {
        assert(e[docs.len() as int] == extra);
    }
    if in_corpus(e, t) {
        let d = choose|d: int| 0 <= d < e.len() && (#[trigger] e[d]).contains(t);
        if d < docs.len() {
            assert(e[d] == docs[d]);
        }
    }
}

/// The vocabulary of a corpus: every term that the tokenizer finds in some
/// document, in sorted order, each with the number of documents that
/// contain it.
pub fn build_vocabulary(docs: &[String]) -> (v: Vocabulary)
    ensures
        v.describes(corpus_tokens(docs@)),
{
    let ghost ct = corpus_tokens(docs@);
    let mut terms: Vec<String> = Vec::new();
    let mut dfs: Vec<usize> = Vec::new();
    let ndocs = docs.len();
    let mut d: usize = 0;
    while d < ndocs
        invariant
            d <= docs@.len(),
            ndocs == docs@.len(),
            ct == corpus_tokens(docs@),
            strictly_sorted(strings_view(terms@)),
            dfs@.len() == terms@.len(),
            forall|t: Seq<char>| #[trigger] strings_view(terms@).contains(t) <==> in_corpus(ct.take(d as int), t),
            forall|i: int|
                0 <= i < terms@.len() ==> #[trigger] dfs@[i] == docs_containing(
                    ct.take(d as int),
                    strings_view(terms@)[i],
                ),
        decreases docs@.len() - d,
    {
        let toks = tokenize(docs[d].as_str());
        let uniq = distinct_tokens(&toks);
        let ghost prev = ct.take(d as int);
        let ghost cur = ct[d as int];
        assert(cur == doc_tokens(docs@[d as int]@));
        assert(strings_view(toks@) == cur);
        let ghost uv = strings_view(uniq@);
        let mut k: usize = 0;
        while k < uniq.len()
            invariant
                k <= uniq@.len(),
                uv == strings_view(uniq@),
                distinct(uv),
                d < docs@.len(),
                ndocs == docs@.len(),
                strictly_sorted(strings_view(terms@)),
                dfs@.len() == terms@.len(),
                forall|t: Seq<char>| #[trigger] strings_view(terms@).contains(t) <==> (in_corpus(prev, t) || uv.take(k as int).contains(t)),
                forall|i: int|
                    0 <= i < terms@.len() ==> #[trigger] dfs@[i] == docs_containing(prev, strings_view(terms@)[i])
                        + if uv.take(k as int).contains(strings_view(terms@)[i]) {
                        1nat
                    } else {
                        0nat
                    },
                prev.len() == d,
            decreases uniq@.len() - k,
        {
            let ghost tv = strings_view(terms@);
            let ghost u = uv[k as int];
            let ghost uk = uv.take(k as int);
            let ghost uk1 = uv.take(k as int + 1);
            assert(uk1 =~= uk.push(u));
            assert(!uk.contains(u)) by {
                if uk.contains(u) {
                    let q = choose|q: int| 0 <= q < uk.len() && uk[q] == u;
                    assert(uv[q] == uv[k as int]);
                }
            }
            assert(uniq@[k as int]@ == u);
            let (p, found) = position_in(&terms, &uniq[k]);
            if found {
                assert(tv[p as int] == u);
                proof {
                    lemma_docs_containing_bound(prev, u);
                }
                let old_df = dfs[p];
                assert(old_df == docs_containing(prev, u));
                let ghost olddf = dfs@;
                dfs.set(p, old_df + 1);
                assert forall|i: int| 0 <= i < terms@.len() implies #[trigger] dfs@[i] == docs_containing(prev, strings_view(terms@)[i])
                    + if uk1.contains(strings_view(terms@)[i]) {
                    1nat
                } else {
                    0nat
                } by {
                    lemma_push_contains(uk, u, tv[i]);
                    if i == p {
                        assert(uk1.contains(u));
                    } else {
                        assert(dfs@[i] == olddf[i]);
                        assert(tv[i] != u) by {
                            if i < p {
                                assert(seq_less(tv[i], tv[p as int]));
                            } else {
                                assert(seq_less(tv[p as int], tv[i]));
                            }
                            lemma_less_irreflexive(u);
                        }
                        assert(uk1.contains(tv[i]) == uk.contains(tv[i]));
                    }
                }
                assert forall|t: Seq<char>| #[trigger] strings_view(terms@).contains(t) <==> (in_corpus(prev, t) || uk1.contains(t)) by {
                    if t == u {
                        assert(tv[p as int] == t);
                    }
                    lemma_push_contains(uk, u, t);
                }
            } else {
                proof {
                    lemma_docs_containing_bound(prev, u);
                    lemma_less_irreflexive(u);
                    assert(!tv.contains(u)) by {
                        if tv.contains(u) {
                            let q = choose|q: int| 0 <= q < tv.len() && tv[q] == u;
                            assert(terms@[q]@ == u);
                        }
                    }
                    assert(!in_corpus(prev, u));
                }
                let nt = uniq[k].clone();
                terms.insert(p, nt);
                dfs.insert(p, 1);
                let ghost nv = strings_view(terms@);
                assert(nv =~= tv.insert(p as int, u));
                assert forall|i: int, j: int| 0 <= i < j < nv.len() implies seq_less(#[trigger] nv[i], #[trigger] nv[j]) by {
                    if j < p {
                        assert(nv[i] == tv[i] && nv[j] == tv[j]);
                    } else if j == p {
                        assert(nv[i] == terms@[i]@);
                    } else if i < p {
                        assert(nv[i] == tv[i] && nv[j] == tv[j - 1]);
                        assert(seq_less(tv[i], u));
                        assert(seq_less(u, tv[j - 1]));
                        lemma_less_transitive(tv[i], u, tv[j - 1]);
                    } else if i == p {
                        assert(nv[j] == tv[j - 1]);
                    } else {
                        assert(nv[i] == tv[i - 1] && nv[j] == tv[j - 1]);
                    }
                }
                assert forall|t: Seq<char>| #[trigger] nv.contains(t) <==> (in_corpus(prev, t) || uk1.contains(t)) by {
                    lemma_push_contains(uk, u, t);
                    if nv.contains(t) {
                        let q = choose|q: int| 0 <= q < nv.len() && nv[q] == t;
                        if q < p {
                            assert(tv[q] == t);
                        } else if q > p {
                            assert(tv[q - 1] == t);
                        }
                    }
                    if tv.contains(t) {
                        let q = choose|q: int| 0 <= q < tv.len() && tv[q] == t;
                        if q < p {
                            assert(nv[q] == t);
                        } else {
                            assert(nv[q + 1] == t);
                        }
                    }
                    if t == u {
                        assert(nv[p as int] == t);
                    }
                }
                assert forall|i: int| 0 <= i < terms@.len() implies #[trigger] dfs@[i] == docs_containing(prev, nv[i])
                    + if uk1.contains(nv[i]) {
                    1nat
                } else {
                    0nat
                } by {
                    lemma_push_contains(uk, u, nv[i]);
                    if i == p {
                        assert(nv[i] == u);
                    } else {
                        let oi = if i < p { i } else { i - 1 };
                        assert(nv[i] == tv[oi]);
                        assert(tv[oi] != u) by {
                            if tv[oi] == u {
                                assert(tv.contains(u));
                            }
                        }
                        assert(uk1.contains(tv[oi]) == uk.contains(tv[oi]));
                    }
                }
            }
            k += 1;
        }
        proof {
            let next = ct.take(d as int + 1);
            assert(next =~= prev.push(cur));
            assert(uv.take(uniq@.len() as int) =~= uv);
            assert forall|t: Seq<char>| #[trigger] strings_view(terms@).contains(t) <==> in_corpus(next, t) by {
                lemma_in_corpus_push(prev, cur, t);
            }
            assert forall|i: int| 0 <= i < terms@.len() implies #[trigger] dfs@[i] == docs_containing(
                next,
                strings_view(terms@)[i],
            ) by {
                assert(next.drop_last() =~= prev);
                assert(uv.contains(strings_view(terms@)[i]) == cur.contains(strings_view(terms@)[i]));
            }
        }
        d += 1;
    }
    assert(ct.take(docs@.len() as int) =~= ct);
    Vocabulary { terms, doc_freqs: dfs }
}

proof fn lemma_occurrences_bound(toks: Seq<Seq<char>>, t: Seq<char>)
    ensures
        occurrences(toks, t) <= toks.len(),
    decreases toks.len(),
{
    if toks.len() > 0 {
        lemma_occurrences_bound(toks.drop_last(), t);
    }
}

/// How many times each vocabulary term occurs among the tokens of `text`.
pub fn term_counts(vocab: &Vocabulary, text: &str) -> (r: Vec<usize>)
    requires
        vocab.wf(),
    ensures
        r@.len() == vocab.terms@.len(),
        forall|i: int|
            0 <= i < r@.len() ==> #[trigger] r@[i] == occurrences(doc_tokens(text@), vocab.term_seqs()[i]),
{
    let toks = tokenize(text);
    let ghost tv = strings_view(toks@);
    let ghost vv = vocab.term_seqs();
    let mut counts: Vec<usize> = Vec::new();
    let mut i: usize = 0;
    while i < vocab.terms.len()
        invariant
            i <= vocab.terms@.len(),
            counts@.len() == i,
            forall|j: int| 0 <= j < i ==> #[trigger] counts@[j] == 0,
        decreases vocab.terms@.len() - i,
    {
        counts.push(0);
        i += 1;
    }
    let mut k: usize = 0;
    while k < toks.len()
        invariant
            k <= toks@.len(),
            tv == strings_view(toks@),
            vv == vocab.term_seqs(),
            vocab.wf(),
            counts@.len() == vocab.terms@.len(),
            forall|j: int| 0 <= j < counts@.len() ==> #[trigger] counts@[j] == occurrences(tv.take(k as int), vv[j]),
        decreases toks@.len() - k,
    {
        let ghost t = tv.take(k as int + 1);
        assert(t.drop_last() =~= tv.take(k as int));
        assert(t.last() == toks@[k as int]@);
        let (p, found) = position_in(&vocab.terms, &toks[k]);
        if found {
            proof {
                lemma_occurrences_bound(tv.take(k as int), vv[p as int]);
            }
            let c = counts[p];
            counts.set(p, c + 1);
            assert forall|j: int| 0 <= j < counts@.len() implies #[trigger] counts@[j] == occurrences(t, vv[j]) by {
                if j != p {
                    assert(vv[j] != vv[p as int]) by {
                        if j < p {
                            assert(seq_less(vv[j], vv[p as int]));
                        } else {
                            assert(seq_less(vv[p as int], vv[j]));
                        }
                        lemma_less_irreflexive(vv[p as int]);
                    }
                }
            }
        } else {
            assert forall|j: int| 0 <= j < counts@.len() implies #[trigger] counts@[j] == occurrences(t, vv[j]) by {
                if vv[j] == t.last() {
                    if j < p {
                        assert(seq_less(vocab.terms@[j]@, toks@[k as int]@));
                    } else {
                        assert(seq_less(toks@[k as int]@, vocab.terms@[j]@));
                    }
                    lemma_less_irreflexive(vv[j]);
                }
            }
        }
        k += 1;
    }
    assert(tv.take(toks@.len() as int) =~= tv);
    assert(tv == doc_tokens(text@));
    counts
}

/// Counting occurrences adds up over a concatenation, and one token
/// counts once when it is the term.
pub proof fn lemma_occurrences_concat(a: Seq<Seq<char>>, b: Seq<Seq<char>>, t: Seq<char>)
    ensures
        occurrences(a + b, t) == occurrences(a, t) + occurrences(b, t),
        occurrences(seq![t], t) == 1,
        forall|x: Seq<char>| x != t ==> occurrences(#[trigger] seq![x], t) == 0,
    decreases b.len(),
{
    if b.len() == 0 {
        assert(a + b =~= a);
    } else {
        lemma_occurrences_concat(a, b.drop_last(), t);
        assert((a + b).drop_last() =~= a + b.drop_last());
        assert((a + b).last() == b.last());
    }
    assert(occurrences(Seq::<Seq<char>>::empty(), t) == 0);
    assert(seq![t].drop_last() =~= Seq::<Seq<char>>::empty());
    assert forall|x: Seq<char>| x != t implies occurrences(#[trigger] seq![x], t) == 0 by {
        assert(seq![x].drop_last() =~= Seq::<Seq<char>>::empty());
        assert(seq![x].last() == x);
    }
}

/// Document frequencies add up over a concatenation of corpora, and one
/// document counts once exactly when it contains the term.
pub proof fn lemma_docs_containing_concat(a: Seq<Seq<Seq<char>>>, b: Seq<Seq<Seq<char>>>, t: Seq<char>)
    ensures
        docs_containing(a + b, t) == docs_containing(a, t) + docs_containing(b, t),
        forall|d: Seq<Seq<char>>| #[trigger] docs_containing(seq![d], t) == (if d.contains(t) {
            1int
        } else {
            0int
        }),
    decreases b.len(),
{
    if b.len() == 0 {
        assert(a + b =~= a);
    } else {
        lemma_docs_containing_concat(a, b.drop_last(), t);
        assert((a + b).drop_last() =~= a + b.drop_last());
        assert((a + b).last() == b.last());
    }
    assert forall|d: Seq<Seq<char>>| #[trigger] docs_containing(seq![d], t) == (if d.contains(t) {
        1int
    } else {
        0int
    }) by {
        assert(docs_containing(Seq::<Seq<Seq<char>>>::empty(), t) == 0);
        assert(seq![d].drop_last() =~= Seq::<Seq<Seq<char>>>::empty());
        assert(seq![d].last() == d);
    }
}

/// Terms are ordered lexicographically by code point: at the first
/// position where two terms differ, the smaller character sorts first.
pub proof fn lemma_seq_less_first_difference(a: Seq<char>, b: Seq<char>, k: int)
    requires
        0 <= k < a.len(),
        k < b.len(),
        a[k] != b[k],
        forall|j: int| 0 <= j < k ==> a[j] == b[j],
    ensures
        seq_less(a, b) <==> (a[k] as int) < (b[k] as int),
    decreases k,
{
    if k > 0 {
        assert(a[0] == b[0]);
        lemma_seq_less_first_difference(a.drop_first(), b.drop_first(), k - 1);
    }
}

/// A proper prefix sorts before the longer term, and a term does not sort
/// before itself.
pub proof fn lemma_seq_less_prefix(a: Seq<char>, b: Seq<char>)
    requires
        a.len() <= b.len(),
        forall|j: int| 0 <= j < a.len() ==> a[j] == b[j],
    ensures
        seq_less(a, b) <==> a.len() < b.len(),
        !seq_less(b, a),
    decreases a.len(),
{
    if a.len() > 0 {
        assert(a[0] == b[0]);
        lemma_seq_less_prefix(a.drop_first(), b.drop_first());
    }
}

} // verus!
