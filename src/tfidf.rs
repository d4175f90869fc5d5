//! Sparse term weighting: for each document, one entry per distinct
//! vocabulary term that it holds.

use vstd::prelude::*;
use crate::tokens::{tokenize, views_of, words_of};
use crate::table::{set_words, WordSet};
use crate::vocab::{
    decoded, encodes, lookup, shares_index, ParamsError, text_docs, token_docs, trained, VocabView, Vocabulary, VocabularyParams,
};

verus! {

/// The weight of one term in one document, in exact form. Each of the
/// `count` occurrences adds `1`, or, with `use_idf`, the smoothed inverse
/// document frequency `ln(1 + total_docs) - ln(1 + df) + 1`.
#[derive(Clone, Copy, Debug, PartialEq, Eq, Structural)]
pub struct TermWeight {
    pub count: usize,
    pub df: usize,
    pub total_docs: usize,
    pub use_idf: bool,
}

/// The `(index, df)` entries of the recognized tokens of a document, in order.
pub open spec fn hits(v: VocabView, toks: Seq<Seq<char>>) -> Seq<(usize, usize)>
    decreases toks.len(),
{
    if toks.len() == 0 {
        Seq::empty()
    } else {
        let h = hits(v, toks.drop_last());
        match lookup(v, toks.last()) {
            Some(e) => h.push(e),
            None => h,
        }
    }
}

/// How many entries of `h` carry the index `c`.
pub open spec fn occurrences(h: Seq<(usize, usize)>, c: usize) -> nat
    decreases h.len(),
{
    if h.len() == 0 {
        0
    } else {
        occurrences(h.drop_last(), c) + if h.last().0 == c {
            1nat
        } else {
            0nat
        }
    }
}

/// `terms` lists each distinct index of `h` once, as `(index, df, count)`:
/// `count` entries of `h` carry the index, and `(index, df)` is one of them.
pub open spec fn tallies(h: Seq<(usize, usize)>, terms: Seq<(usize, usize, usize)>) -> bool {
    &&& forall|i: int, j: int| 0 <= i < j < terms.len() ==> terms[i].0 != terms[j].0
    &&& forall|i: int|
        0 <= i < terms.len() ==> {
            &&& #[trigger] terms[i].2 == occurrences(h, terms[i].0)
            &&& terms[i].2 > 0
            &&& h.contains((terms[i].0, terms[i].1))
        }
    &&& forall|c: usize|
        #[trigger] occurrences(h, c) > 0 ==> exists|i: int| 0 <= i < terms.len() && terms[i].0 == c
}

proof fn lemma_occurrences_push(h: Seq<(usize, usize)>, x: (usize, usize))
    ensures
        forall|c: usize| #[trigger] occurrences(h.push(x), c) == occurrences(h, c) + if x.0 == c {
            1nat
        } else {
            0nat
        },
        forall|y: (usize, usize)| h.contains(y) ==> #[trigger] h.push(x).contains(y),
        h.push(x).contains(x),
{
    assert(h.push(x).drop_last() =~= h);
    assert(h.push(x)[h.len() as int] == x);
    assert forall|y: (usize, usize)| h.contains(y) implies #[trigger] h.push(x).contains(y) by {
        let i = choose|i: int| 0 <= i < h.len() && h[i] == y;
        assert(h.push(x)[i] == y);
    }
}

proof fn lemma_occurrences_bound(h: Seq<(usize, usize)>, c: usize)
    ensures
        occurrences(h, c) <= h.len(),
    decreases h.len(),
{
    if h.len() > 0 {
        lemma_occurrences_bound(h.drop_last(), c);
    }
}

proof fn lemma_hits_len(v: VocabView, toks: Seq<Seq<char>>)
    ensures
        hits(v, toks).len() <= toks.len(),
    decreases toks.len(),
{
    if toks.len() > 0 {
        lemma_hits_len(v, toks.drop_last());
    }
}

fn find_term(terms: &Vec<(usize, usize, usize)>, c: usize) -> (r: Option<usize>)
    ensures
        match r {
            Some(p) => p < terms@.len() && terms@[p as int].0 == c,
            None => forall|i: int| 0 <= i < terms@.len() ==> terms@[i].0 != c,
        },
{
    let mut p: usize = 0;
    while p < terms.len()
        invariant
            p <= terms@.len(),
            forall|i: int| 0 <= i < p ==> terms@[i].0 != c,
        decreases terms@.len() - p,
    {
        if terms[p].0 == c {
            return Some(p);
        }
        p += 1;
    }
    None
}

/// Tallies the recognized tokens of one document: one `(index, df, count)`
/// per distinct index, in order of first occurrence.
pub fn count_terms(vocab: &Vocabulary, toks: &Vec<String>) -> (r: Vec<(usize, usize, usize)>)
    ensures
        tallies(hits(vocab@, views_of(toks@)), r@),
{
    let ghost v = vocab@;
    let ghost doc = views_of(toks@);
    let mut terms: Vec<(usize, usize, usize)> = Vec::new();
    let mut j: usize = 0;
    proof {
        assert(doc.take(0) =~= Seq::empty());
    }
    while j < toks.len()
        invariant
            j <= toks@.len(),
            v == vocab@,
            doc == views_of(toks@),
            tallies(hits(v, doc.take(j as int)), terms@),
        decreases toks@.len() - j,
    {
        let ghost h = hits(v, doc.take(j as int));
        proof {
            assert(doc.take(j + 1).drop_last() =~= doc.take(j as int));
            assert(doc.take(j + 1).last() == toks@[j as int]@);
        }
        match vocab.get(toks[j].as_str()) {
            Some(e) => {
                let ghost t0 = terms@;
                proof {
                    lemma_occurrences_push(h, e);
                }
                match find_term(&terms, e.0) {
                    Some(p) => {
                        proof {
                            lemma_occurrences_bound(h, e.0);
                            lemma_hits_len(v, doc.take(j as int));
                        }
                        let df = terms[p].1;
                        let c = terms[p].2;
                        terms.set(p, (e.0, df, c + 1));
                        proof {
                            assert forall|i: int| 0 <= i < terms@.len() implies {
                                &&& #[trigger] terms@[i].2 == occurrences(h.push(e), terms@[i].0)
                                &&& terms@[i].2 > 0
                                &&& h.push(e).contains((terms@[i].0, terms@[i].1))
                            } by {
                                if i != p {
                                    assert(t0[i] == terms@[i]);
                                }
                                assert(t0[i].2 == occurrences(h, t0[i].0));
                                assert(h.contains((t0[i].0, t0[i].1)));
                            }
                            assert forall|x: usize| #[trigger] occurrences(h.push(e), x) > 0 implies exists|i: int|
                                0 <= i < terms@.len() && terms@[i].0 == x by {
                                if x != e.0 {
                                    let i = choose|i: int| 0 <= i < t0.len() && t0[i].0 == x;
                                    assert(terms@[i] == t0[i]);
                                } else {
                                    assert(terms@[p as int].0 == x);
                                }
                            }
                        }
                    },
                    None => {
                        terms.push((e.0, e.1, 1));
                        proof {
                            assert(occurrences(h, e.0) == 0);
                            assert forall|i: int| 0 <= i < terms@.len() implies {
                                &&& #[trigger] terms@[i].2 == occurrences(h.push(e), terms@[i].0)
                                &&& terms@[i].2 > 0
                                &&& h.push(e).contains((terms@[i].0, terms@[i].1))
                            } by {
                                if i < t0.len() {
                                    assert(t0[i] == terms@[i]);
                                    assert(t0[i].2 == occurrences(h, t0[i].0));
                                    assert(h.contains((t0[i].0, t0[i].1)));
                                }
                            }
                            assert forall|x: usize| #[trigger] occurrences(h.push(e), x) > 0 implies exists|i: int|
                                0 <= i < terms@.len() && terms@[i].0 == x by {
                                if x != e.0 {
                                    let i = choose|i: int| 0 <= i < t0.len() && t0[i].0 == x;
                                    assert(terms@[i] == t0[i]);
                                } else {
                                    assert(terms@[t0.len() as int] == (e.0, e.1, 1usize));
                                }
                            }
                        }
                    },
                }
            },
            None => {},
        }
        j += 1;
    }
    proof {
        assert(doc.take(toks@.len() as int) =~= doc);
    }
    terms
}

/// `w` is the weight of the column `col` in a document with the given tokens:
/// `count` recognized tokens carry the index `col`, and `df` is the document
/// frequency of one of them (of all of them, where no two tokens of the
/// vocabulary share an index).
pub open spec fn weighs(v: VocabView, doc: Seq<Seq<char>>, use_idf: bool, col: usize, w: TermWeight) -> bool {
    &&& w.count == occurrences(hits(v, doc), col)
    &&& w.count > 0
    &&& hits(v, doc).contains((col, w.df))
    &&& w.total_docs == v.total_docs
    &&& w.use_idf == use_idf
}

/// `(rows, cols, weights)` is the sparse form of the corpus `ds` over `v`: one
/// entry per document and distinct index of its recognized tokens, weighted
/// by how many of them carry that index.
pub open spec fn sparse_terms(
    v: VocabView,
    ds: Seq<Seq<Seq<char>>>,
    use_idf: bool,
    rows: Seq<usize>,
    cols: Seq<usize>,
    ws: Seq<TermWeight>,
) -> bool {
    &&& rows.len() == cols.len()
    &&& cols.len() == ws.len()
    &&& forall|k: int|
        0 <= k < rows.len() ==> {
            &&& #[trigger] rows[k] < ds.len()
            &&& weighs(v, ds[rows[k] as int], use_idf, cols[k], ws[k])
        }
    &&& forall|k1: int, k2: int|
        0 <= k1 < k2 < rows.len() ==> (rows[k1], cols[k1]) != (rows[k2], cols[k2])
    &&& forall|i: int, c: usize|
        0 <= i < ds.len() && #[trigger] occurrences(hits(v, ds[i]), c) > 0 ==> exists|k: int|
            0 <= k < rows.len() && rows[k] == i && cols[k] == c
}

/// The sparse form of a corpus given as token sequences.
pub fn vectorize_tokens(docs: &Vec<Vec<String>>, vocab: &Vocabulary, use_idf: bool) -> (r: (
    Vec<usize>,
    Vec<usize>,
    Vec<TermWeight>,
))
    ensures
        sparse_terms(vocab@, token_docs(docs@), use_idf, r.0@, r.1@, r.2@),
{
    let ghost v = vocab@;
    let ghost ds = token_docs(docs@);
    let total_docs = vocab.total_docs();
    let mut rows: Vec<usize> = Vec::new();
    let mut cols: Vec<usize> = Vec::new();
    let mut ws: Vec<TermWeight> = Vec::new();
    let mut i: usize = 0;
    while i < docs.len()
        invariant
            i <= docs@.len(),
            v == vocab@,
            ds == token_docs(docs@),
            total_docs == v.total_docs,
            rows@.len() == cols@.len(),
            cols@.len() == ws@.len(),
            forall|k: int|
                0 <= k < rows@.len() ==> {
                    &&& #[trigger] rows@[k] < i
                    &&& weighs(v, ds[rows@[k] as int], use_idf, cols@[k], ws@[k])
                },
            forall|k1: int, k2: int|
                0 <= k1 < k2 < rows@.len() ==> (rows@[k1], cols@[k1]) != (rows@[k2], cols@[k2]),
            forall|d: int, c: usize|
                0 <= d < i && #[trigger] occurrences(hits(v, ds[d]), c) > 0 ==> exists|k: int|
                    0 <= k < rows@.len() && rows@[k] == d && cols@[k] == c,
        decreases docs@.len() - i,
    {
        let terms = count_terms(vocab, &docs[i]);
        let ghost h = hits(v, ds[i as int]);
        assert(views_of(docs@[i as int]@) == ds[i as int]);
        let base: usize = rows.len();
        let mut q: usize = 0;
        while q < terms.len()
            invariant
                i < docs@.len(),
                q <= terms@.len(),
                v == vocab@,
                ds == token_docs(docs@),
                h == hits(v, ds[i as int]),
                tallies(h, terms@),
                total_docs == v.total_docs,
                base <= rows@.len(),
                rows@.len() == base + q,
                rows@.len() == cols@.len(),
                cols@.len() == ws@.len(),
                forall|k: int| 0 <= k < base ==> #[trigger] rows@[k] < i,
                forall|k: int|
                    base <= k < rows@.len() ==> #[trigger] rows@[k] == i && cols@[k] == terms@[k - base].0
                        && ws@[k].df == terms@[k - base].1,
                forall|k: int|
                    0 <= k < rows@.len() ==> {
                        &&& #[trigger] rows@[k] <= i
                        &&& weighs(v, ds[rows@[k] as int], use_idf, cols@[k], ws@[k])
                    },
                forall|k1: int, k2: int|
                    0 <= k1 < k2 < rows@.len() ==> (rows@[k1], cols@[k1]) != (rows@[k2], cols@[k2]),
                forall|d: int, c: usize|
                    0 <= d < i && #[trigger] occurrences(hits(v, ds[d]), c) > 0 ==> exists|k: int|
                        0 <= k < rows@.len() && rows@[k] == d && cols@[k] == c,
            decreases terms@.len() - q,
        {
            let t = terms[q];
            assert(t.2 == occurrences(h, t.0) && h.contains((t.0, t.1)));
            let ghost r0 = rows@;
            let ghost c0 = cols@;
            let ghost w0 = ws@;
            rows.push(i);
            cols.push(t.0);
            ws.push(TermWeight { count: t.2, df: t.1, total_docs, use_idf });
            proof {
                let n = rows@.len() - 1;
                assert forall|k: int| base <= k < rows@.len() implies #[trigger] rows@[k] == i
                    && cols@[k] == terms@[k - base].0 && ws@[k].df == terms@[k - base].1 by {
                    if k < n {
                        assert(rows@[k] == r0[k] && cols@[k] == c0[k] && ws@[k] == w0[k]);
                    }
                }
                assert forall|k1: int, k2: int|
                    0 <= k1 < k2 < rows@.len() implies (rows@[k1], cols@[k1]) != (rows@[k2], cols@[k2]) by {
                    if k2 == n && k1 >= base {
                        assert(k1 - base < q);
                    }
                }
                assert forall|d: int, c: usize|
                    0 <= d < i && #[trigger] occurrences(hits(v, ds[d]), c) > 0 implies exists|k: int|
                        0 <= k < rows@.len() && rows@[k] == d && cols@[k] == c by {
                    let k = choose|k: int| 0 <= k < r0.len() && r0[k] == d && c0[k] == c;
                    assert(rows@[k] == r0[k] && cols@[k] == c0[k] && ws@[k] == w0[k]);
                }
            }
            q += 1;
        }
        proof {
            assert forall|d: int, c: usize|
                0 <= d < i + 1 && #[trigger] occurrences(hits(v, ds[d]), c) > 0 implies exists|k: int|
                    0 <= k < rows@.len() && rows@[k] == d && cols@[k] == c by {
                if d == i {
                    let p = choose|p: int| 0 <= p < terms@.len() && terms@[p].0 == c;
                    assert(rows@[base + p] == d);
                }
            }
        }
        i += 1;
    }
    (rows, cols, ws)
}

/// The sparse form of a corpus of raw texts, each split into words.
pub fn vectorize(texts: &Vec<String>, vocab: &Vocabulary, use_idf: bool) -> (r: (
    Vec<usize>,
    Vec<usize>,
    Vec<TermWeight>,
))
    ensures
        sparse_terms(vocab@, text_docs(texts@), use_idf, r.0@, r.1@, r.2@),
{
    let mut toks: Vec<Vec<String>> = Vec::new();
    let mut i: usize = 0;
    while i < texts.len()
        invariant
            i <= texts@.len(),
            toks@.len() == i,
            forall|j: int| 0 <= j < i ==> views_of(#[trigger] toks@[j]@) == words_of(texts@[j]@),
        decreases texts@.len() - i,
    {
        toks.push(tokenize(texts[i].as_str()));
        i += 1;
    }
    proof {
        assert(token_docs(toks@) =~= text_docs(texts@));
    }
    vectorize_tokens(&toks, vocab, use_idf)
}

/// A document none of whose tokens the vocabulary recognizes has no entry in
/// the sparse form.
pub proof fn lemma_unknown_document_empty(
    v: VocabView,
    ds: Seq<Seq<Seq<char>>>,
    use_idf: bool,
    rows: Seq<usize>,
    cols: Seq<usize>,
    ws: Seq<TermWeight>,
    i: int,
)
    requires
        sparse_terms(v, ds, use_idf, rows, cols, ws),
        0 <= i < ds.len(),
        forall|j: int| 0 <= j < ds[i].len() ==> lookup(v, #[trigger] ds[i][j]) is None,
    ensures
        forall|k: int| 0 <= k < rows.len() ==> rows[k] != i,
{
    lemma_hits_unknown(v, ds[i]);
    assert forall|k: int| 0 <= k < rows.len() implies rows[k] != i by {
        if rows[k] == i {
            assert(occurrences(Seq::<(usize, usize)>::empty(), cols[k]) == 0);
        }
    }
}

proof fn lemma_hits_unknown(v: VocabView, toks: Seq<Seq<char>>)
    requires
        forall|j: int| 0 <= j < toks.len() ==> lookup(v, #[trigger] toks[j]) is None,
    ensures
        hits(v, toks) == Seq::<(usize, usize)>::empty(),
    decreases toks.len(),
{
    if toks.len() > 0 {
        let init = toks.drop_last();
        assert forall|j: int| 0 <= j < init.len() implies lookup(v, #[trigger] init[j]) is None by {
            assert(init[j] == toks[j]);
        }
        lemma_hits_unknown(v, init);
        assert(lookup(v, toks[toks.len() - 1]) is None);
    }
}

/// The flat form of a TF-IDF vectorizer: `use_idf` and its vocabulary's.
pub type TfidfVectorizerParams = (bool, VocabularyParams);

/// Sparse TF-IDF vectorization over a vocabulary without reserved markers.
pub struct TfidfVectorizer {
    use_idf: bool,
    vocabulary: Vocabulary,
}

impl TfidfVectorizer {
    /// Whether weights are scaled by inverse document frequency.
    pub closed spec fn uses_idf(&self) -> bool {
        self.use_idf
    }

    /// The state of the underlying vocabulary.
    pub closed spec fn vocab(&self) -> VocabView {
        self.vocabulary@
    }

    /// An untrained vectorizer with the given bounds and no stop words.
    pub fn new(min_df: usize, max_df: usize, use_idf: bool) -> (r: Self)
        ensures
            r.uses_idf() == use_idf,
            r.vocab() == (VocabView {
                min_df,
                max_df,
                use_specials: false,
                stop_words: Set::empty(),
                total_docs: 0,
                tokens: Map::empty(),
            }),
    {
        let stop_words = WordSet::new();
        proof {
            assert(set_words(stop_words) =~= Set::empty());
        }
        TfidfVectorizer { use_idf, vocabulary: Vocabulary::new(min_df, max_df, false, stop_words) }
    }

    /// The number of columns of the sparse form: the vocabulary's size.
    pub fn get_output_dim(&self) -> (r: usize)
        ensures
            r == self.vocab().tokens.dom().len(),
    {
        self.vocabulary.len()
    }

    /// Trains the vocabulary on raw texts.
    pub fn train(&mut self, docs: &Vec<String>)
        ensures
            final(self).uses_idf() == old(self).uses_idf(),
            trained(old(self).vocab(), final(self).vocab(), text_docs(docs@)),
    {
        self.vocabulary.train(docs);
    }

    /// The sparse form of raw texts over the trained vocabulary.
    pub fn vectorize(&self, docs: &Vec<String>) -> (r: (Vec<usize>, Vec<usize>, Vec<TermWeight>))
        ensures
            sparse_terms(self.vocab(), text_docs(docs@), self.uses_idf(), r.0@, r.1@, r.2@),
    {
        vectorize(docs, &self.vocabulary, self.use_idf)
    }

    /// The flat form of the vectorizer.
    pub fn to_params(&self) -> (r: TfidfVectorizerParams)
        ensures
            r.0 == self.uses_idf(),
            encodes(self.vocab(), r.1),
    {
        (self.use_idf, self.vocabulary.to_params())
    }

    /// Rebuilds a vectorizer from its flat form. Refused where the vocabulary
    /// uses the reserved markers, or where two entries share an index.
    pub fn from_params(params: TfidfVectorizerParams) -> (r: Result<Self, ParamsError>)
        ensures
            match r {
                Ok(t) => !params.1.2 && !shares_index(params.1.5@) && t.uses_idf() == params.0
                    && t.vocab() == decoded(params.1),
                Err(e) => if params.1.2 {
                    e == ParamsError::WrongVariant
                } else {
                    shares_index(params.1.5@) && e == ParamsError::SharedIndex
                },
            },
    {
        let (use_idf, vocab_params) = params;
        if vocab_params.2 {
            return Err(ParamsError::WrongVariant);
        }
        match Vocabulary::from_params(vocab_params) {
            Ok(vocabulary) => Ok(TfidfVectorizer { use_idf, vocabulary }),
            Err(e) => Err(e),
        }
    }
}

} // verus!
