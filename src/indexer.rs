//! Dense index sequences: each document framed by the begin and end markers,
//! unknown tokens as the unknown marker, right-padded to the widest document
//! of the batch, with a mask of the real positions.

use vstd::prelude::*;
use crate::table::{set_words, WordSet};
use crate::tokens::{tokenize, views_of, words_of};
use crate::vocab::{
    admitted, bos_mark, decoded, encodes, is_reserved, shares_index, ParamsError, eos_mark, has_markers, lookup, pad_mark, text_docs, token_docs,
    trained, unk_mark, VocabView, Vocabulary, VocabularyParams,
};

verus! {

/// Why a batch cannot be indexed.
#[derive(Clone, Copy, Debug, PartialEq, Eq, Structural)]
pub enum IndexerError {
    /// The reserved markers are not in the vocabulary: it was never trained.
    SpecialsUnavailable,
}

/// The index of a token, or `unk` where the vocabulary does not recognize it.
pub open spec fn index_or(v: VocabView, t: Seq<char>, unk: usize) -> usize {
    match lookup(v, t) {
        Some(e) => e.0,
        None => unk,
    }
}

/// The index of a stored marker.
pub open spec fn mark_of(v: VocabView, mark: Seq<char>) -> usize {
    v.tokens[mark].0
}

/// A document as indices: the begin marker, its tokens, the end marker.
pub open spec fn framed(v: VocabView, doc: Seq<Seq<char>>) -> Seq<usize> {
    seq![mark_of(v, bos_mark())] + doc.map_values(|t: Seq<char>| index_or(v, t, mark_of(v, unk_mark())))
        + seq![mark_of(v, eos_mark())]
}

/// The length of the longest framed document of the batch.
pub open spec fn widest(ds: Seq<Seq<Seq<char>>>) -> nat
    decreases ds.len(),
{
    if ds.len() == 0 {
        0
    } else {
        let w = widest(ds.drop_last());
        if ds.last().len() + 2 > w {
            ds.last().len() + 2
        } else {
            w
        }
    }
}

/// A document framed and padded to `width`.
pub open spec fn padded_row(v: VocabView, doc: Seq<Seq<char>>, width: nat) -> Seq<usize> {
    framed(v, doc) + Seq::new((width - framed(v, doc).len()) as nat, |k: int| mark_of(v, pad_mark()))
}

/// The mask of a document padded to `width`: true on its own positions.
pub open spec fn mask_row(doc: Seq<Seq<char>>, width: nat) -> Seq<bool> {
    Seq::new(doc.len() + 2, |k: int| true) + Seq::new((width - (doc.len() + 2)) as nat, |k: int| false)
}

/// `(indices, mask)` is the dense form of the batch `ds` over `v`.
pub open spec fn dense_rows(v: VocabView, ds: Seq<Seq<Seq<char>>>, indices: Seq<Vec<usize>>, mask: Seq<Vec<bool>>) -> bool {
    &&& indices.len() == ds.len()
    &&& mask.len() == ds.len()
    &&& forall|i: int| 0 <= i < ds.len() ==> #[trigger] indices[i]@ == padded_row(v, ds[i], widest(ds))
    &&& forall|i: int| 0 <= i < ds.len() ==> #[trigger] mask[i]@ == mask_row(ds[i], widest(ds))
}

pub proof fn lemma_widest(ds: Seq<Seq<Seq<char>>>)
    ensures
        forall|i: int| 0 <= i < ds.len() ==> #[trigger] ds[i].len() + 2 <= widest(ds),
        ds.len() > 0 ==> exists|i: int| 0 <= i < ds.len() && ds[i].len() + 2 == widest(ds),
    decreases ds.len(),
{
    if ds.len() > 0 {
        let init = ds.drop_last();
        lemma_widest(init);
        assert forall|i: int| 0 <= i < ds.len() implies #[trigger] ds[i].len() + 2 <= widest(ds) by {
            if i < init.len() {
                assert(init[i] == ds[i]);
            }
        }
        if init.len() > 0 && widest(ds) == widest(init) {
            let i = choose|i: int| 0 <= i < init.len() && init[i].len() + 2 == widest(init);
            assert(init[i] == ds[i]);
        }
    }
}

/// In the dense form, each row is its document's framed indices followed by
/// padding: past them every index is the padding marker and every mask entry
/// false.
pub proof fn lemma_padding_positions(
    v: VocabView,
    ds: Seq<Seq<Seq<char>>>,
    indices: Seq<Vec<usize>>,
    mask: Seq<Vec<bool>>,
    i: int,
)
    requires
        dense_rows(v, ds, indices, mask),
        0 <= i < ds.len(),
    ensures
        indices[i]@.len() == widest(ds),
        mask[i]@.len() == widest(ds),
        forall|j: int| 0 <= j < ds[i].len() + 2 ==> #[trigger] mask[i]@[j],
        forall|j: int|
            ds[i].len() + 2 <= j < widest(ds) ==> #[trigger] indices[i]@[j] == mark_of(v, pad_mark()) && !mask[i]@[j],
{
    lemma_widest(ds);
    assert(indices[i]@ == padded_row(v, ds[i], widest(ds)));
    assert(mask[i]@ == mask_row(ds[i], widest(ds)));
}

/// When one document of the batch is at least as long as every other, its
/// row is unpadded and its mask all true.
pub proof fn lemma_longest_unpadded(
    v: VocabView,
    ds: Seq<Seq<Seq<char>>>,
    indices: Seq<Vec<usize>>,
    mask: Seq<Vec<bool>>,
    i: int,
)
    requires
        dense_rows(v, ds, indices, mask),
        0 <= i < ds.len(),
        forall|d: int| 0 <= d < ds.len() ==> #[trigger] ds[d].len() <= ds[i].len(),
    ensures
        indices[i]@ == framed(v, ds[i]),
        mask[i]@.len() == ds[i].len() + 2,
        forall|j: int| 0 <= j < mask[i]@.len() ==> #[trigger] mask[i]@[j],
{
    lemma_widest(ds);
    let d = choose|d: int| 0 <= d < ds.len() && ds[d].len() + 2 == widest(ds);
    assert(ds[d].len() <= ds[i].len());
    assert(indices[i]@ =~= framed(v, ds[i]));
}

/// A document none of whose tokens the vocabulary recognizes is framed as
/// the begin marker, one unknown marker per token, and the end marker.
pub proof fn lemma_unknown_document_all_unk(v: VocabView, doc: Seq<Seq<char>>)
    requires
        forall|j: int| 0 <= j < doc.len() ==> lookup(v, #[trigger] doc[j]) is None,
    ensures
        framed(v, doc) == seq![mark_of(v, bos_mark())] + Seq::new(doc.len(), |k: int| mark_of(v, unk_mark()))
            + seq![mark_of(v, eos_mark())],
{
    assert(doc.map_values(|t: Seq<char>| index_or(v, t, mark_of(v, unk_mark())))
        =~= Seq::new(doc.len(), |k: int| mark_of(v, unk_mark())));
}

/// Dense indexing over a vocabulary with the reserved markers.
pub struct Indexer {
    vocabulary: Vocabulary,
}

impl Indexer {
    /// The state of the underlying vocabulary.
    pub closed spec fn vocab(&self) -> VocabView {
        self.vocabulary@
    }

    /// An untrained indexer with the given bounds and no stop words.
    pub fn new(min_df: usize, max_df: usize) -> (r: Self)
        ensures
            r.vocab() == (VocabView {
                min_df,
                max_df,
                use_specials: true,
                stop_words: Set::empty(),
                total_docs: 0,
                tokens: Map::empty(),
            }),
    {
        let stop_words = WordSet::new();
        proof {
            assert(set_words(stop_words) =~= Set::empty());
        }
        Indexer { vocabulary: Vocabulary::new(min_df, max_df, true, stop_words) }
    }

    /// The underlying vocabulary.
    pub fn vocabulary(&self) -> (r: &Vocabulary)
        ensures
            r@ == self.vocab(),
    {
        &self.vocabulary
    }

    /// Index of the beginning-of-sequence marker.
    pub fn bos(&self) -> (r: usize)
        requires
            self.vocab().use_specials,
            self.vocab().tokens.contains_key(bos_mark()),
        ensures
            r == mark_of(self.vocab(), bos_mark()),
    {
        match self.vocabulary.bos() {
            Some(i) => i,
            None => 0,
        }
    }

    /// Index of the end-of-sequence marker.
    pub fn eos(&self) -> (r: usize)
        requires
            self.vocab().use_specials,
            self.vocab().tokens.contains_key(eos_mark()),
        ensures
            r == mark_of(self.vocab(), eos_mark()),
    {
        match self.vocabulary.eos() {
            Some(i) => i,
            None => 0,
        }
    }

    /// Index of the padding marker.
    pub fn pad(&self) -> (r: usize)
        requires
            self.vocab().use_specials,
            self.vocab().tokens.contains_key(pad_mark()),
        ensures
            r == mark_of(self.vocab(), pad_mark()),
    {
        match self.vocabulary.pad() {
            Some(i) => i,
            None => 0,
        }
    }

    /// Index of the unknown-token marker.
    pub fn unk(&self) -> (r: usize)
        requires
            self.vocab().use_specials,
            self.vocab().tokens.contains_key(unk_mark()),
        ensures
            r == mark_of(self.vocab(), unk_mark()),
    {
        match self.vocabulary.unk() {
            Some(i) => i,
            None => 0,
        }
    }

    /// The dense form of a batch given as token sequences; fails when the
    /// reserved markers are not in the vocabulary.
    pub fn vectorize_tokens(&self, docs: &Vec<Vec<String>>) -> (r: Result<(Vec<Vec<usize>>, Vec<Vec<bool>>), IndexerError>)
        ensures
            match r {
                Ok(out) => has_markers(self.vocab()) && dense_rows(self.vocab(), token_docs(docs@), out.0@, out.1@),
                Err(e) => !has_markers(self.vocab()) && e == IndexerError::SpecialsUnavailable,
            },
    {
        let b = match self.vocabulary.bos() {
            Some(x) => x,
            None => return Err(IndexerError::SpecialsUnavailable),
        };
        let e = match self.vocabulary.eos() {
            Some(x) => x,
            None => return Err(IndexerError::SpecialsUnavailable),
        };
        let p = match self.vocabulary.pad() {
            Some(x) => x,
            None => return Err(IndexerError::SpecialsUnavailable),
        };
        let u = match self.vocabulary.unk() {
            Some(x) => x,
            None => return Err(IndexerError::SpecialsUnavailable),
        };
        let ghost v = self.vocab();
        let ghost ds = token_docs(docs@);
        let ghost f = |t: Seq<char>| index_or(v, t, u);
        let mut frames: Vec<Vec<usize>> = Vec::new();
        let mut width: usize = 0;
        let mut i: usize = 0;
        proof {
            assert(ds.take(0) =~= Seq::empty());
        }
        while i < docs.len()
            invariant
                i <= docs@.len(),
                v == self.vocab(),
                ds == token_docs(docs@),
                b == mark_of(v, bos_mark()),
                e == mark_of(v, eos_mark()),
                u == mark_of(v, unk_mark()),
                f == (|t: Seq<char>| index_or(v, t, u)),
                frames@.len() == i,
                forall|j: int| 0 <= j < i ==> (#[trigger] frames@[j])@ == framed(v, ds[j]),
                width == widest(ds.take(i as int)),
            decreases docs@.len() - i,
        {
            let toks = &docs[i];
            let ghost doc = views_of(toks@);
            assert(doc == ds[i as int]);
            let mut row: Vec<usize> = Vec::new();
            row.push(b);
            let mut j: usize = 0;
            proof {
                assert(row@ =~= seq![b] + doc.take(0).map_values(f));
            }
            while j < toks.len()
                invariant
                    j <= toks@.len(),
                    v == self.vocab(),
                    doc == views_of(toks@),
                    u == mark_of(v, unk_mark()),
                    f == (|t: Seq<char>| index_or(v, t, u)),
                    row@ == seq![b] + doc.take(j as int).map_values(f),
                decreases toks@.len() - j,
            {
                let x = match self.vocabulary.get(toks[j].as_str()) {
                    Some(entry) => entry.0,
                    None => u,
                };
                row.push(x);
                proof {
                    assert(doc[j as int] == toks@[j as int]@);
                    assert(doc.take(j + 1).map_values(f) =~= doc.take(j as int).map_values(f).push(x));
                    assert(row@ =~= seq![b] + doc.take(j + 1).map_values(f));
                }
                j += 1;
            }
            row.push(e);
            proof {
                assert(doc.take(toks@.len() as int) =~= doc);
                assert(row@ =~= framed(v, doc));
                assert(ds.take(i + 1).drop_last() =~= ds.take(i as int));
                assert(ds.take(i + 1).last() == doc);
            }
            if row.len() > width {
                width = row.len();
            }
            frames.push(row);
            i += 1;
        }
        proof {
            assert(ds.take(docs@.len() as int) =~= ds);
            lemma_widest(ds);
        }
        let mut indices: Vec<Vec<usize>> = Vec::new();
        let mut mask: Vec<Vec<bool>> = Vec::new();
        let mut i: usize = 0;
        while i < frames.len()
            invariant
                i <= frames@.len(),
                frames@.len() == ds.len(),
                forall|j: int| 0 <= j < ds.len() ==> (#[trigger] frames@[j])@ == framed(v, ds[j]),
                forall|j: int| 0 <= j < ds.len() ==> #[trigger] ds[j].len() + 2 <= widest(ds),
                width == widest(ds),
                p == mark_of(v, pad_mark()),
                indices@.len() == i,
                mask@.len() == i,
                forall|j: int| 0 <= j < i ==> #[trigger] indices@[j]@ == padded_row(v, ds[j], widest(ds)),
                forall|j: int| 0 <= j < i ==> #[trigger] mask@[j]@ == mask_row(ds[j], widest(ds)),
            decreases frames@.len() - i,
        {
            let src = &frames[i];
            let ghost doc = ds[i as int];
            assert(src@.len() == doc.len() + 2);
            assert(doc.len() + 2 <= widest(ds));
            let mut row: Vec<usize> = Vec::new();
            let mut m: Vec<bool> = Vec::new();
            let mut j: usize = 0;
            while j < src.len()
                invariant
                    j <= src@.len(),
                    row@ == src@.take(j as int),
                    m@ == Seq::new(j as nat, |k: int| true),
                decreases src@.len() - j,
            {
                row.push(src[j]);
                m.push(true);
                proof {
                    assert(row@ =~= src@.take(j + 1));
                    assert(m@ =~= Seq::new((j + 1) as nat, |k: int| true));
                }
                j += 1;
            }
            proof {
                assert(row@ =~= src@ + Seq::new(0, |k: int| p));
                assert(m@ =~= Seq::new(src@.len(), |k: int| true) + Seq::new(0, |k: int| false));
            }
            while row.len() < width
                invariant
                    src@.len() <= row@.len() <= width,
                    m@.len() == row@.len(),
                    row@ == src@ + Seq::new((row@.len() - src@.len()) as nat, |k: int| p),
                    m@ == Seq::new(src@.len(), |k: int| true) + Seq::new((m@.len() - src@.len()) as nat, |k: int| false),
                decreases width - row@.len(),
            {
                row.push(p);
                m.push(false);
                proof {
                    assert(row@ =~= src@ + Seq::new((row@.len() - src@.len()) as nat, |k: int| p));
                    assert(m@ =~= Seq::new(src@.len(), |k: int| true) + Seq::new((m@.len() - src@.len()) as nat, |k: int| false));
                }
            }
            proof {
                assert(row@ =~= padded_row(v, doc, widest(ds)));
                assert(m@ =~= mask_row(doc, widest(ds)));
            }
            indices.push(row);
            mask.push(m);
            i += 1;
        }
        Ok((indices, mask))
    }

    /// The dense form of a batch of raw texts, each split into words.
    pub fn vectorize(&self, docs: &Vec<String>) -> (r: Result<(Vec<Vec<usize>>, Vec<Vec<bool>>), IndexerError>)
        ensures
            match r {
                Ok(out) => has_markers(self.vocab()) && dense_rows(self.vocab(), text_docs(docs@), out.0@, out.1@),
                Err(e) => !has_markers(self.vocab()) && e == IndexerError::SpecialsUnavailable,
            },
    {
        let mut toks: Vec<Vec<String>> = Vec::new();
        let mut i: usize = 0;
        while i < docs.len()
            invariant
                i <= docs@.len(),
                toks@.len() == i,
                forall|j: int| 0 <= j < i ==> views_of(#[trigger] toks@[j]@) == words_of(docs@[j]@),
            decreases docs@.len() - i,
        {
            toks.push(tokenize(docs[i].as_str()));
            i += 1;
        }
        proof {
            assert(token_docs(toks@) =~= text_docs(docs@));
        }
        self.vectorize_tokens(&toks)
    }

    /// Trains the vocabulary on raw texts; an indexer that uses the reserved
    /// markers then holds all four.
    pub fn train(&mut self, docs: &Vec<String>)
        ensures
            trained(old(self).vocab(), final(self).vocab(), text_docs(docs@)),
            old(self).vocab().use_specials ==> has_markers(final(self).vocab()),
    {
        self.vocabulary.train(docs);
        proof {
            let v = self.vocab();
            assert(is_reserved(bos_mark()) && is_reserved(eos_mark()));
            assert(is_reserved(pad_mark()) && is_reserved(unk_mark()));
            assert(v.tokens.contains_key(bos_mark()) == ((v.use_specials && is_reserved(bos_mark())) || admitted(old(self).vocab(), text_docs(docs@), bos_mark())));
        }
    }

    /// The flat form of the indexer's vocabulary.
    pub fn to_params(&self) -> (r: VocabularyParams)
        ensures
            encodes(self.vocab(), r),
    {
        self.vocabulary.to_params()
    }

    /// Rebuilds an indexer from the flat form of its vocabulary. Refused
    /// where the vocabulary does not use the reserved markers, or where two
    /// entries share an index.
    pub fn from_params(params: VocabularyParams) -> (r: Result<Self, ParamsError>)
        ensures
            match r {
                Ok(ix) => params.2 && !shares_index(params.5@) && ix.vocab() == decoded(params),
                Err(e) => if !params.2 {
                    e == ParamsError::WrongVariant
                } else {
                    shares_index(params.5@) && e == ParamsError::SharedIndex
                },
            },
    {
        if !params.2 {
            return Err(ParamsError::WrongVariant);
        }
        match Vocabulary::from_params(params) {
            Ok(vocabulary) => Ok(Indexer { vocabulary }),
            Err(e) => Err(e),
        }
    }
}

} // verus!
