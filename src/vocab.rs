//! The vocabulary: which tokens of a corpus are kept, under which index, and
//! in how many documents each appeared.

use vstd::prelude::*;
use crate::table::{set_words, table_entries, TokenTable, WordSet};
use crate::tokens::{tokenize, views_of, words_of};

verus! {

/// Marker for the beginning of a sequence.
pub open spec fn bos_mark() -> Seq<char> {
    seq!['@', '@', 'B', 'O', 'S', '@', '@']
}

/// Marker for the end of a sequence.
pub open spec fn eos_mark() -> Seq<char> {
    seq!['@', '@', 'E', 'O', 'S', '@', '@']
}

/// Marker for padding.
pub open spec fn pad_mark() -> Seq<char> {
    seq!['@', '@', 'P', 'A', 'D', '@', '@']
}

/// Marker for a token outside the vocabulary.
pub open spec fn unk_mark() -> Seq<char> {
    seq!['@', '@', 'U', 'N', 'K', '@', '@']
}

/// One of the four reserved marker tokens.
pub open spec fn is_reserved(t: Seq<char>) -> bool {
    t == bos_mark() || t == eos_mark() || t == pad_mark() || t == unk_mark()
}

/// The index that a reserved marker takes when reserved markers are used.
pub open spec fn reserved_index(t: Seq<char>) -> usize {
    if t == bos_mark() {
        0
    } else if t == eos_mark() {
        1
    } else if t == pad_mark() {
        2
    } else {
        3
    }
}

/// A corpus as the token sequences of its documents.
pub open spec fn token_docs(docs: Seq<Vec<String>>) -> Seq<Seq<Seq<char>>> {
    docs.map_values(|d: Vec<String>| views_of(d@))
}

/// A corpus of raw texts, tokenized.
pub open spec fn text_docs(docs: Seq<String>) -> Seq<Seq<Seq<char>>> {
    docs.map_values(|d: String| words_of(d@))
}

/// Document frequency: the number of documents that hold the token.
pub open spec fn doc_freq(ds: Seq<Seq<Seq<char>>>, t: Seq<char>) -> nat
    decreases ds.len(),
{
    if ds.len() == 0 {
        0
    } else {
        doc_freq(ds.drop_last(), t) + if ds.last().contains(t) {
            1nat
        } else {
            0nat
        }
    }
}

/// All tokens of the corpus, document after document.
pub open spec fn flat(ds: Seq<Seq<Seq<char>>>) -> Seq<Seq<char>>
    decreases ds.len(),
{
    if ds.len() == 0 {
        Seq::empty()
    } else {
        flat(ds.drop_last()) + ds.last()
    }
}

/// The distinct tokens of a sequence, in order of first appearance.
pub open spec fn first_appearances(s: Seq<Seq<char>>) -> Seq<Seq<char>>
    decreases s.len(),
{
    if s.len() == 0 {
        Seq::empty()
    } else {
        let f = first_appearances(s.drop_last());
        if f.contains(s.last()) {
            f
        } else {
            f.push(s.last())
        }
    }
}

/// The tokens of `order` that training `v` on `ds` admits, in order.
pub open spec fn admitted_in(v: VocabView, ds: Seq<Seq<Seq<char>>>, order: Seq<Seq<char>>) -> Seq<Seq<char>>
    decreases order.len(),
{
    if order.len() == 0 {
        Seq::empty()
    } else {
        let r = admitted_in(v, ds, order.drop_last());
        if admitted(v, ds, order.last()) {
            r.push(order.last())
        } else {
            r
        }
    }
}

/// The index of the first ordinary entry: after the reserved markers, if used.
pub open spec fn first_free_index(v: VocabView) -> nat {
    if v.use_specials {
        4
    } else {
        0
    }
}

/// The abstract state of a vocabulary.
pub struct VocabView {
    pub min_df: usize,
    pub max_df: usize,
    pub use_specials: bool,
    pub stop_words: Set<Seq<char>>,
    pub total_docs: usize,
    pub tokens: Map<Seq<char>, (usize, usize)>,
}

/// Whether training `v` on the corpus `ds` keeps the token `t` as an
/// ordinary (not reserved) entry.
pub open spec fn admitted(v: VocabView, ds: Seq<Seq<Seq<char>>>, t: Seq<char>) -> bool {
    &&& 0 < doc_freq(ds, t)
    &&& v.min_df <= doc_freq(ds, t) <= v.max_df
    &&& !v.stop_words.contains(t)
    &&& !(v.use_specials && is_reserved(t))
}

/// Indices of the map are distinct and lie below the number of entries.
pub open spec fn densely_indexed(m: Map<Seq<char>, (usize, usize)>) -> bool {
    &&& m.dom().finite()
    &&& forall|t: Seq<char>| #[trigger] m.contains_key(t) ==> m[t].0 < m.dom().len()
    &&& forall|a: Seq<char>, b: Seq<char>|
        #[trigger] m.contains_key(a) && #[trigger] m.contains_key(b) && a != b ==> m[a].0 != m[b].0
}

/// No two tokens of the map share an index.
pub open spec fn distinct_indices(m: Map<Seq<char>, (usize, usize)>) -> bool {
    forall|a: Seq<char>, b: Seq<char>|
        #[trigger] m.contains_key(a) && #[trigger] m.contains_key(b) && a != b ==> m[a].0 != m[b].0
}

/// `after` is `before` trained on the corpus `ds`: the settings are kept, the
/// entries are replaced by the reserved markers (if used) and the admitted
/// tokens with their document frequencies; the admitted tokens take
/// consecutive indices after the markers, in order of first appearance in the
/// corpus.
pub open spec fn trained(before: VocabView, after: VocabView, ds: Seq<Seq<Seq<char>>>) -> bool {
    &&& after.min_df == before.min_df
    &&& after.max_df == before.max_df
    &&& after.use_specials == before.use_specials
    &&& after.stop_words == before.stop_words
    &&& after.total_docs == ds.len()
    &&& forall|t: Seq<char>|
        #[trigger] after.tokens.contains_key(t) <==> (before.use_specials && is_reserved(t))
            || admitted(before, ds, t)
    &&& forall|t: Seq<char>|
        #[trigger] admitted(before, ds, t) ==> after.tokens[t].1 == doc_freq(ds, t)
    &&& before.use_specials ==> forall|t: Seq<char>|
        #[trigger] is_reserved(t) ==> after.tokens[t] == (reserved_index(t), 0usize)
    &&& densely_indexed(after.tokens)
    &&& forall|i: int|
        0 <= i < admitted_in(before, ds, first_appearances(flat(ds))).len() ==>
            after.tokens[#[trigger] admitted_in(before, ds, first_appearances(flat(ds)))[i]].0
                == first_free_index(before) + i
}

/// What a lookup of `t` in `v` gives: nothing for a stop word or an unknown
/// token, else the stored index and document frequency.
pub open spec fn lookup(v: VocabView, t: Seq<char>) -> Option<(usize, usize)> {
    if v.stop_words.contains(t) || !v.tokens.contains_key(t) {
        None
    } else {
        Some(v.tokens[t])
    }
}

/// The index stored under a marker, if the vocabulary uses the reserved
/// markers and holds this one.
pub open spec fn marker_index(v: VocabView, mark: Seq<char>) -> Option<usize> {
    if v.use_specials && v.tokens.contains_key(mark) {
        Some(v.tokens[mark].0)
    } else {
        None
    }
}

/// Whether the vocabulary uses the reserved markers and stores all four.
pub open spec fn has_markers(v: VocabView) -> bool {
    &&& v.use_specials
    &&& v.tokens.contains_key(bos_mark())
    &&& v.tokens.contains_key(eos_mark())
    &&& v.tokens.contains_key(pad_mark())
    &&& v.tokens.contains_key(unk_mark())
}

pub proof fn lemma_doc_freq_push(ds: Seq<Seq<Seq<char>>>, p: Seq<Seq<char>>, t: Seq<char>)
    ensures
        doc_freq(ds.push(p), t) == doc_freq(ds, t) + if p.contains(t) {
            1nat
        } else {
            0nat
        },
{
    assert(ds.push(p).drop_last() =~= ds);
}

proof fn lemma_flat_push(ds: Seq<Seq<Seq<char>>>, p: Seq<Seq<char>>)
    ensures
        flat(ds.push(p)) == flat(ds) + p,
{
    assert(ds.push(p).drop_last() =~= ds);
}

proof fn lemma_first_appearances_push(s: Seq<Seq<char>>, u: Seq<char>)
    ensures
        first_appearances(s.push(u)) == if first_appearances(s).contains(u) {
            first_appearances(s)
        } else {
            first_appearances(s).push(u)
        },
{
    assert(s.push(u).drop_last() =~= s);
}

pub proof fn lemma_doc_freq_bound(ds: Seq<Seq<Seq<char>>>, t: Seq<char>)
    ensures
        doc_freq(ds, t) <= ds.len(),
    decreases ds.len(),
{
    if ds.len() > 0 {
        lemma_doc_freq_bound(ds.drop_last(), t);
    }
}

proof fn lemma_contains_push(s: Seq<Seq<char>>, u: Seq<char>, x: Seq<char>)
    ensures
        s.push(u).contains(x) <==> s.contains(x) || x == u,
{
    if s.contains(x) {
        let i = choose|i: int| 0 <= i < s.len() && s[i] == x;
        assert(s.push(u)[i] == x);
    }
    if x == u {
        assert(s.push(u)[s.len() as int] == x);
    }
    if s.push(u).contains(x) {
        let i = choose|i: int| 0 <= i < s.len() + 1 && s.push(u)[i] == x;
        if i < s.len() {
            assert(s[i] == x);
        }
    }
}

proof fn lemma_admitted_in(v: VocabView, ds: Seq<Seq<Seq<char>>>, order: Seq<Seq<char>>)
    ensures
        forall|i: int| 0 <= i < admitted_in(v, ds, order).len() ==> order.contains(#[trigger] admitted_in(v, ds, order)[i]),
    decreases order.len(),
{
    if order.len() > 0 {
        let init = order.drop_last();
        lemma_admitted_in(v, ds, init);
        assert forall|i: int| 0 <= i < admitted_in(v, ds, order).len() implies order.contains(#[trigger] admitted_in(v, ds, order)[i]) by {
            if i < admitted_in(v, ds, init).len() {
                let j = choose|j: int| 0 <= j < init.len() && init[j] == admitted_in(v, ds, init)[i];
                assert(order[j] == init[j]);
            } else {
                assert(order[order.len() - 1] == order.last());
            }
        }
    }
}

/// The state of the counting pass after the documents `done` and the first
/// tokens `part` of the current document `d`: `m` maps each token seen so far
/// to the last document it was seen in and its document frequency, and `seen`
/// lists those tokens once each, in order of first appearance.
spec fn counted(
    m: Map<Seq<char>, (usize, usize)>,
    seen: Seq<Seq<char>>,
    done: Seq<Seq<Seq<char>>>,
    part: Seq<Seq<char>>,
    d: usize,
) -> bool {
    &&& done.len() == d
    &&& seen == first_appearances(flat(done.push(part)))
    &&& seen.no_duplicates()
    &&& forall|t: Seq<char>| #[trigger] m.contains_key(t) <==> seen.contains(t)
    &&& forall|t: Seq<char>| #[trigger] m.contains_key(t) <==> 0 < doc_freq(done.push(part), t)
    &&& forall|t: Seq<char>|
        #[trigger] m.contains_key(t) ==> {
            &&& m[t].1 == doc_freq(done.push(part), t)
            &&& m[t].0 <= d
            &&& (m[t].0 == d <==> part.contains(t))
        }
}

/// The flat form of a vocabulary: `min_df`, `max_df`, `use_specials`, the
/// stop words, `total_docs`, and the entries as `(token, index, df)`.
pub type VocabularyParams = (usize, usize, bool, Vec<String>, usize, Vec<(String, usize, usize)>);

/// Why a flat form is refused.
#[derive(Clone, Copy, Debug, PartialEq, Eq, Structural)]
pub enum ParamsError {
    /// Two entries share an index.
    SharedIndex,
    /// The flat form belongs to the other kind of vectorizer: its
    /// `use_specials` does not match.
    WrongVariant,
}

/// Two entries of the list share an index.
pub open spec fn shares_index(es: Seq<(String, usize, usize)>) -> bool {
    exists|i: int, j: int| 0 <= i < j < es.len() && es[i].1 == es[j].1
}

/// The map that inserting the entries in order builds.
pub open spec fn entries_map(es: Seq<(String, usize, usize)>) -> Map<Seq<char>, (usize, usize)>
    decreases es.len(),
{
    if es.len() == 0 {
        Map::empty()
    } else {
        entries_map(es.drop_last()).insert(es.last().0@, (es.last().1, es.last().2))
    }
}

/// The vocabulary state that a flat form describes.
pub open spec fn decoded(p: VocabularyParams) -> VocabView {
    VocabView {
        min_df: p.0,
        max_df: p.1,
        use_specials: p.2,
        stop_words: views_of(p.3@).to_set(),
        total_docs: p.4,
        tokens: entries_map(p.5@),
    }
}

/// `p` lists the settings of `v`, its stop words, and each of its entries
/// exactly once.
pub open spec fn encodes(v: VocabView, p: VocabularyParams) -> bool {
    &&& p.0 == v.min_df
    &&& p.1 == v.max_df
    &&& p.2 == v.use_specials
    &&& views_of(p.3@).to_set() == v.stop_words
    &&& p.4 == v.total_docs
    &&& forall|i: int, j: int| 0 <= i < j < p.5@.len() ==> p.5@[i].0@ != p.5@[j].0@
    &&& forall|i: int|
        0 <= i < p.5@.len() ==> #[trigger] v.tokens.contains_key(p.5@[i].0@)
            && v.tokens[p.5@[i].0@] == (p.5@[i].1, p.5@[i].2)
    &&& forall|t: Seq<char>|
        #[trigger] v.tokens.contains_key(t) ==> exists|i: int| 0 <= i < p.5@.len() && p.5@[i].0@ == t
}

proof fn lemma_entries_map(es: Seq<(String, usize, usize)>)
    requires
        forall|i: int, j: int| 0 <= i < j < es.len() ==> es[i].0@ != es[j].0@,
    ensures
        entries_map(es).dom().finite(),
        forall|t: Seq<char>|
            #[trigger] entries_map(es).contains_key(t) <==> exists|i: int| 0 <= i < es.len() && es[i].0@ == t,
        forall|i: int| 0 <= i < es.len() ==> entries_map(es)[#[trigger] es[i].0@] == (es[i].1, es[i].2),
    decreases es.len(),
{
    if es.len() > 0 {
        let init = es.drop_last();
        lemma_entries_map(init);
        let n = es.len() - 1;
        assert forall|t: Seq<char>|
            #[trigger] entries_map(es).contains_key(t) <==> exists|i: int| 0 <= i < es.len() && es[i].0@ == t by {
            if entries_map(init).contains_key(t) {
                let i = choose|i: int| 0 <= i < init.len() && init[i].0@ == t;
                assert(es[i].0@ == t);
            }
            if exists|i: int| 0 <= i < es.len() && es[i].0@ == t {
                let i = choose|i: int| 0 <= i < es.len() && es[i].0@ == t;
                if i < n {
                    assert(init[i].0@ == t);
                }
            }
        }
        assert forall|i: int| 0 <= i < es.len() implies entries_map(es)[#[trigger] es[i].0@] == (es[i].1, es[i].2) by {
            if i < n {
                assert(init[i] == es[i]);
            }
        }
    }
}

proof fn lemma_entries_map_source(es: Seq<(String, usize, usize)>)
    ensures
        forall|t: Seq<char>|
            #[trigger] entries_map(es).contains_key(t) ==> exists|i: int|
                0 <= i < es.len() && es[i].0@ == t && entries_map(es)[t] == (es[i].1, es[i].2),
    decreases es.len(),
{
    if es.len() > 0 {
        let init = es.drop_last();
        lemma_entries_map_source(init);
        assert forall|t: Seq<char>| #[trigger] entries_map(es).contains_key(t) implies exists|i: int|
            0 <= i < es.len() && es[i].0@ == t && entries_map(es)[t] == (es[i].1, es[i].2) by {
            if t != es.last().0@ {
                let i = choose|i: int|
                    0 <= i < init.len() && init[i].0@ == t && entries_map(init)[t] == (init[i].1, init[i].2);
                assert(es[i] == init[i]);
            } else {
                assert(es[es.len() - 1] == es.last());
            }
        }
    }
}

fn find_shared_index(es: &Vec<(String, usize, usize)>) -> (r: bool)
    ensures
        r == shares_index(es@),
{
    let mut i: usize = 0;
    while i < es.len()
        invariant
            i <= es@.len(),
            forall|a: int, b: int| 0 <= a < i && a < b < es@.len() ==> es@[a].1 != es@[b].1,
        decreases es@.len() - i,
    {
        let mut j: usize = i + 1;
        while j < es.len()
            invariant
                i < j <= es@.len(),
                forall|a: int, b: int| 0 <= a < i && a < b < es@.len() ==> es@[a].1 != es@[b].1,
                forall|b: int| i < b < j ==> es@[i as int].1 != es@[b].1,
            decreases es@.len() - j,
        {
            if es[i].1 == es[j].1 {
                return true;
            }
            j += 1;
        }
        i += 1;
    }
    false
}

proof fn lemma_entries_map_finite(es: Seq<(String, usize, usize)>)
    ensures
        entries_map(es).dom().finite(),
    decreases es.len(),
{
    if es.len() > 0 {
        lemma_entries_map_finite(es.drop_last());
    }
}

/// Flattening a well-formed vocabulary and rebuilding it from the flat form
/// is accepted and gives back the same vocabulary state, so every lookup,
/// marker query and vectorization agrees on the two.
pub proof fn lemma_params_round_trip(v: VocabView, p: VocabularyParams)
    requires
        encodes(v, p),
        distinct_indices(v.tokens),
    ensures
        decoded(p) == v,
        !shares_index(p.5@),
{
    lemma_entries_map(p.5@);
    assert(entries_map(p.5@) =~= v.tokens);
    if shares_index(p.5@) {
        let (i, j) = choose|i: int, j: int| 0 <= i < j < p.5@.len() && p.5@[i].1 == p.5@[j].1;
        assert(v.tokens.contains_key(p.5@[i].0@) && v.tokens.contains_key(p.5@[j].0@));
    }
}

/// After training, every stored token other than a reserved marker has a
/// document frequency within the bounds and is not a stop word.
pub proof fn lemma_trained_within_bounds(before: VocabView, after: VocabView, ds: Seq<Seq<Seq<char>>>)
    requires
        trained(before, after, ds),
    ensures
        forall|t: Seq<char>|
            #[trigger] after.tokens.contains_key(t) && !(after.use_specials && is_reserved(t)) ==> {
                &&& after.min_df <= after.tokens[t].1 <= after.max_df
                &&& !after.stop_words.contains(t)
            },
{
    assert forall|t: Seq<char>|
        #[trigger] after.tokens.contains_key(t) && !(after.use_specials && is_reserved(t)) implies
            after.min_df <= after.tokens[t].1 <= after.max_df && !after.stop_words.contains(t) by {
        assert(admitted(before, ds, t));
    }
}

proof fn lemma_admitted_in_same(v: VocabView, w: VocabView, ds: Seq<Seq<Seq<char>>>, order: Seq<Seq<char>>)
    requires
        forall|t: Seq<char>| admitted(v, ds, t) == admitted(w, ds, t),
    ensures
        admitted_in(v, ds, order) == admitted_in(w, ds, order),
    decreases order.len(),
{
    if order.len() > 0 {
        lemma_admitted_in_same(v, w, ds, order.drop_last());
    }
}

proof fn lemma_admitted_in_complete(v: VocabView, ds: Seq<Seq<Seq<char>>>, order: Seq<Seq<char>>, t: Seq<char>)
    requires
        order.contains(t),
        admitted(v, ds, t),
    ensures
        admitted_in(v, ds, order).contains(t),
    decreases order.len(),
{
    let init = order.drop_last();
    let r = admitted_in(v, ds, init);
    if order.last() == t {
        assert(r.push(t)[r.len() as int] == t);
    } else {
        let j = choose|j: int| 0 <= j < order.len() && order[j] == t;
        assert(init[j] == t);
        lemma_admitted_in_complete(v, ds, init, t);
        let i = choose|i: int| 0 <= i < r.len() && r[i] == t;
        if admitted(v, ds, order.last()) {
            assert(r.push(order.last())[i] == t);
        }
    }
}

proof fn lemma_first_appearances_contains(s: Seq<Seq<char>>, t: Seq<char>)
    requires
        s.contains(t),
    ensures
        first_appearances(s).contains(t),
    decreases s.len(),
{
    let init = s.drop_last();
    let f = first_appearances(init);
    if s.last() == t {
        if !f.contains(t) {
            assert(f.push(t)[f.len() as int] == t);
        }
    } else {
        let j = choose|j: int| 0 <= j < s.len() && s[j] == t;
        assert(init[j] == t);
        lemma_first_appearances_contains(init, t);
        let i = choose|i: int| 0 <= i < f.len() && f[i] == t;
        if !f.contains(s.last()) {
            assert(f.push(s.last())[i] == t);
        }
    }
}

proof fn lemma_flat_contains(ds: Seq<Seq<Seq<char>>>, t: Seq<char>)
    requires
        0 < doc_freq(ds, t),
    ensures
        flat(ds).contains(t),
    decreases ds.len(),
{
    let init = ds.drop_last();
    if ds.last().contains(t) {
        let j = choose|j: int| 0 <= j < ds.last().len() && ds.last()[j] == t;
        assert((flat(init) + ds.last())[flat(init).len() + j] == t);
    } else {
        lemma_flat_contains(init, t);
        let j = choose|j: int| 0 <= j < flat(init).len() && flat(init)[j] == t;
        assert((flat(init) + ds.last())[j] == t);
    }
}

/// Training twice on the same corpus gives the same entries, indices and
/// document frequencies included, as training once.
pub proof fn lemma_train_twice(
    v0: VocabView,
    v1: VocabView,
    v2: VocabView,
    ds: Seq<Seq<Seq<char>>>,
)
    requires
        trained(v0, v1, ds),
        trained(v1, v2, ds),
    ensures
        v2.tokens == v1.tokens,
{
    assert forall|t: Seq<char>| admitted(v0, ds, t) == admitted(v1, ds, t) by {}
    let order = first_appearances(flat(ds));
    lemma_admitted_in_same(v0, v1, ds, order);
    let a = admitted_in(v0, ds, order);
    assert forall|t: Seq<char>| #[trigger] v1.tokens.contains_key(t) implies v2.tokens[t] == v1.tokens[t] by {
        if admitted(v0, ds, t) {
            lemma_flat_contains(ds, t);
            lemma_first_appearances_contains(flat(ds), t);
            lemma_admitted_in_complete(v0, ds, order, t);
            let i = choose|i: int| 0 <= i < a.len() && a[i] == t;
            assert(v1.tokens[a[i]].0 == first_free_index(v0) + i);
            assert(v2.tokens[a[i]].0 == first_free_index(v1) + i);
            assert(v2.tokens[t].1 == v1.tokens[t].1);
        } else {
            assert(v0.use_specials && is_reserved(t));
        }
    }
    assert forall|t: Seq<char>| v2.tokens.contains_key(t) <==> v1.tokens.contains_key(t) by {}
    assert(v2.tokens.dom() =~= v1.tokens.dom());
    assert(v2.tokens =~= v1.tokens);
}

/// With both bounds at zero, training keeps no token but the reserved
/// markers, whatever the corpus.
pub proof fn lemma_zero_bounds_keep_markers_only(before: VocabView, after: VocabView, ds: Seq<Seq<Seq<char>>>)
    requires
        trained(before, after, ds),
        before.min_df == 0,
        before.max_df == 0,
    ensures
        forall|t: Seq<char>| #[trigger] after.tokens.contains_key(t) ==> before.use_specials && is_reserved(t),
{
    assert forall|t: Seq<char>| #[trigger] after.tokens.contains_key(t) implies before.use_specials && is_reserved(t) by {
        if !(before.use_specials && is_reserved(t)) {
            assert(admitted(before, ds, t));
        }
    }
}

/// Exec form of the reserved markers.
fn marker(which: usize) -> (r: String)
    requires
        which < 4,
    ensures
        which == 0 ==> r@ == bos_mark(),
        which == 1 ==> r@ == eos_mark(),
        which == 2 ==> r@ == pad_mark(),
        which == 3 ==> r@ == unk_mark(),
{
    if which == 0 {
        proof { reveal_strlit("@@BOS@@"); }
        "@@BOS@@".to_owned()
    } else if which == 1 {
        proof { reveal_strlit("@@EOS@@"); }
        "@@EOS@@".to_owned()
    } else if which == 2 {
        proof { reveal_strlit("@@PAD@@"); }
        "@@PAD@@".to_owned()
    } else {
        proof { reveal_strlit("@@UNK@@"); }
        "@@UNK@@".to_owned()
    }
}

fn is_reserved_token(t: &String) -> (r: bool)
    ensures
        r == is_reserved(t@),
{
    let b = marker(0);
    let e = marker(1);
    let p = marker(2);
    let u = marker(3);
    *t == b || *t == e || *t == p || *t == u
}


/// A term vocabulary: document-frequency bounds, whether the reserved markers
/// take the lowest indices, the stop words, and the trained entries.
pub struct Vocabulary {
    min_df: usize,
    max_df: usize,
    use_specials: bool,
    stop_words: WordSet,
    total_docs: usize,
    tokens: TokenTable,
}

impl View for Vocabulary {
    type V = VocabView;

    closed spec fn view(&self) -> VocabView {
        VocabView {
            min_df: self.min_df,
            max_df: self.max_df,
            use_specials: self.use_specials,
            stop_words: set_words(self.stop_words),
            total_docs: self.total_docs,
            tokens: table_entries(self.tokens),
        }
    }
}

impl Vocabulary {
    /// The entries form a finite map, no two of whose tokens share an index.
    pub open spec fn well_formed(&self) -> bool {
        &&& self@.tokens.dom().finite()
        &&& distinct_indices(self@.tokens)
    }

    /// An untrained vocabulary with the given settings.
    pub fn new(min_df: usize, max_df: usize, use_specials: bool, stop_words: WordSet) -> (r: Self)
        ensures
            r.well_formed(),
            r@ == (VocabView {
                min_df,
                max_df,
                use_specials,
                stop_words: set_words(stop_words),
                total_docs: 0,
                tokens: Map::empty(),
            }),
    {
        let tokens = TokenTable::new();
        proof {
            assert(table_entries(tokens) =~= Map::empty());
        }
        Vocabulary { min_df, max_df, use_specials, stop_words, total_docs: 0, tokens }
    }

    /// The number of entries, reserved markers included.
    pub fn len(&self) -> (r: usize)
        ensures
            r == self@.tokens.dom().len(),
    {
        self.tokens.len()
    }

    /// The stored entry of a token; nothing for a stop word or an unknown
    /// token.
    pub fn get(&self, token: &str) -> (r: Option<(usize, usize)>)
        ensures
            r == lookup(self@, token@),
    {
        if self.stop_words.contains(token) {
            None
        } else {
            self.tokens.get(token)
        }
    }

    fn marker_lookup(&self, which: usize) -> (r: Option<usize>)
        requires
            which < 4,
        ensures
            which == 0 ==> r == marker_index(self@, bos_mark()),
            which == 1 ==> r == marker_index(self@, eos_mark()),
            which == 2 ==> r == marker_index(self@, pad_mark()),
            which == 3 ==> r == marker_index(self@, unk_mark()),
    {
        if !self.use_specials {
            return None;
        }
        let m = marker(which);
        match self.tokens.get(m.as_str()) {
            Some(e) => Some(e.0),
            None => None,
        }
    }

    /// Index of the beginning-of-sequence marker; nothing unless the
    /// vocabulary uses the reserved markers and was trained.
    pub fn bos(&self) -> (r: Option<usize>)
        ensures
            r == marker_index(self@, bos_mark()),
    {
        self.marker_lookup(0)
    }

    /// Index of the end-of-sequence marker; nothing unless the vocabulary uses
    /// the reserved markers and was trained.
    pub fn eos(&self) -> (r: Option<usize>)
        ensures
            r == marker_index(self@, eos_mark()),
    {
        self.marker_lookup(1)
    }

    /// Index of the padding marker; nothing unless the vocabulary uses
    /// the reserved markers and was trained.
    pub fn pad(&self) -> (r: Option<usize>)
        ensures
            r == marker_index(self@, pad_mark()),
    {
        self.marker_lookup(2)
    }

    /// Index of the unknown-token marker; nothing unless the vocabulary uses
    /// the reserved markers and was trained.
    pub fn unk(&self) -> (r: Option<usize>)
        ensures
            r == marker_index(self@, unk_mark()),
    {
        self.marker_lookup(3)
    }

    /// The number of documents of the last training corpus.
    pub fn total_docs(&self) -> (r: usize)
        ensures
            r == self@.total_docs,
    {
        self.total_docs
    }

    /// The flat form of the vocabulary.
    pub fn to_params(&self) -> (r: VocabularyParams)
        ensures
            encodes(self@, r),
    {
        let words = self.stop_words.words();
        let entries = self.tokens.entries();
        proof {
            let sv = set_words(self.stop_words);
            assert forall|w: Seq<char>| views_of(words@).to_set().contains(w) <==> sv.contains(w) by {
                if sv.contains(w) {
                    let i = choose|i: int| 0 <= i < words@.len() && words@[i]@ == w;
                    assert(views_of(words@)[i] == w);
                }
                if views_of(words@).contains(w) {
                    let i = choose|i: int| 0 <= i < views_of(words@).len() && views_of(words@)[i] == w;
                    assert(words@[i]@ == w);
                }
            }
            assert(views_of(words@).to_set() =~= sv);
        }
        let r = (self.min_df, self.max_df, self.use_specials, words, self.total_docs, entries);
        proof {
            let v = self@;
            assert(v.tokens == table_entries(self.tokens));
            assert(r.5 == entries);
            assert(views_of(r.3@).to_set() == v.stop_words);
            assert(forall|i: int, j: int| 0 <= i < j < r.5@.len() ==> r.5@[i].0@ != r.5@[j].0@);
            assert forall|i: int|
                0 <= i < r.5@.len() implies #[trigger] v.tokens.contains_key(r.5@[i].0@)
                    && v.tokens[r.5@[i].0@] == (r.5@[i].1, r.5@[i].2) by {
                assert(r.5@[i] == entries@[i]);
                assert(table_entries(self.tokens).contains_key(entries@[i].0@));
            }
            assert(forall|t: Seq<char>|
                #[trigger] v.tokens.contains_key(t) ==> exists|i: int| 0 <= i < r.5@.len() && r.5@[i].0@ == t);
        }
        r
    }

    /// Rebuilds a vocabulary from its flat form; a token listed twice keeps
    /// its last entry. Refused where two entries share an index.
    pub fn from_params(params: VocabularyParams) -> (r: Result<Self, ParamsError>)
        ensures
            match r {
                Ok(v) => !shares_index(params.5@) && v@ == decoded(params) && v.well_formed(),
                Err(e) => shares_index(params.5@) && e == ParamsError::SharedIndex,
            },
    {
        if find_shared_index(&params.5) {
            return Err(ParamsError::SharedIndex);
        }
        let ghost p = params;
        let (min_df, max_df, use_specials, words, total_docs, entries) = params;
        let mut stop_words = WordSet::new();
        let mut i: usize = 0;
        while i < words.len()
            invariant
                i <= words@.len(),
                words == p.3,
                set_words(stop_words) == views_of(words@).take(i as int).to_set(),
            decreases words@.len() - i,
        {
            let ghost before = views_of(words@).take(i as int);
            let ghost old_set = set_words(stop_words);
            stop_words.insert(words[i].clone());
            proof {
                let w = words@[i as int]@;
                assert(views_of(words@).take(i + 1) =~= before.push(w));
                assert forall|x: Seq<char>| before.push(w).contains(x) <==> before.contains(x) || x == w by {
                    lemma_contains_push(before, w, x);
                }
                assert(words@[i as int]@ == w);
                assert(set_words(stop_words) == old_set.insert(w));
                assert forall|x: Seq<char>| set_words(stop_words).contains(x) <==> before.push(w).to_set().contains(x) by {
                    lemma_contains_push(before, w, x);
                    assert(old_set.contains(x) == before.contains(x));
                }
                assert(set_words(stop_words) =~= before.push(w).to_set());
            }
            i += 1;
        }
        proof {
            assert(views_of(words@).take(words@.len() as int) =~= views_of(words@));
        }
        let mut tokens = TokenTable::new();
        proof {
            assert(table_entries(tokens) =~= entries_map(entries@.take(0)));
        }
        let mut k: usize = 0;
        while k < entries.len()
            invariant
                k <= entries@.len(),
                entries == p.5,
                table_entries(tokens) == entries_map(entries@.take(k as int)),
            decreases entries@.len() - k,
        {
            let e = &entries[k];
            tokens.insert(e.0.clone(), (e.1, e.2));
            proof {
                assert(entries@.take(k + 1).drop_last() =~= entries@.take(k as int));
            }
            k += 1;
        }
        proof {
            assert(entries@.take(entries@.len() as int) =~= entries@);
            lemma_entries_map_finite(entries@);
        }
        proof {
            let m = table_entries(tokens);
            lemma_entries_map_source(entries@);
            assert forall|a: Seq<char>, b: Seq<char>|
                #[trigger] m.contains_key(a) && #[trigger] m.contains_key(b) && a != b implies m[a].0 != m[b].0 by {
                let i = choose|i: int| 0 <= i < entries@.len() && entries@[i].0@ == a && m[a] == (entries@[i].1, entries@[i].2);
                let j = choose|j: int| 0 <= j < entries@.len() && entries@[j].0@ == b && m[b] == (entries@[j].1, entries@[j].2);
                if i < j {
                    assert(!(entries@[i].1 == entries@[j].1));
                } else if j < i {
                    assert(!(entries@[j].1 == entries@[i].1));
                }
            }
        }
        Ok(Vocabulary { min_df, max_df, use_specials, stop_words, total_docs, tokens })
    }

    /// Trains on raw texts, each split into words.
    pub fn train(&mut self, docs: &Vec<String>)
        ensures
            trained(old(self)@, final(self)@, text_docs(docs@)),
            final(self).well_formed(),
    {
        let mut toks: Vec<Vec<String>> = Vec::new();
        let mut i: usize = 0;
        while i < docs.len()
            invariant
                i <= docs.len(),
                toks@.len() == i,
                forall|j: int| 0 <= j < i ==> views_of(#[trigger] toks@[j]@) == words_of(docs@[j]@),
            decreases docs.len() - i,
        {
            toks.push(tokenize(docs[i].as_str()));
            i += 1;
        }
        proof {
            assert(token_docs(toks@) =~= text_docs(docs@));
        }
        self.train_tokens(&toks);
    }

    /// Trains on documents given as token sequences. Every earlier entry is
    /// discarded; the reserved markers (if used) take indices 0 to 3 with
    /// document frequency 0; then each token of the corpus that is admitted
    /// takes the next index, in order of first appearance.
    pub fn train_tokens(&mut self, docs: &Vec<Vec<String>>)
        ensures
            trained(old(self)@, final(self)@, token_docs(docs@)),
            final(self).well_formed(),
    {
        let ghost ds = token_docs(docs@);
        let ghost v0 = self@;
        let mut dfs = TokenTable::new();
        let mut seen: Vec<String> = Vec::new();
        proof {
            assert(views_of(seen@) =~= Seq::empty());
            assert forall|x: Seq<char>| #![auto] doc_freq(ds.take(0).push(Seq::empty()), x) == 0 by {
                lemma_doc_freq_push(ds.take(0), Seq::empty(), x);
            }
            lemma_flat_push(ds.take(0), Seq::empty());
            assert(ds.take(0) =~= Seq::<Seq<Seq<char>>>::empty());
            assert(flat(ds.take(0).push(Seq::empty())) =~= Seq::empty());
        }
        let mut d: usize = 0;
        while d < docs.len()
            invariant
                d <= docs.len(),
                ds == token_docs(docs@),
                counted(table_entries(dfs), views_of(seen@), ds.take(d as int), Seq::empty(), d),
            decreases docs.len() - d,
        {
            let toks = &docs[d];
            let ghost doc = views_of(toks@);
            assert(doc == ds[d as int]);
            let mut j: usize = 0;
            assert(doc.take(0) =~= Seq::empty());
            while j < toks.len()
                invariant
                    d < docs.len(),
                    j <= toks@.len(),
                    ds == token_docs(docs@),
                    toks == docs@[d as int],
                    doc == views_of(toks@),
                    counted(table_entries(dfs), views_of(seen@), ds.take(d as int), doc.take(j as int), d),
                decreases toks.len() - j,
            {
                let t = &toks[j];
                let ghost u = t@;
                let ghost s0 = views_of(seen@);
                let ghost done = ds.take(d as int);
                let ghost part = doc.take(j as int);
                proof {
                    assert(doc[j as int] == u);
                    assert(doc.take(j + 1) =~= part.push(u));
                    assert forall|x: Seq<char>| #![auto]
                        doc_freq(done.push(part.push(u)), x) == doc_freq(done, x) + if part.contains(x) || x == u { 1nat } else { 0nat }
                        && doc_freq(done.push(part), x) == doc_freq(done, x) + if part.contains(x) { 1nat } else { 0nat }
                    by {
                        lemma_doc_freq_push(done, part.push(u), x);
                        lemma_doc_freq_push(done, part, x);
                        lemma_contains_push(part, u, x);
                    }
                    lemma_doc_freq_bound(done, u);
                    lemma_flat_push(done, part.push(u));
                    lemma_flat_push(done, part);
                    assert(flat(done) + part.push(u) =~= (flat(done) + part).push(u));
                    lemma_first_appearances_push(flat(done) + part, u);
                }
                match dfs.get(t.as_str()) {
                    Some(e) => {
                        if e.0 != d {
                            dfs.insert(t.clone(), (d, e.1 + 1));
                        }
                    },
                    None => {
                        dfs.insert(t.clone(), (d, 1));
                        seen.push(t.clone());
                        proof {
                            assert(views_of(seen@) =~= s0.push(u));
                            assert forall|x: Seq<char>| s0.push(u).contains(x) <==> s0.contains(x) || x == u by {
                                lemma_contains_push(s0, u, x);
                            }
                            assert forall|a: int, b: int| 0 <= a < s0.push(u).len() && 0 <= b < s0.push(u).len() && a != b
                                implies s0.push(u)[a] != s0.push(u)[b] by {
                                if a == s0.len() {
                                    assert(s0.contains(s0[b]));
                                } else if b == s0.len() {
                                    assert(s0.contains(s0[a]));
                                }
                            }
                        }
                    },
                }
                proof {
                    let m1 = table_entries(dfs);
                    assert forall|x: Seq<char>| #[trigger] m1.contains_key(x) implies
                        m1[x].0 <= d && (m1[x].0 == d <==> part.push(u).contains(x)) by {
                        lemma_contains_push(part, u, x);
                    }
                }
                j += 1;
            }
            proof {
                let done = ds.take(d as int);
                assert(doc.take(toks@.len() as int) =~= doc);
                assert(ds.take(d + 1) =~= done.push(doc));
                assert forall|x: Seq<char>| #![auto]
                    doc_freq(ds.take(d + 1).push(Seq::empty()), x) == doc_freq(done.push(doc), x) by {
                    lemma_doc_freq_push(ds.take(d + 1), Seq::empty(), x);
                }
                lemma_flat_push(ds.take(d + 1), Seq::empty());
                lemma_flat_push(done, doc);
                assert(flat(ds.take(d + 1).push(Seq::empty())) =~= flat(done.push(doc)));
            }
            d += 1;
        }
        proof {
            assert(ds.take(docs@.len() as int) =~= ds);
            assert forall|x: Seq<char>| #![auto]
                doc_freq(ds.push(Seq::empty()), x) == doc_freq(ds, x) by {
                lemma_doc_freq_push(ds, Seq::empty(), x);
            }
            lemma_flat_push(ds, Seq::empty());
            assert(flat(ds.push(Seq::empty())) =~= flat(ds));
        }
        let mut tokens = TokenTable::new();
        if self.use_specials {
            let b = marker(0);
            let e = marker(1);
            let p = marker(2);
            let u = marker(3);
            tokens.insert(b, (0, 0));
            tokens.insert(e, (1, 0));
            tokens.insert(p, (2, 0));
            tokens.insert(u, (3, 0));
            proof {
                reveal_strlit("@@BOS@@");
                assert(bos_mark() != eos_mark() && bos_mark() != pad_mark() && bos_mark() != unk_mark());
                assert(eos_mark() != pad_mark() && eos_mark() != unk_mark() && pad_mark() != unk_mark());
                assert(table_entries(tokens).dom().len() == 4);
            }
        }
        let ghost seen_v = views_of(seen@);
        proof {
            assert(seen_v.take(0) =~= Seq::<Seq<char>>::empty());
        }
        let mut k: usize = 0;
        while k < seen.len()
            invariant
                k <= seen@.len(),
                seen_v == views_of(seen@),
                seen_v.no_duplicates(),
                seen_v == first_appearances(flat(ds)),
                table_entries(tokens).dom().len() == first_free_index(v0) + admitted_in(v0, ds, seen_v.take(k as int)).len(),
                forall|i: int|
                    0 <= i < admitted_in(v0, ds, seen_v.take(k as int)).len() ==>
                        table_entries(tokens)[#[trigger] admitted_in(v0, ds, seen_v.take(k as int))[i]].0
                            == first_free_index(v0) + i,
                v0 == self@,
                ds == token_docs(docs@),
                forall|t: Seq<char>| #[trigger] table_entries(dfs).contains_key(t) <==> seen_v.contains(t),
                forall|t: Seq<char>| #[trigger] table_entries(dfs).contains_key(t) <==> 0 < doc_freq(ds, t),
                forall|t: Seq<char>| #[trigger] table_entries(dfs).contains_key(t) ==> table_entries(dfs)[t].1 == doc_freq(ds, t),
                densely_indexed(table_entries(tokens)),
                forall|t: Seq<char>|
                    #[trigger] table_entries(tokens).contains_key(t) <==> (v0.use_specials && is_reserved(t))
                        || (admitted(v0, ds, t) && seen_v.take(k as int).contains(t)),
                forall|t: Seq<char>|
                    #[trigger] admitted(v0, ds, t) && table_entries(tokens).contains_key(t) ==> table_entries(tokens)[t].1 == doc_freq(ds, t),
                v0.use_specials ==> forall|t: Seq<char>|
                    #[trigger] is_reserved(t) ==> table_entries(tokens)[t] == (reserved_index(t), 0usize),
            decreases seen@.len() - k,
        {
            let t = &seen[k];
            let ghost u = t@;
            let ghost m0 = table_entries(tokens);
            proof {
                assert(seen_v[k as int] == u);
                assert(seen_v.take(k + 1) =~= seen_v.take(k as int).push(u));
                assert forall|x: Seq<char>| seen_v.take(k + 1).contains(x) <==> seen_v.take(k as int).contains(x) || x == u by {
                    lemma_contains_push(seen_v.take(k as int), u, x);
                }
                assert(seen_v.contains(u));
                if seen_v.take(k as int).contains(u) {
                    let i = choose|i: int| 0 <= i < k && seen_v.take(k as int)[i] == u;
                    assert(seen_v[i] == seen_v[k as int]);
                }
                assert(seen_v.take(k + 1).drop_last() =~= seen_v.take(k as int));
                lemma_admitted_in(v0, ds, seen_v.take(k as int));
            }
            let ghost a0 = admitted_in(v0, ds, seen_v.take(k as int));
            if !self.stop_words.contains(t.as_str()) && !(self.use_specials && is_reserved_token(t)) {
                match dfs.get(t.as_str()) {
                    Some(e) => {
                        if self.min_df <= e.1 && e.1 <= self.max_df {
                            let index = tokens.len();
                            tokens.insert(t.clone(), (index, e.1));
                            proof {
                                let m1 = table_entries(tokens);
                                assert(!m0.contains_key(u));
                                assert(m1.dom() == m0.dom().insert(u));
                                assert(m1.dom().len() == m0.dom().len() + 1);
                                assert(admitted(v0, ds, u));
                                assert(admitted_in(v0, ds, seen_v.take(k + 1)) == a0.push(u));
                                assert forall|i: int| 0 <= i < a0.len() + 1 implies
                                    m1[#[trigger] a0.push(u)[i]].0 == first_free_index(v0) + i by {
                                    if i < a0.len() {
                                        assert(a0.push(u)[i] == a0[i]);
                                        assert(seen_v.take(k as int).contains(a0[i]));
                                    }
                                }
                            }
                        }
                    },
                    None => {},
                }
            }
            k += 1;
        }
        proof {
            assert(seen_v.take(seen_v.len() as int) =~= seen_v);
            let m = table_entries(tokens);
            let order = first_appearances(flat(ds));
            assert(admitted_in(v0, ds, seen_v.take(seen_v.len() as int)) == admitted_in(v0, ds, order));
            assert forall|t: Seq<char>| #[trigger] m.contains_key(t) <==> (v0.use_specials && is_reserved(t))
                || admitted(v0, ds, t) by {
                if admitted(v0, ds, t) {
                    assert(table_entries(dfs).contains_key(t));
                }
            }
        }
        self.tokens = tokens;
        self.total_docs = docs.len();
    }
}

} // verus!
