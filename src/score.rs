//! The integer side of BM25 scoring: which postings a query reaches, with the
//! document frequency, term frequency and document length that weigh each one,
//! and the exact rational arguments of the weighting formula.
use vstd::prelude::*;

use crate::indexer::{calculate_document_tf, distinct, entry_keys, lowered};
use crate::text::words;
use crate::tokenizer::{token_of, tokenize, Stopwords};
use crate::types::InvertedIndex;
use crate::DocId;

verus! {

broadcast use vstd::std_specs::hash::group_hash_axioms;

/// One posting reached by a query term, with what its weight depends on.
#[derive(Clone, Copy, Debug, PartialEq, Eq, Structural)]
pub struct ScoreTerm {
    pub doc_id: DocId,
    /// The number of documents holding the token.
    pub df: u32,
    /// The token's frequency in the document.
    pub tf: u32,
    /// The document's length in words.
    pub doc_len: u32,
}

/// The postings of token `t`, each with the weighing facts.
pub open spec fn token_terms(ix: InvertedIndex, t: Seq<char>) -> Seq<ScoreTerm> {
    match ix.lookup(t) {
        Some(ps) => Seq::new(
            ps.len(),
            |k: int|
                ScoreTerm {
                    doc_id: ps[k].doc_id,
                    df: ps.len() as u32,
                    tf: ps[k].tf,
                    doc_len: ix.doc_lengths@[ps[k].doc_id],
                },
        ),
        None => Seq::empty(),
    }
}

/// What the raw query terms contribute, term after term; terms that vanish
/// or whose token is not indexed contribute nothing.
pub open spec fn contributions(
    terms: Seq<Seq<char>>,
    ix: InvertedIndex,
    stop: Set<Seq<char>>,
) -> Seq<ScoreTerm>
    decreases terms.len(),
{
    if terms.len() == 0 {
        Seq::empty()
    } else {
        contributions(terms.drop_last(), ix, stop) + match token_of(terms.last(), stop) {
            Some(t) => token_terms(ix, t),
            None => Seq::empty(),
        }
    }
}

/// The distinct lowercased words of a query, in order of first occurrence.
pub open spec fn query_terms(query: Seq<char>) -> Seq<Seq<char>> {
    distinct(lowered(words(query)))
}

/// Everything that the score of `query` sums: the score of a document is the
/// sum of `idf(df) * weight(tf, doc_len)` over the terms naming it.
pub fn score_terms(query: &str, index: &InvertedIndex, stopwords: &Stopwords) -> (r: Vec<ScoreTerm>)
    requires
        index.wf(),
        query@.len() <= u32::MAX,
    ensures
        r@ == contributions(query_terms(query@), *index, stopwords@),
{
    let (tf, _len) = calculate_document_tf(query);
    let ghost terms = query_terms(query@);
    assert(entry_keys(tf@) == terms);
    let mut out: Vec<ScoreTerm> = Vec::new();
    let mut j: usize = 0;
    while j < tf.len()
        invariant
            j <= tf.len(),
            index.wf(),
            entry_keys(tf@) == terms,
            out@ == contributions(terms.take(j as int), *index, stopwords@),
        decreases tf.len() - j,
    {
        proof {
            assert(terms.take(j + 1).drop_last() =~= terms.take(j as int));
            assert(terms.take(j + 1).last() == tf@[j as int].0@);
        }
        let ghost start = out@;
        let tok = tokenize(tf[j].0.as_str(), stopwords);
        match tok {
            Some(t) => {
                match index.postings(&t) {
                    Some(ps) => {
                        proof {
                            let e = choose|e: int|
                                0 <= e < index.dictionary.len() && index.key(e) == t@;
                            assert(ps@ == index.list(e));
                        }
                        let df = ps.len() as u32;
                        let ghost want = token_terms(*index, t@);
                        let mut k: usize = 0;
                        while k < ps.len()
                            invariant
                                k <= ps.len(),
                                index.wf(),
                                index.lookup(t@) == Some(ps@),
                                df == ps.len(),
                                want == token_terms(*index, t@),
                                out@ == start + want.take(k as int),
                            decreases ps.len() - k,
                        {
                            let p = ps[k];
                            proof {
                                let e = choose|e: int|
                                    0 <= e < index.dictionary.len() && index.key(e) == t@;
                                assert(ps@ == index.list(e));
                                assert(index.list(e)[k as int] == p);
                            }
                            let doc_len = match index.doc_lengths.get(&p.doc_id) {
                                Some(l) => *l,
                                None => 0,
                            };
                            out.push(ScoreTerm { doc_id: p.doc_id, df: df, tf: p.tf, doc_len: doc_len });
                            proof {
                                assert(want[k as int] == ScoreTerm { doc_id: p.doc_id, df: df, tf: p.tf, doc_len: doc_len });
                                assert(out@ =~= start + want.take(k + 1));
                            }
                            k += 1;
                        }
                        proof {
                            assert(want.take(ps.len() as int) =~= want);
                        }
                    },
                    None => {
                        assert(out@ =~= start + token_terms(*index, t@));
                    },
                }
            },
            None => {
                assert(out@ =~= start + Seq::<ScoreTerm>::empty());
            },
        }
        j += 1;
    }
    proof {
        assert(terms.take(tf.len() as int) =~= terms);
    }
    out
}

/// A query none of whose terms normalises to an indexed token reaches no
/// posting, so its score map is empty.
pub proof fn lemma_disjoint_query_scores_nothing(
    terms: Seq<Seq<char>>,
    ix: InvertedIndex,
    stop: Set<Seq<char>>,
)
    requires
        forall|i: int|
            0 <= i < terms.len() ==> match token_of(#[trigger] terms[i], stop) {
                Some(t) => !ix.has_key(t),
                None => true,
            },
    ensures
        contributions(terms, ix, stop).len() == 0,
    decreases terms.len(),
{
    if terms.len() > 0 {
        assert(forall|i: int|
            0 <= i < terms.drop_last().len() ==> terms.drop_last()[i] == terms[i]);
        lemma_disjoint_query_scores_nothing(terms.drop_last(), ix, stop);
        let last = terms[terms.len() - 1];
        match token_of(last, stop) {
            Some(t) => {
                assert(!ix.has_key(t));
            },
            None => {},
        }
    }
}

/// The argument of the logarithm in `idf = ln((n - df + 0.5) / (df + 0.5))`,
/// as numerator and denominator: `(2 (n - df) + 1) / (2 df + 1)`.
pub open spec fn idf_ratio(df: int, n: int) -> (int, int) {
    (2 * (n - df) + 1, 2 * df + 1)
}

pub fn idf_fraction(df: u32, n: u32) -> (r: (u64, u64))
    requires
        df <= n,
    ensures
        (r.0 as int, r.1 as int) == idf_ratio(df as int, n as int),
        r.1 > 0,
{
    let num = 2 * ((n - df) as u64) + 1;
    let den = 2 * (df as u64) + 1;
    (num, den)
}

/// For a fixed number of documents the idf ratio, and so the idf, falls
/// strictly as the document frequency grows.
pub proof fn lemma_idf_decreasing(df1: int, df2: int, n: int)
    requires
        0 <= df1 < df2 <= n,
    ensures
        idf_ratio(df1, n).0 * idf_ratio(df2, n).1 > idf_ratio(df2, n).0 * idf_ratio(df1, n).1,
{
    assert((2 * (n - df1) + 1) * (2 * df2 + 1) - (2 * (n - df2) + 1) * (2 * df1 + 1) == 2 * (df2
        - df1) * (2 * n + 2)) by (nonlinear_arith);
    assert(2 * (df2 - df1) * (2 * n + 2) > 0) by (nonlinear_arith)
        requires
            df1 < df2,
            0 <= n,
    ;
}

/// `k1 = 1.2` as a fraction.
pub const K1_NUM: u64 = 6;

pub const K1_DEN: u64 = 5;

/// `b = 0.75` as a fraction.
pub const B_NUM: u64 = 3;

pub const B_DEN: u64 = 4;

/// The saturation weight `tf (k1 + 1) / (tf + k1 (1 - b + b dl / avdl))` with
/// `avdl = total / n`, both sides multiplied by `K1_DEN * B_DEN * total`.
pub open spec fn bm25_weight(tf: int, dl: int, n: int, total: int) -> (int, int) {
    (
        tf * (K1_NUM + K1_DEN) * B_DEN * total,
        tf * K1_DEN * B_DEN * total + K1_NUM * (B_DEN - B_NUM) * total + K1_NUM * B_NUM * dl * n,
    )
}

pub fn weight_fraction(tf: u32, doc_len: u32, n: u32, total_length: u64) -> (r: (u128, u128))
    requires
        total_length > 0,
    ensures
        (r.0 as int, r.1 as int) == bm25_weight(tf as int, doc_len as int, n as int, total_length as int),
        r.1 > 0,
{
    let tf = tf as u128;
    let dl = doc_len as u128;
    let n = n as u128;
    let total = total_length as u128;
    assert(tf * total <= 0xFFFF_FFFF * 0xFFFF_FFFF_FFFF_FFFF) by (nonlinear_arith)
        requires
            tf <= 0xFFFF_FFFF,
            total <= 0xFFFF_FFFF_FFFF_FFFF,
    ;
    assert(dl * n <= 0xFFFF_FFFF * 0xFFFF_FFFF) by (nonlinear_arith)
        requires
            dl <= 0xFFFF_FFFF,
            n <= 0xFFFF_FFFF,
    ;
    let tt = tf * total;
    let dn = dl * n;
    let k1n = K1_NUM as u128;
    let k1d = K1_DEN as u128;
    let bn = B_NUM as u128;
    let bd = B_DEN as u128;
    let num = tt * ((k1n + k1d) * bd);
    let den = tt * (k1d * bd) + (k1n * (bd - bn)) * total + (k1n * bn) * dn;
    assert(num == tf * (K1_NUM + K1_DEN) * B_DEN * total) by (nonlinear_arith)
        requires
            num == tt * ((k1n + k1d) * bd),
            tt == tf * total,
            k1n == K1_NUM,
            k1d == K1_DEN,
            bd == B_DEN,
    ;
    assert(den == tf * K1_DEN * B_DEN * total + K1_NUM * (B_DEN - B_NUM) * total + K1_NUM * B_NUM
        * doc_len * n) by (nonlinear_arith)
        requires
            den == tt * (k1d * bd) + (k1n * (bd - bn)) * total + (k1n * bn) * dn,
            tt == tf * total,
            dn == dl * n,
            dl == doc_len,
            k1n == K1_NUM,
            k1d == K1_DEN,
            bd == B_DEN,
            bn == B_NUM,
    ;
    (num, den)
}

} // verus!
