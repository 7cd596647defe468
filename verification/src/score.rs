//! Scoring engine and query engine.
//!
//! Two interchangeable ranking models, each a pure function of the query
//! terms, a document and the index statistics:
//!
//! * TF-IDF: per term, a log-scaled frequency weight `1 + ln(f)` times
//!   `idf = ln(N) - ln(df)`, floored at zero; terms absent from the corpus
//!   contribute nothing.
//! * BM25: per term, `idf * f*(k1+1) / (f + k1*(1 - b + b*|d|/avgdl))`
//!   with `idf = ln((N - df + 0.5)/(df + 0.5))` floored at zero.  The
//!   flooring choice keeps contributions non-negative; a term present in
//!   more than half the corpus simply contributes nothing.
//!
//! All values are Q16.16 fixed point; logarithms come from
//! `crate::fixedpoint` and the formulas below are exact statements of the
//! integer arithmetic performed.  A document matching none of the query
//! terms is not scored at all: it is absent from the ranked list, which is
//! ordered by descending score with ties broken by ascending document id.
use vstd::prelude::*;
use crate::fixedpoint::spec_ln_q16;
use crate::index::InvertedIndex;

verus! {

/// Whether the vocabulary holds term `t`.
pub open spec fn has_term(ix: InvertedIndex, t: Seq<char>) -> bool {
    exists|j: int| 0 <= j < ix.vocabulary@.len() && (#[trigger] ix.vocabulary@[j])@ == t
}

/// The id of term `t`; meaningful only when `has_term` holds (ids are
/// unique once the vocabulary is duplicate-free).
pub open spec fn term_id(ix: InvertedIndex, t: Seq<char>) -> int {
    choose|j: int| 0 <= j < ix.vocabulary@.len() && (#[trigger] ix.vocabulary@[j])@ == t
}

/// Document frequency: how many documents contain term `t`.
pub open spec fn spec_df(ix: InvertedIndex, t: Seq<char>) -> nat {
    if has_term(ix, t) {
        ix.postings@[term_id(ix, t)]@.len()
    } else {
        0
    }
}

/// Term frequency of `t` in document `d`, read off the postings list;
/// 0 when the term or the document is absent.
pub open spec fn spec_tf(ix: InvertedIndex, t: Seq<char>, d: int) -> nat {
    if has_term(ix, t) {
        let pl = ix.postings@[term_id(ix, t)]@;
        if exists|p: int| 0 <= p < pl.len() && (#[trigger] pl[p]).0 == d {
            let p = choose|p: int| 0 <= p < pl.len() && (#[trigger] pl[p]).0 == d;
            pl[p].1 as nat
        } else {
            0
        }
    } else {
        0
    }
}

/// A document matches a query when it contains at least one query term.
pub open spec fn spec_matches(ix: InvertedIndex, terms: Seq<Seq<char>>, d: int) -> bool {
    exists|q: int| 0 <= q < terms.len() && spec_tf(ix, #[trigger] terms[q], d) > 0
}

/// BM25 inverse document frequency in Q16.16:
/// `ln((N - df + 0.5) / (df + 0.5))` as `ln(2N - 2df + 1) - ln(2df + 1)`,
/// floored at zero.  Meaningful for `1 <= n` and `df <= n`.
pub open spec fn spec_idf_bm25_q16(n: int, df: int) -> int {
    let a = spec_ln_q16((2 * n - 2 * df + 1) as nat) as int;
    let c = spec_ln_q16((2 * df + 1) as nat) as int;
    if a > c {
        a - c
    } else {
        0
    }
}

/// TF-IDF inverse document frequency in Q16.16: `ln(N) - ln(df)`,
/// floored at zero; 0 when the term occurs in no document.
pub open spec fn spec_idf_tfidf_q16(n: int, df: int) -> int {
    if df <= 0 {
        0
    } else {
        let a = spec_ln_q16(n as nat) as int;
        let c = spec_ln_q16(df as nat) as int;
        if a > c {
            a - c
        } else {
            0
        }
    }
}

/// BM25 length normalization `1 - b + b * |d| / avgdl` in Q16.16, with
/// `avgdl = tt / n` carried exactly: `(65536 - bq) + bq * ((dl*n) / tt)`.
pub open spec fn spec_norm_q16(bq: int, dl: int, n: int, tt: int) -> int {
    if tt <= 0 {
        0
    } else {
        (65536 - bq) + bq * ((dl * n) / tt)
    }
}

/// Numerator of the BM25 term-saturation ratio, scaled so that the
/// quotient with `spec_tf_sat_den` is in Q16.16.
pub open spec fn spec_tf_sat_num(f: int, k1q: int) -> int {
    f * (k1q + 65536) * 65536 * 65536
}

/// Denominator of the BM25 term-saturation ratio.
pub open spec fn spec_tf_sat_den(f: int, k1q: int, normq: int) -> int {
    f * 65536 * 65536 + k1q * normq
}

/// The BM25 term-saturation factor `f*(k1+1) / (f + k1*norm)` in Q16.16.
pub open spec fn spec_tf_sat_q16(f: int, k1q: int, normq: int) -> int {
    spec_tf_sat_num(f, k1q) / spec_tf_sat_den(f, k1q, normq)
}

/// One query term's BM25 contribution to a document's score, in Q16.16.
pub open spec fn spec_bm25_term_q16(
    k1q: int,
    bq: int,
    n: int,
    tt: int,
    dl: int,
    f: int,
    df: int,
) -> int {
    if f <= 0 {
        0
    } else {
        spec_idf_bm25_q16(n, df) * spec_tf_sat_q16(f, k1q, spec_norm_q16(bq, dl, n, tt)) / 65536
    }
}

/// One query term's TF-IDF contribution: log-scaled term frequency
/// `1 + ln(f)` times the floored idf, in Q16.16.
pub open spec fn spec_tfidf_term_q16(n: int, f: int, df: int) -> int {
    if f <= 0 || df <= 0 {
        0
    } else {
        (65536 + spec_ln_q16(f as nat)) * spec_idf_tfidf_q16(n, df) / 65536
    }
}

/// BM25 parameters in Q16.16: `k1` saturates term frequency, `b` sets the
/// strength of length normalization.
#[derive(Clone, Copy, Debug)]
pub struct BM25Scorer {
    pub k1_q16: u64,
    pub b_q16: u64,
}

impl BM25Scorer {
    /// `k1` at most 256, `b` at most 1: the ranges the model is defined
    /// for, and what keeps the fixed-point arithmetic in bounds.
    pub open spec fn wf(self) -> bool {
        self.k1_q16 <= 0x100_0000 && self.b_q16 <= 65536
    }
}

/// The closed set of ranking models.
#[derive(Clone, Copy, Debug)]
pub enum Scorer {
    TfIdf,
    Bm25(BM25Scorer),
}

impl Scorer {
    pub open spec fn wf(self) -> bool {
        match self {
            Scorer::TfIdf => true,
            Scorer::Bm25(b) => b.wf(),
        }
    }
}

/// One query term's contribution under a scorer, in Q16.16.
pub open spec fn spec_term_score_q16(sc: Scorer, ix: InvertedIndex, t: Seq<char>, d: int) -> int {
    let f = spec_tf(ix, t, d) as int;
    let df = spec_df(ix, t) as int;
    match sc {
        Scorer::TfIdf => spec_tfidf_term_q16(ix.total_docs as int, f, df),
        Scorer::Bm25(b) => spec_bm25_term_q16(
            b.k1_q16 as int,
            b.b_q16 as int,
            ix.total_docs as int,
            ix.total_token_count as int,
            ix.doc_lengths@[d] as int,
            f,
            df,
        ),
    }
}

/// A document's score: the sum of its per-term contributions over the
/// query, duplicates counted as often as they appear.
pub open spec fn spec_score(sc: Scorer, ix: InvertedIndex, terms: Seq<Seq<char>>, d: int) -> int
    decreases terms.len(),
{
    if terms.len() == 0 {
        0
    } else {
        spec_score(sc, ix, terms.drop_last(), d) + spec_term_score_q16(sc, ix, terms.last(), d)
    }
}

/// One ranked result: a matching document and its Q16.16 score.
#[derive(PartialEq, Eq, Structural, Clone, Copy, Debug)]
pub struct QueryResult {
    pub doc_id: usize,
    pub score: u128,
}

/// Strict ranking order: higher score first, ties by ascending doc id.
pub open spec fn ranked_before(a: QueryResult, b: QueryResult) -> bool {
    a.score > b.score || (a.score == b.score && a.doc_id < b.doc_id)
}

/// What a full ranked result list is: exactly the matching documents,
/// each with its exact score, in strict ranking order.
pub open spec fn ranked_list(
    r: Seq<QueryResult>,
    sc: Scorer,
    ix: InvertedIndex,
    terms: Seq<Seq<char>>,
) -> bool {
    &&& forall|a: int|
        0 <= a < r.len() ==> (#[trigger] r[a]).doc_id < ix.total_docs && spec_matches(
            ix,
            terms,
            r[a].doc_id as int,
        ) && r[a].score == spec_score(sc, ix, terms, r[a].doc_id as int)
    &&& forall|a: int, b: int|
        0 <= a < b < r.len() ==> (#[trigger] r[a]).doc_id != (#[trigger] r[b]).doc_id
    &&& forall|d: int|
        0 <= d < ix.total_docs && spec_matches(ix, terms, d) ==> exists|a: int|
            0 <= a < r.len() && (#[trigger] r[a]).doc_id == d
    &&& forall|a: int, b: int|
        0 <= a < b < r.len() ==> ranked_before(#[trigger] r[a], #[trigger] r[b])
}

/// Increasing `k1` strictly increases the BM25 term-saturation factor of
/// a term whose frequency exceeds the length normalizer (in particular, of
/// repeated terms in documents of at most typical length).  Stated as the
/// exact rational comparison of the saturation ratios: the ratio at `k1b`
/// exceeds the ratio at `k1a` (cross-multiplied, denominators positive).
pub proof fn lemma_k1_monotone(f: int, normq: int, k1a: int, k1b: int)
    requires
        1 <= f,
        0 <= normq,
        normq < f * 65536,
        0 <= k1a < k1b,
    ensures
        spec_tf_sat_num(f, k1a) * spec_tf_sat_den(f, k1b, normq) < spec_tf_sat_num(f, k1b)
            * spec_tf_sat_den(f, k1a, normq),
        spec_tf_sat_den(f, k1a, normq) > 0,
        spec_tf_sat_den(f, k1b, normq) > 0,
{
    let s: int = 65536;
    let na = f * (k1a + s) * s * s;
    let nb = f * (k1b + s) * s * s;
    let da = f * s * s + k1a * normq;
    let db = f * s * s + k1b * normq;
    assert(spec_tf_sat_num(f, k1a) == na);
    assert(spec_tf_sat_num(f, k1b) == nb);
    assert(spec_tf_sat_den(f, k1a, normq) == da);
    assert(spec_tf_sat_den(f, k1b, normq) == db);
    assert(da > 0) by (nonlinear_arith)
        requires
            1 <= f,
            0 <= normq,
            0 <= k1a,
            s == 65536,
            da == f * s * s + k1a * normq,
    ;
    assert(db > 0) by (nonlinear_arith)
        requires
            1 <= f,
            0 <= normq,
            0 <= k1b,
            s == 65536,
            db == f * s * s + k1b * normq,
    ;
    let u = f * s * s;
    assert(na == (k1a + s) * u) by (nonlinear_arith)
        requires
            na == f * (k1a + s) * s * s,
            u == f * s * s,
    ;
    assert(nb == (k1b + s) * u) by (nonlinear_arith)
        requires
            nb == f * (k1b + s) * s * s,
            u == f * s * s,
    ;
    let uu = u * u;
    let un = u * normq;
    assert(nb * da == (k1b + s) * uu + ((k1b + s) * k1a) * un) by (nonlinear_arith)
        requires
            nb == (k1b + s) * u,
            da == u + k1a * normq,
            uu == u * u,
            un == u * normq,
    ;
    assert(na * db == (k1a + s) * uu + ((k1a + s) * k1b) * un) by (nonlinear_arith)
        requires
            na == (k1a + s) * u,
            db == u + k1b * normq,
            uu == u * u,
            un == u * normq,
    ;
    let ab = k1b + s;
    let aa = k1a + s;
    let bb = ab * k1a;
    let ba = aa * k1b;
    assert(ab * uu - aa * uu == (k1b - k1a) * uu) by (nonlinear_arith)
        requires
            ab == k1b + s,
            aa == k1a + s,
    ;
    assert(bb * un - ba * un == (bb - ba) * un) by (nonlinear_arith);
    assert(bb - ba == s * k1a - s * k1b) by (nonlinear_arith)
        requires
            bb == (k1b + s) * k1a,
            ba == (k1a + s) * k1b,
    ;
    assert((s * k1a - s * k1b) * un == ((k1a - k1b) * s) * un) by (nonlinear_arith);
    assert(((k1a - k1b) * s) * un == (k1a - k1b) * (s * un)) by (nonlinear_arith);
    assert((k1b - k1a) * (uu - s * un) == (k1b - k1a) * uu + (k1a - k1b) * (s * un))
        by (nonlinear_arith);
    assert(nb * da - na * db == (k1b - k1a) * (uu - s * un));
    assert(uu > s * un) by (nonlinear_arith)
        requires
            uu == u * u,
            un == u * normq,
            u == f * s * s,
            s == 65536,
            1 <= f,
            0 <= normq < f * s,
    ;
    assert((k1b - k1a) * (uu - s * un) > 0) by (nonlinear_arith)
        requires
            k1a < k1b,
            uu > s * un,
    ;
}

} // verus!
