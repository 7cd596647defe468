//! Query engine: tokenizes a query with the configuration the index was
//! built with, scores every candidate document, ranks, and truncates to
//! the top k.  Candidates are exactly the documents containing at least
//! one query term; every candidate appears in the full ranking, even with
//! a zero score.
use vstd::prelude::*;
use vstd::arithmetic::div_mod::lemma_div_is_ordered;
use vstd::arithmetic::div_mod::lemma_div_is_ordered_by_denominator;
use vstd::arithmetic::div_mod::lemma_div_by_multiple;
use vstd::arithmetic::mul::lemma_mul_inequality;
use vstd::arithmetic::mul::lemma_mul_upper_bound;
use vstd::arithmetic::mul::lemma_mul_is_commutative;
use crate::fixedpoint::ln_q16;
use crate::index::InvertedIndex;
use crate::index::sum_lengths;
use crate::index::lemma_sum_lengths_nonneg;
use crate::score::BM25Scorer;
use crate::score::QueryResult;
use crate::score::Scorer;
use crate::score::has_term;
use crate::score::ranked_before;
use crate::score::ranked_list;
use crate::score::spec_df;
use crate::score::spec_matches;
use crate::score::spec_score;
use crate::score::spec_term_score_q16;
use crate::score::spec_tf;
use crate::score::term_id;
use crate::tokenize::find_string;
use crate::tokenize::tokenize;
use crate::tokenize::views_of;

verus! {

/// The total is no smaller than any one document's length.
proof fn lemma_sum_ge_elem(s: Seq<usize>, i: int)
    requires
        0 <= i < s.len(),
    ensures
        sum_lengths(s) >= s[i],
    decreases s.len(),
{
    if i == s.len() - 1 {
        lemma_sum_lengths_nonneg(s.drop_last());
    } else {
        lemma_sum_ge_elem(s.drop_last(), i);
        assert(s.drop_last()[i] == s[i]);
    }
}

/// In a strictly ascending postings list every entry's doc id is at least
/// its position; hence no list is longer than the corpus.
proof fn lemma_posting_ge_index(ix: InvertedIndex, j: int, p: int)
    requires
        ix.structural_wf(),
        0 <= j < ix.postings@.len(),
        0 <= p < ix.postings@[j]@.len(),
    ensures
        ix.postings@[j]@[p].0 >= p,
    decreases p,
{
    if p > 0 {
        lemma_posting_ge_index(ix, j, p - 1);
        assert(ix.postings@[j]@[p - 1].0 < ix.postings@[j]@[p].0);
    }
}

/// Term and document frequency of one query term: `(tf, df)`.
fn tf_df_lookup(ix: &InvertedIndex, t: &String, d: usize) -> (r: (usize, usize))
    requires
        ix.structural_wf(),
        d < ix.total_docs,
    ensures
        r.0 == spec_tf(*ix, t@, d as int),
        r.1 == spec_df(*ix, t@),
        r.0 <= ix.doc_lengths@[d as int],
        r.1 <= ix.total_docs,
        r.0 > 0 ==> r.1 >= 1,
{
    match find_string(&ix.vocabulary, t) {
        None => {
            proof {
                if has_term(*ix, t@) {
                    let j = choose|j: int|
                        0 <= j < ix.vocabulary@.len() && (#[trigger] ix.vocabulary@[j])@ == t@;
                    assert(ix.vocabulary@[j]@ == t@);
                }
            }
            (0, 0)
        },
        Some(j) => {
            proof {
                assert(has_term(*ix, t@)) by {
                    assert(ix.vocabulary@[j as int]@ == t@);
                }
                let j2 = term_id(*ix, t@);
                assert(ix.vocabulary@[j2]@ == t@);
                if j2 != j {
                    if j2 < j {
                        assert(ix.vocabulary@[j2]@ != ix.vocabulary@[j as int]@);
                    } else {
                        assert(ix.vocabulary@[j as int]@ != ix.vocabulary@[j2]@);
                    }
                }
                assert(j2 == j);
                if ix.postings@[j as int]@.len() > ix.total_docs {
                    lemma_posting_ge_index(*ix, j as int, ix.postings@[j as int]@.len() - 1);
                }
            }
            let pl = &ix.postings[j];
            let ghost plv = ix.postings@[j as int]@;
            proof {
                assert(pl@ == plv);
            }
            let df: usize = pl.len();
            let mut p: usize = 0;
            while p < pl.len()
                invariant
                    ix.structural_wf(),
                    0 <= j < ix.postings@.len(),
                    plv == ix.postings@[j as int]@,
                    pl@ == plv,
                    has_term(*ix, t@),
                    term_id(*ix, t@) == j,
                    df == plv.len(),
                    df <= ix.total_docs,
                    p <= plv.len(),
                    forall|a: int| 0 <= a < p ==> (#[trigger] plv[a]).0 != d,
                decreases plv.len() - p,
            {
                if pl[p].0 == d {
                    let f: usize = pl[p].1;
                    proof {
                        assert(plv[p as int].0 == d);
                        assert(exists|a: int| 0 <= a < plv.len() && (#[trigger] plv[a]).0 == d);
                        let p2 = choose|a: int| 0 <= a < plv.len() && (#[trigger] plv[a]).0 == d;
                        assert(0 <= p2 < plv.len() && plv[p2].0 == d);
                        if p2 != p {
                            if p2 < p {
                                assert(ix.postings@[j as int]@[p2].0 < ix.postings@[j as int]@[p as int].0);
                            } else {
                                assert(ix.postings@[j as int]@[p as int].0 < ix.postings@[j as int]@[p2].0);
                            }
                        }
                        assert(spec_tf(*ix, t@, d as int) == plv[p as int].1);
                    }
                    return (f, df);
                }
                p += 1;
            }
            proof {
                if exists|a: int| 0 <= a < plv.len() && (#[trigger] plv[a]).0 == d {
                    let a = choose|a: int| 0 <= a < plv.len() && (#[trigger] plv[a]).0 == d;
                    assert(plv[a].0 != d);
                }
            }
            (0, df)
        },
    }
}

/// Score one document against the query: its exact Q16.16 score, and
/// whether it contains any query term at all.
fn score_doc(scorer: &Scorer, query_terms: &[String], index: &InvertedIndex, d: usize) -> (r: (
    u128,
    bool,
))
    requires
        index.structural_wf(),
        scorer.wf(),
        d < index.total_docs,
    ensures
        r.0 == spec_score(*scorer, *index, views_of(query_terms@), d as int),
        r.1 == spec_matches(*index, views_of(query_terms@), d as int),
{
    let ghost qv = views_of(query_terms@);
    let mut score: u128 = 0;
    let mut matched: bool = false;
    let mut q: usize = 0;
    while q < query_terms.len()
        invariant
            index.structural_wf(),
            scorer.wf(),
            d < index.total_docs,
            qv == views_of(query_terms@),
            q <= query_terms@.len(),
            score == spec_score(*scorer, *index, qv.take(q as int), d as int),
            score <= (q as int) * 0x1000000000000,
            matched == spec_matches(*index, qv.take(q as int), d as int),
        decreases query_terms@.len() - q,
    {
        proof {
            assert(qv.take(q + 1).drop_last() =~= qv.take(q as int));
            assert(qv.take(q + 1).last() == qv[q as int]);
            assert(qv[q as int] == query_terms@[q as int]@);
        }
        let t = &query_terms[q];
        let (f, df) = tf_df_lookup(index, t, d);
        let n: usize = index.total_docs;
        let mut tscore: u128 = 0;
        if f > 0 {
            matched = true;
            proof {
                assert(spec_matches(*index, qv.take(q + 1), d as int)) by {
                    assert(spec_tf(*index, qv.take(q + 1)[q as int], d as int) > 0);
                }
            }
            match *scorer {
                Scorer::TfIdf => {
                    let a = ln_q16(n as u128);
                    let c = ln_q16(df as u128);
                    let idf: u64 = if a > c {
                        a - c
                    } else {
                        0
                    };
                    let tfc: u64 = 65536 + ln_q16(f as u128);
                    proof {
                        lemma_mul_upper_bound(
                            tfc as int,
                            0x710000int,
                            idf as int,
                            0x700000int,
                        );
                        assert((tfc as int) * (idf as int) >= 0) by (nonlinear_arith)
                            requires
                                tfc >= 0,
                                idf >= 0,
                        ;
                    }
                    tscore = ((tfc as u128) * (idf as u128)) / 65536;
                    proof {
                        vstd::arithmetic::div_mod::lemma_div_pos_is_pos(
                            (tfc as int) * (idf as int),
                            65536,
                        );
                        lemma_div_is_ordered(
                            (tfc as int) * (idf as int),
                            0x710000 * 0x700000int,
                            65536,
                        );
                    }
                },
                Scorer::Bm25(b) => {
                    proof {
                        assert(2 * (n as int) - 2 * (df as int) + 1 >= 1);
                    }
                    let a = ln_q16(2 * (n as u128) - 2 * (df as u128) + 1);
                    let c = ln_q16(2 * (df as u128) + 1);
                    let idf: u64 = if a > c {
                        a - c
                    } else {
                        0
                    };
                    let tt: u128 = index.total_token_count;
                    let dl: usize = index.doc_lengths[d];
                    proof {
                        lemma_sum_ge_elem(index.doc_lengths@, d as int);
                        assert(tt >= dl);
                        assert(dl >= f);
                        assert(tt >= 1);
                        lemma_mul_upper_bound(
                            dl as int,
                            0xFFFFFFFFFFFFFFFFint,
                            n as int,
                            0xFFFFFFFFFFFFFFFFint,
                        );
                    }
                    let prod: u128 = (dl as u128) * (n as u128);
                    let ratio: u128 = prod / tt;
                    proof {
                        lemma_mul_inequality(dl as int, tt as int, n as int);
                        lemma_mul_is_commutative(dl as int, n as int);
                        lemma_mul_is_commutative(tt as int, n as int);
                        lemma_div_is_ordered((dl as int) * (n as int), (tt as int) * (n as int), tt as int);
                        lemma_div_by_multiple(n as int, tt as int);
                        assert(ratio <= n);
                    }
                    let bq: u128 = b.b_q16 as u128;
                    let k1q: u128 = b.k1_q16 as u128;
                    proof {
                        lemma_mul_upper_bound(bq as int, 65536, ratio as int, 0xFFFFFFFFFFFFFFFFint);
                    }
                    let normq: u128 = (65536 - bq) + bq * ratio;
                    proof {
                        assert((f as int) * ((k1q as int) + 65536) <= 0xFFFFFFFFFFFFFFFFint
                            * 0x1010000) by {
                            lemma_mul_upper_bound(
                                f as int,
                                0xFFFFFFFFFFFFFFFFint,
                                (k1q as int) + 65536,
                                0x1010000,
                            );
                        }
                        lemma_mul_inequality(
                            (f as int) * ((k1q as int) + 65536),
                            0xFFFFFFFFFFFFFFFFint * 0x1010000,
                            65536,
                        );
                        lemma_mul_is_commutative((f as int) * ((k1q as int) + 65536), 65536);
                        lemma_mul_is_commutative(0xFFFFFFFFFFFFFFFFint * 0x1010000, 65536);
                        lemma_mul_inequality(
                            (f as int) * ((k1q as int) + 65536) * 65536,
                            0xFFFFFFFFFFFFFFFFint * 0x1010000 * 65536,
                            65536,
                        );
                        lemma_mul_is_commutative(
                            (f as int) * ((k1q as int) + 65536) * 65536,
                            65536,
                        );
                        lemma_mul_is_commutative(0xFFFFFFFFFFFFFFFFint * 0x1010000 * 65536, 65536);
                    }
                    let num: u128 = (f as u128) * (k1q + 65536) * 65536 * 65536;
                    proof {
                        assert((f as int) * 65536 <= 0xFFFFFFFFFFFFFFFFint * 65536) by {
                            lemma_mul_inequality(f as int, 0xFFFFFFFFFFFFFFFFint, 65536);
                            lemma_mul_is_commutative(f as int, 65536);
                            lemma_mul_is_commutative(0xFFFFFFFFFFFFFFFFint, 65536);
                        }
                        assert((f as int) * 65536 * 65536 <= 0xFFFFFFFFFFFFFFFFint * 65536
                            * 65536) by {
                            lemma_mul_inequality(
                                (f as int) * 65536,
                                0xFFFFFFFFFFFFFFFFint * 65536,
                                65536,
                            );
                            lemma_mul_is_commutative((f as int) * 65536, 65536);
                            lemma_mul_is_commutative(0xFFFFFFFFFFFFFFFFint * 65536, 65536);
                        }
                        lemma_mul_upper_bound(
                            k1q as int,
                            0x1000000,
                            normq as int,
                            0x10001000000000000000000int,
                        );
                        assert((f as int) * 65536 * 65536 >= 65536) by (nonlinear_arith)
                            requires
                                f >= 1,
                        ;
                    }
                    let den: u128 = (f as u128) * 65536 * 65536 + k1q * normq;
                    let sat: u128 = num / den;
                    proof {
                        // The saturation factor never exceeds k1 + 1.
                        let fss = (f as int) * 65536 * 65536;
                        assert((f as int) * ((k1q as int) + 65536) * 65536 * 65536 == ((f as int)
                            * 65536 * 65536) * ((k1q as int) + 65536)) by (nonlinear_arith);
                        assert(num == fss * ((k1q as int) + 65536));
                        assert(fss * ((k1q as int) + 65536) >= 0) by (nonlinear_arith)
                            requires
                                fss >= 0,
                                k1q >= 0,
                        ;
                        lemma_div_is_ordered_by_denominator(num as int, fss, den as int);
                        lemma_mul_is_commutative(fss, (k1q as int) + 65536);
                        lemma_div_by_multiple((k1q as int) + 65536, fss);
                        assert(sat <= (k1q as int) + 65536);
                    }
                    proof {
                        lemma_mul_upper_bound(idf as int, 0x700000int, sat as int, 0x1010000);
                        assert((idf as int) * (sat as int) >= 0) by (nonlinear_arith)
                            requires
                                idf >= 0,
                                sat >= 0,
                        ;
                    }
                    tscore = ((idf as u128) * sat) / 65536;
                    proof {
                        vstd::arithmetic::div_mod::lemma_div_pos_is_pos(
                            (idf as int) * (sat as int),
                            65536,
                        );
                        lemma_div_is_ordered(
                            (idf as int) * (sat as int),
                            0x700000int * 0x1010000,
                            65536,
                        );
                    }
                },
            }
        } else {
            proof {
                if spec_matches(*index, qv.take(q + 1), d as int) {
                    let w = choose|w: int|
                        0 <= w < qv.take(q + 1).len() && spec_tf(
                            *index,
                            #[trigger] qv.take(q + 1)[w],
                            d as int,
                        ) > 0;
                    if w == q {
                        assert(spec_tf(*index, qv[q as int], d as int) > 0);
                        assert(false);
                    } else {
                        assert(spec_tf(*index, qv.take(q as int)[w], d as int) > 0);
                        assert(spec_matches(*index, qv.take(q as int), d as int));
                    }
                }
            }
        }
        proof {
            assert(tscore == spec_term_score_q16(*scorer, *index, qv[q as int], d as int));
            assert(tscore <= 0x1000000000000);
            assert((q as int) * 0x1000000000000 + 0x1000000000000 == ((q as int) + 1)
                * 0x1000000000000) by (nonlinear_arith);
            assert(((q as int) + 1) * 0x1000000000000 <= 0xFFFFFFFFFFFFFFFFint
                * 0x1000000000000) by {
                lemma_mul_inequality((q as int) + 1, 0xFFFFFFFFFFFFFFFFint, 0x1000000000000);
                lemma_mul_is_commutative((q as int) + 1, 0x1000000000000);
                lemma_mul_is_commutative(0xFFFFFFFFFFFFFFFFint, 0x1000000000000);
            }
        }
        score = score + tscore;
        q += 1;
    }
    proof {
        assert(qv.take(query_terms@.len() as int) =~= qv);
    }
    (score, matched)
}

fn ranked_before_exec(a: &QueryResult, b: &QueryResult) -> (r: bool)
    ensures
        r == ranked_before(*a, *b),
{
    a.score > b.score || (a.score == b.score && a.doc_id < b.doc_id)
}

/// Any two results for distinct documents are strictly ordered one way.
proof fn lemma_ranked_total(a: QueryResult, b: QueryResult)
    requires
        a.doc_id != b.doc_id,
    ensures
        ranked_before(a, b) || ranked_before(b, a),
{
}

/// Sort results by descending score, ties by ascending doc id.
fn sort_results(v: Vec<QueryResult>) -> (r: Vec<QueryResult>)
    requires
        forall|a: int, b: int|
            0 <= a < b < v@.len() ==> (#[trigger] v@[a]).doc_id != (#[trigger] v@[b]).doc_id,
    ensures
        r@.len() == v@.len(),
        forall|a: int| 0 <= a < r@.len() ==> v@.contains(#[trigger] r@[a]),
        forall|a: int| 0 <= a < v@.len() ==> r@.contains(#[trigger] v@[a]),
        forall|a: int, b: int|
            0 <= a < b < r@.len() ==> ranked_before(#[trigger] r@[a], #[trigger] r@[b]),
{
    let mut r: Vec<QueryResult> = Vec::new();
    let mut i: usize = 0;
    while i < v.len()
        invariant
            forall|a: int, b: int|
                0 <= a < b < v@.len() ==> (#[trigger] v@[a]).doc_id != (#[trigger] v@[b]).doc_id,
            i <= v@.len(),
            r@.len() == i,
            forall|a: int| 0 <= a < r@.len() ==> v@.take(i as int).contains(#[trigger] r@[a]),
            forall|j: int| 0 <= j < i ==> r@.contains(#[trigger] v@[j]),
            forall|a: int, b: int|
                0 <= a < b < r@.len() ==> ranked_before(#[trigger] r@[a], #[trigger] r@[b]),
        decreases v@.len() - i,
    {
        let x = v[i];
        proof {
            // x's document differs from everything already placed.
            assert forall|a: int| 0 <= a < r@.len() implies (#[trigger] r@[a]).doc_id
                != x.doc_id by {
                let w = choose|w: int|
                    0 <= w < v@.take(i as int).len() && v@.take(i as int)[w] == r@[a];
                assert(v@[w] == r@[a]);
                assert(v@[w].doc_id != v@[i as int].doc_id);
            }
        }
        let mut pos: usize = 0;
        while pos < r.len() && !ranked_before_exec(&x, &r[pos])
            invariant
                pos <= r@.len(),
                forall|a: int| 0 <= a < r@.len() ==> (#[trigger] r@[a]).doc_id != x.doc_id,
                forall|a: int| 0 <= a < pos ==> ranked_before(#[trigger] r@[a], x),
                forall|a: int, b: int|
                    0 <= a < b < r@.len() ==> ranked_before(#[trigger] r@[a], #[trigger] r@[b]),
            decreases r@.len() - pos,
        {
            proof {
                lemma_ranked_total(x, r@[pos as int]);
            }
            pos += 1;
        }
        let ghost old_r = r@;
        r.insert(pos, x);
        proof {
            assert(r@ == old_r.insert(pos as int, x));
            assert(r@.len() == old_r.len() + 1);
            assert forall|a: int| 0 <= a < r@.len() implies v@.take(i + 1).contains(
                #[trigger] r@[a],
            ) by {
                if a < pos {
                    assert(r@[a] == old_r[a]);
                    let w = choose|w: int|
                        0 <= w < v@.take(i as int).len() && v@.take(i as int)[w] == old_r[a];
                    assert(v@.take(i + 1)[w] == r@[a]);
                } else if a == pos {
                    assert(r@[a] == x);
                    assert(v@.take(i + 1)[i as int] == x);
                } else {
                    assert(r@[a] == old_r[a - 1]);
                    let w = choose|w: int|
                        0 <= w < v@.take(i as int).len() && v@.take(i as int)[w] == old_r[a - 1];
                    assert(v@.take(i + 1)[w] == r@[a]);
                }
            }
            assert forall|j: int| 0 <= j < i + 1 implies r@.contains(#[trigger] v@[j]) by {
                if j == i {
                    assert(r@[pos as int] == v@[j]);
                } else {
                    let w = choose|w: int| 0 <= w < old_r.len() && old_r[w] == v@[j];
                    if w < pos {
                        assert(r@[w] == v@[j]);
                    } else {
                        assert(r@[w + 1] == v@[j]);
                    }
                }
            }
            assert forall|a: int, b: int| 0 <= a < b < r@.len() implies ranked_before(
                #[trigger] r@[a],
                #[trigger] r@[b],
            ) by {
                if b < pos {
                    assert(r@[a] == old_r[a] && r@[b] == old_r[b]);
                } else if b == pos {
                    assert(r@[b] == x && r@[a] == old_r[a]);
                } else if a < pos {
                    assert(r@[a] == old_r[a] && r@[b] == old_r[b - 1]);
                } else if a == pos {
                    assert(r@[a] == x && r@[b] == old_r[b - 1]);
                    if pos < old_r.len() {
                        assert(ranked_before(x, old_r[pos as int]));
                        if b - 1 > pos {
                            assert(ranked_before(old_r[pos as int], old_r[b - 1]));
                        }
                    }
                } else {
                    assert(r@[a] == old_r[a - 1] && r@[b] == old_r[b - 1]);
                }
            }
        }
        i += 1;
    }
    proof {
        assert(v@.take(v@.len() as int) =~= v@);
    }
    r
}

/// Rank every matching document of the corpus against the query.
fn rank_all(scorer: &Scorer, query_terms: &[String], index: &InvertedIndex) -> (r: Vec<
    QueryResult,
>)
    requires
        index.structural_wf(),
        scorer.wf(),
    ensures
        ranked_list(r@, *scorer, *index, views_of(query_terms@)),
{
    let ghost qv = views_of(query_terms@);
    let mut unsorted: Vec<QueryResult> = Vec::new();
    let mut d: usize = 0;
    while d < index.total_docs
        invariant
            index.structural_wf(),
            scorer.wf(),
            qv == views_of(query_terms@),
            d <= index.total_docs,
            forall|a: int|
                0 <= a < unsorted@.len() ==> (#[trigger] unsorted@[a]).doc_id < d && spec_matches(
                    *index,
                    qv,
                    unsorted@[a].doc_id as int,
                ) && unsorted@[a].score == spec_score(
                    *scorer,
                    *index,
                    qv,
                    unsorted@[a].doc_id as int,
                ),
            forall|a: int, b: int|
                0 <= a < b < unsorted@.len() ==> (#[trigger] unsorted@[a]).doc_id < (
                #[trigger] unsorted@[b]).doc_id,
            forall|e: int|
                0 <= e < d && spec_matches(*index, qv, e) ==> exists|a: int|
                    0 <= a < unsorted@.len() && (#[trigger] unsorted@[a]).doc_id == e,
        decreases index.total_docs - d,
    {
        let (score, matched) = score_doc(scorer, query_terms, index, d);
        if matched {
            let ghost old_u = unsorted@;
            unsorted.push(QueryResult { doc_id: d, score });
            proof {
                assert forall|e: int|
                    0 <= e < d + 1 && spec_matches(*index, qv, e) implies exists|a: int|
                    0 <= a < unsorted@.len() && (#[trigger] unsorted@[a]).doc_id == e by {
                    if e == d {
                        assert(unsorted@[unsorted@.len() - 1].doc_id == e);
                    } else {
                        let a = choose|a: int|
                            0 <= a < old_u.len() && (#[trigger] old_u[a]).doc_id == e;
                        assert(unsorted@[a].doc_id == e);
                    }
                }
            }
        } else {
            proof {
                assert forall|e: int|
                    0 <= e < d + 1 && spec_matches(*index, qv, e) implies exists|a: int|
                    0 <= a < unsorted@.len() && (#[trigger] unsorted@[a]).doc_id == e by {
                    if e < d {
                        let a = choose|a: int|
                            0 <= a < unsorted@.len() && (#[trigger] unsorted@[a]).doc_id == e;
                        assert(unsorted@[a].doc_id == e);
                    }
                }
            }
        }
        d += 1;
    }
    let ghost uv = unsorted@;
    let r = sort_results(unsorted);
    proof {
        assert forall|a: int| 0 <= a < r@.len() implies (#[trigger] r@[a]).doc_id
            < index.total_docs && spec_matches(*index, qv, r@[a].doc_id as int) && r@[a].score
            == spec_score(*scorer, *index, qv, r@[a].doc_id as int) by {
            let w = choose|w: int| 0 <= w < uv.len() && uv[w] == r@[a];
        }
        assert forall|a: int, b: int| 0 <= a < b < r@.len() implies (#[trigger] r@[a]).doc_id != (
        #[trigger] r@[b]).doc_id by {
            let wa = choose|w: int| 0 <= w < uv.len() && uv[w] == r@[a];
            let wb = choose|w: int| 0 <= w < uv.len() && uv[w] == r@[b];
            if r@[a].doc_id == r@[b].doc_id {
                assert(wa == wb);
                assert(r@[a] == r@[b]);
                assert(ranked_before(r@[a], r@[b]));
            }
        }
        assert forall|e: int|
            0 <= e < index.total_docs && spec_matches(*index, qv, e) implies exists|a: int|
            0 <= a < r@.len() && (#[trigger] r@[a]).doc_id == e by {
            let w = choose|a: int| 0 <= a < uv.len() && (#[trigger] uv[a]).doc_id == e;
            assert(r@.contains(uv[w]));
            let a = choose|a: int| 0 <= a < r@.len() && r@[a] == uv[w];
            assert(r@[a].doc_id == e);
        }
    }
    r
}

impl BM25Scorer {
    /// Rank every document that contains at least one of the query terms,
    /// under BM25, best first.
    pub fn score_query(&self, query_terms: &[String], index: &InvertedIndex) -> (r: Vec<
        QueryResult,
    >)
        requires
            index.structural_wf(),
            self.wf(),
        ensures
            ranked_list(r@, Scorer::Bm25(*self), *index, views_of(query_terms@)),
    {
        rank_all(&Scorer::Bm25(*self), query_terms, index)
    }
}

/// Search the index: tokenize the query with the index's own tokenizer
/// configuration, rank all matching documents, and return the best
/// `top_k`.  An empty or out-of-vocabulary query, or `top_k == 0`, yields
/// an empty result.
pub fn search(query: &str, index: &InvertedIndex, scorer: &Scorer, top_k: usize) -> (r: Vec<
    QueryResult,
>)
    requires
        index.structural_wf(),
        scorer.wf(),
    ensures
        exists|full: Seq<QueryResult>|
            {
                &&& #[trigger] ranked_list(
                    full,
                    *scorer,
                    *index,
                    crate::tokenize::spec_tokens(query@, index.config),
                )
                &&& r@ == full.take(if top_k <= full.len() {
                    top_k as int
                } else {
                    full.len() as int
                })
            },
{
    let terms = tokenize(query, &index.config);
    let mut full = rank_all(scorer, terms.as_slice(), index);
    let ghost fullv = full@;
    let n = full.len();
    if top_k < n {
        full.truncate(top_k);
    }
    proof {
        if top_k < fullv.len() {
            assert(full@ == fullv.take(top_k as int));
        } else {
            assert(full@ =~= fullv.take(fullv.len() as int));
        }
        assert(ranked_list(fullv, *scorer, *index, crate::tokenize::spec_tokens(query@, index.config)));
    }
    full
}

} // verus!
